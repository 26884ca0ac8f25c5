//! The discrete part of an oriented bounding box: the order of its corners and
//! the choice of its separating axes.

use vstd::prelude::*;

verus! {

/// Number of axes that are always kept: the unit axes of the query frame.
pub const WORLD_AXES: usize = 3;

/// Number of axes considered in all: the three world axes, the three rotated
/// box axes, and the nine cross products of a world axis with a box axis.
pub const CANDIDATE_AXES: usize = 15;

/// One of the three coordinate directions.
#[derive(Clone, Copy, Debug, PartialEq, Eq, Structural)]
pub enum Direction {
    X,
    Y,
    Z,
}

/// What a candidate axis is made of.
#[derive(Clone, Copy, Debug, PartialEq, Eq, Structural)]
pub enum AxisCandidate {
    /// A unit axis of the query frame.
    World(Direction),
    /// A unit axis of the box, rotated into the query frame.
    Rotated(Direction),
    /// The normalized cross product of a world axis with a rotated box axis.
    Cross(Direction, Direction),
}

/// The direction with the given number, counted modulo three.
pub open spec fn direction_of(n: int) -> Direction {
    if n % 3 == 0 {
        Direction::X
    } else if n % 3 == 1 {
        Direction::Y
    } else {
        Direction::Z
    }
}

/// The candidate that stands at `index` in the order in which axes are tried.
pub open spec fn candidate_at(index: int) -> AxisCandidate {
    if index < 3 {
        AxisCandidate::World(direction_of(index))
    } else if index < 6 {
        AxisCandidate::Rotated(direction_of(index - 3))
    } else {
        AxisCandidate::Cross(direction_of((index - 6) / 3), direction_of(index - 6))
    }
}

fn direction(n: usize) -> (d: Direction)
    ensures
        d == direction_of(n as int),
{
    if n % 3 == 0 {
        Direction::X
    } else if n % 3 == 1 {
        Direction::Y
    } else {
        Direction::Z
    }
}

/// Names the candidate axis with the given index, or nothing past the last one.
///
/// The world axes come first, then the rotated box axes, then the cross
/// products, world axis by world axis.
pub fn candidate_axis(index: usize) -> (c: Option<AxisCandidate>)
    ensures
        index < CANDIDATE_AXES ==> c == Some(candidate_at(index as int)),
        index >= CANDIDATE_AXES ==> c.is_none(),
{
    if index < 3 {
        Some(AxisCandidate::World(direction(index)))
    } else if index < 6 {
        Some(AxisCandidate::Rotated(direction(index - 3)))
    } else if index < 15 {
        Some(AxisCandidate::Cross(direction((index - 6) / 3), direction(index - 6)))
    } else {
        None
    }
}

/// Number of corners of a box.
pub const CORNERS: usize = 8;

/// On which side of the box centre a corner lies along each box axis:
/// `true` for the positive half-extent, `false` for the negative one.
#[derive(Clone, Copy, Debug, PartialEq, Eq, Structural)]
pub struct CornerSigns {
    pub x: bool,
    pub y: bool,
    pub z: bool,
}

/// The signs of the corner stored at `index`: x alternates fastest, z slowest.
pub open spec fn corner_signs_at(index: int) -> CornerSigns {
    CornerSigns { x: index % 2 == 1, y: (index / 2) % 2 == 1, z: (index / 4) % 2 == 1 }
}

/// The place at which the corner with the given signs is stored.
pub open spec fn corner_index_of(signs: CornerSigns) -> int {
    (if signs.x { 1int } else { 0 }) + (if signs.y { 2int } else { 0 }) + (if signs.z { 4int } else { 0 })
}

/// Tells the signs of the half-extents that make up the corner at `index`,
/// or nothing past the eighth corner.
pub fn corner_signs(index: usize) -> (signs: Option<CornerSigns>)
    ensures
        index < CORNERS ==> signs == Some(corner_signs_at(index as int)),
        index >= CORNERS ==> signs.is_none(),
{
    if index < 8 {
        Some(CornerSigns { x: index % 2 == 1, y: (index / 2) % 2 == 1, z: (index / 4) % 2 == 1 })
    } else {
        None
    }
}

/// Every combination of signs is the corner at exactly one place below eight.
pub proof fn lemma_corners_are_all_sign_combinations(signs: CornerSigns, index: int)
    ensures
        0 <= corner_index_of(signs) < 8,
        corner_signs_at(corner_index_of(signs)) == signs,
        0 <= index < 8 && corner_signs_at(index) == signs ==> index == corner_index_of(signs),
{
}

/// What the numeric side found out about the candidate axes.
///
/// Both tables are indexed by candidate, in the order of [`candidate_at`].
#[derive(Clone, Copy, Debug)]
pub struct AxisTests {
    /// Whether every component of the candidate is a finite number.
    pub finite: [bool; 15],
    /// `distinct[k][j]`: candidate `k` differs from candidate `j` and from its
    /// opposite by more than the tolerance, so it is neither parallel nor
    /// anti-parallel to it.
    pub distinct: [[bool; 15]; 15],
}

impl AxisTests {
    /// Whether candidates `k` and `j` are neither parallel nor anti-parallel.
    pub open spec fn differ(self, k: int, j: int) -> bool {
        self.distinct[k][j]
    }
}

/// Whether candidate `k` belongs to the separating axes.
///
/// The world axes always do. A later candidate does if it is finite and
/// distinct from every earlier candidate that was kept.
pub open spec fn kept(tests: AxisTests, k: int) -> bool
    decreases k,
{
    if k < 0 || k >= 15 {
        false
    } else if k < 3 {
        true
    } else {
        tests.finite[k] && forall|j: int|
            0 <= j < k && kept(tests, j) ==> #[trigger] tests.differ(k, j)
    }
}

/// Whether `axes` lists exactly the kept candidates below `bound`, in rising order.
pub open spec fn lists_kept(tests: AxisTests, axes: Seq<usize>, bound: int) -> bool {
    &&& forall|i: int, j: int| 0 <= i < j < axes.len() ==> axes[i] < axes[j]
    &&& forall|i: int| 0 <= i < axes.len() ==> axes[i] < bound && kept(tests, axes[i] as int)
    &&& forall|k: int| 0 <= k < bound && kept(tests, k) ==> axes.contains(k as usize)
}

/// Whether candidate `k` is distinct from the first `upto` entries of `axes`.
pub open spec fn clear_of(tests: AxisTests, k: int, axes: Seq<usize>, upto: int) -> bool {
    forall|i: int| 0 <= i < upto ==> tests.differ(k, #[trigger] axes[i] as int)
}

proof fn lemma_kept_unfolds(tests: AxisTests, k: int)
    requires
        3 <= k < 15,
    ensures
        kept(tests, k) == (tests.finite[k] && forall|j: int|
            0 <= j < k && kept(tests, j) ==> #[trigger] tests.differ(k, j)),
{
}

/// The kept axes hold each world axis once: none of the other kept axes is
/// parallel or anti-parallel to a world axis, nor to another kept axis.
pub proof fn lemma_kept_axes_pairwise_distinct(tests: AxisTests, k: int, j: int)
    requires
        kept(tests, k),
        kept(tests, j),
        3 <= k,
        j < k,
    ensures
        tests.finite[k],
        tests.differ(k, j),
{
}

/// The rising list of kept candidates is unique.
pub proof fn lemma_kept_list_is_unique(tests: AxisTests, a: Seq<usize>, b: Seq<usize>)
    requires
        lists_kept(tests, a, 15),
        lists_kept(tests, b, 15),
    ensures
        a == b,
{
    lemma_rising_lists_agree(tests, a, b, a.len() as int);
    lemma_rising_lists_agree(tests, b, a, b.len() as int);
    if a.len() < b.len() {
        let extra = b[a.len() as int];
        let at = choose|at: int| 0 <= at < a.len() && a[at] == extra;
        assert(b[at] == extra);
    } else if b.len() < a.len() {
        let extra = a[b.len() as int];
        let at = choose|at: int| 0 <= at < b.len() && b[at] == extra;
        assert(a[at] == extra);
    }
    assert(a =~= b);
}

/// Two rising lists of the kept candidates agree on their first `n` entries.
proof fn lemma_rising_lists_agree(tests: AxisTests, a: Seq<usize>, b: Seq<usize>, n: int)
    requires
        lists_kept(tests, a, 15),
        lists_kept(tests, b, 15),
        0 <= n <= a.len(),
    ensures
        n <= b.len(),
        forall|i: int| 0 <= i < n ==> a[i] == b[i],
    decreases n,
{
    if n > 0 {
        lemma_rising_lists_agree(tests, a, b, n - 1);
        let m = n - 1;
        // a[m] is kept, so b holds it somewhere; nothing before that place in b
        // can be missing from the first m entries of a.
        let at = choose|at: int| 0 <= at < b.len() && b[at] == a[m];
        if at < m {
            assert(a[at] == b[at]);
        } else if at > m {
            let skipped = b[m];
            let back = choose|back: int| 0 <= back < a.len() && a[back] == skipped;
            if back < m {
                assert(b[back] == a[back]);
            } else if back > m {
                assert(a[m] < a[back]);
                assert(b[m] < b[at]);
            }
        }
    }
}

fn distinct_from_all(tests: &AxisTests, k: usize, axes: &Vec<usize>) -> (clear: bool)
    requires
        3 <= k < 15,
        lists_kept(*tests, axes@, k as int),
    ensures
        clear == (forall|j: int|
            0 <= j < k && kept(*tests, j) ==> #[trigger] tests.differ(k as int, j)),
{
    let mut i: usize = 0;
    while i < axes.len()
        invariant
            3 <= k < 15,
            i <= axes.len(),
            lists_kept(*tests, axes@, k as int),
            clear_of(*tests, k as int, axes@, i as int),
        decreases axes.len() - i,
    {
        let j: usize = axes[i];
        if !tests.distinct[k][j] {
            assert(kept(*tests, j as int) && !tests.differ(k as int, j as int));
            return false;
        }
        i += 1;
    }
    assert forall|j: int| 0 <= j < k && kept(*tests, j) implies #[trigger] tests.differ(
        k as int,
        j,
    ) by {
        let at = choose|at: int| 0 <= at < axes@.len() && axes@[at] == j as usize;
        assert(tests.differ(k as int, axes@[at] as int));
    }
    true
}

/// Chooses the separating axes of an oriented box from its candidates.
///
/// The result lists the indices of the kept candidates in rising order: the
/// three world axes, then every later candidate that is finite and neither
/// parallel nor anti-parallel to an axis kept before it.
pub fn select_separating_axes(tests: &AxisTests) -> (axes: Vec<usize>)
    ensures
        lists_kept(*tests, axes@, 15),
        3 <= axes.len() <= 15,
        axes[0] == 0 && axes[1] == 1 && axes[2] == 2,
{
    let mut axes: Vec<usize> = Vec::with_capacity(15);
    axes.push(0);
    axes.push(1);
    axes.push(2);
    assert(lists_kept(*tests, axes@, 3)) by {
        assert forall|k: int| 0 <= k < 3 && kept(*tests, k) implies axes@.contains(k as usize) by {
            assert(axes@[k] == k as usize);
        }
    }
    let mut k: usize = 3;
    while k < 15
        invariant
            3 <= k <= 15,
            lists_kept(*tests, axes@, k as int),
            3 <= axes.len() <= k,
            axes[0] == 0 && axes[1] == 1 && axes[2] == 2,
        decreases 15 - k,
    {
        let ghost before = axes@;
        let finite: bool = tests.finite[k];
        let keep: bool = finite && distinct_from_all(tests, k, &axes);
        proof {
            lemma_kept_unfolds(*tests, k as int);
        }
        if keep {
            axes.push(k);
            assert forall|c: int| 0 <= c < k + 1 && kept(*tests, c) implies axes@.contains(
                c as usize,
            ) by {
                if c < k {
                    let at = choose|at: int| 0 <= at < before.len() && before[at] == c as usize;
                    assert(axes@[at] == c as usize);
                } else {
                    assert(axes@[before.len() as int] == k);
                }
            }
        } else {
            assert forall|c: int| 0 <= c < k + 1 && kept(*tests, c) implies axes@.contains(
                c as usize,
            ) by {
                assert(c != k);
            }
        }
        k += 1;
    }
    axes
}

/// Whether `separates` may have answered `found` for the axis with the given index.
pub open spec fn told<F: Fn(usize) -> bool>(separates: &F, axis: usize, found: bool) -> bool {
    separates.ensures((axis,), found)
}

/// The separating-axis test: two boxes intersect if and only if none of the
/// axes separates them.
///
/// `separates` tells for the index of a candidate axis whether the two boxes,
/// projected onto that axis, fall into intervals that do not overlap. The
/// axes are asked in their order, up to the first that separates.
pub fn intersects<F: Fn(usize) -> bool>(axes: &Vec<usize>, separates: &F) -> (overlap: bool)
    requires
        forall|i: int| 0 <= i < axes.len() ==> separates.requires((#[trigger] axes[i],)),
    ensures
        overlap ==> forall|i: int| 0 <= i < axes.len() ==> told(separates, #[trigger] axes[i], false),
        !overlap ==> exists|i: int|
            {
                &&& 0 <= i < axes.len()
                &&& told(separates, #[trigger] axes[i], true)
                &&& forall|j: int| 0 <= j < i ==> told(separates, #[trigger] axes[j], false)
            },
{
    let mut i: usize = 0;
    while i < axes.len()
        invariant
            i <= axes.len(),
            forall|i: int| 0 <= i < axes.len() ==> separates.requires((#[trigger] axes[i],)),
            forall|j: int| 0 <= j < i ==> told(separates, #[trigger] axes[j], false),
        decreases axes.len() - i,
    {
        if separates(axes[i]) {
            assert(told(separates, axes[i as int], true));
            return false;
        }
        i += 1;
    }
    true
}

} // verus!
