//! What holds of the batches that a stream lets go.

use crate::batch::{
    aligned, flushed, lemma_row_keeps_aligned, pending, streamed, Columns, PointsBatch, Row,
};
use vstd::prelude::*;

verus! {

/// How quotient and remainder move when the dividend grows by one.
proof fn lemma_next_quotient(x: int, k: int)
    requires
        0 <= x,
        0 < k,
    ensures
        x % k + 1 == k ==> (x + 1) / k == x / k + 1 && (x + 1) % k == 0,
        x % k + 1 != k ==> (x + 1) / k == x / k && (x + 1) % k == x % k + 1,
{
    vstd::arithmetic::div_mod::lemma_fundamental_div_mod(x, k);
    vstd::arithmetic::div_mod::lemma_mod_bound(x, k);
    let q = x / k;
    let r = x % k;
    if r + 1 == k {
        assert(x + 1 == (q + 1) * k + 0) by (nonlinear_arith)
            requires
                x == k * q + r,
                r + 1 == k,
        ;
        vstd::arithmetic::div_mod::lemma_fundamental_div_mod_converse(x + 1, k, q + 1, 0);
    } else {
        assert(x + 1 == q * k + (r + 1)) by (nonlinear_arith)
            requires
                x == k * q + r,
        ;
        vstd::arithmetic::div_mod::lemma_fundamental_div_mod_converse(x + 1, k, q, r + 1);
    }
}

/// Appending rows lengthens the position and colour columns by their number,
/// and the intensity column by no more.
pub proof fn lemma_with_rows_lengths<P, I>(start: Columns<P, I>, rows: Seq<Row<P, I>>)
    ensures
        start.with_rows(rows).position.len() == start.position.len() + rows.len(),
        start.with_rows(rows).color.len() == start.color.len() + rows.len(),
        start.intensity.len() <= start.with_rows(rows).intensity.len() <= start.intensity.len()
            + rows.len(),
    decreases rows.len(),
{
    if rows.len() > 0 {
        lemma_with_rows_lengths(start, rows.drop_last());
    }
}

/// A stream of capacity `capacity` above zero that held fewer points than
/// that and took in `rows` has let go one batch for each full `capacity` of
/// points, each batch with exactly `capacity` positions and as many colours,
/// and keeps the points left over.
pub proof fn lemma_full_batches<P, I>(start: Columns<P, I>, capacity: nat, rows: Seq<Row<P, I>>)
    requires
        0 < capacity,
        start.position.len() < capacity,
        start.color.len() == start.position.len(),
    ensures
        flushed(start, capacity, rows).len() == (start.position.len() + rows.len()) / capacity,
        pending(start, capacity, rows).position.len() == (start.position.len() + rows.len())
            % capacity,
        pending(start, capacity, rows).color.len() == pending(
            start,
            capacity,
            rows,
        ).position.len(),
        forall|j: int|
            0 <= j < flushed(start, capacity, rows).len() ==> {
                &&& (#[trigger] flushed(start, capacity, rows)[j]).position.len() == capacity
                &&& flushed(start, capacity, rows)[j].color.len() == capacity
            },
    decreases rows.len(),
{
    let total = (start.position.len() + rows.len()) as int;
    if rows.len() == 0 {
        assert(total == 0 * (capacity as int) + total);
        vstd::arithmetic::div_mod::lemma_fundamental_div_mod_converse(
            total,
            capacity as int,
            0,
            total,
        );
    } else {
        lemma_full_batches(start, capacity, rows.drop_last());
        lemma_next_quotient(total - 1, capacity as int);
    }
}

/// The rows that make up the batch with the given number when `rows` are cut
/// into runs of `capacity`; the last run may be shorter.
pub open spec fn chunk<P, I>(rows: Seq<Row<P, I>>, capacity: nat, number: int) -> Seq<Row<P, I>> {
    let from = number * capacity;
    let to = if from + capacity <= rows.len() {
        from + capacity
    } else {
        rows.len() as int
    };
    rows.subrange(from, to)
}

/// The columns that hold exactly `rows`.
pub open spec fn columns_of<P, I>(rows: Seq<Row<P, I>>) -> Columns<P, I> {
    Columns::empty().with_rows(rows)
}

/// A fresh stream cuts its input into runs of `capacity` points: the batch
/// with number `j` holds the points from `j * capacity` on, in their order,
/// and the points after the last full run stay in the stream.
pub proof fn lemma_batches_are_chunks<P, I>(capacity: nat, rows: Seq<Row<P, I>>)
    requires
        0 < capacity,
    ensures
        flushed(Columns::empty(), capacity, rows).len() == rows.len() / capacity,
        forall|j: int|
            0 <= j < rows.len() / capacity ==> #[trigger] flushed(
                Columns::empty(),
                capacity,
                rows,
            )[j] == columns_of(chunk(rows, capacity, j)),
        pending(Columns::empty(), capacity, rows) == columns_of(
            chunk(rows, capacity, (rows.len() / capacity) as int),
        ),
        chunk(rows, capacity, (rows.len() / capacity) as int).len() == rows.len() % capacity,
    decreases rows.len(),
{
    let start = Columns::<P, I>::empty();
    let k = capacity as int;
    let n = rows.len() as int;
    lemma_full_batches(start, capacity, rows);
    vstd::arithmetic::div_mod::lemma_fundamental_div_mod(n, k);
    vstd::arithmetic::div_mod::lemma_mod_bound(n, k);
    let m = n / k;
    assert(m * k == k * m) by (nonlinear_arith);
    if n == 0 {
        assert(m == 0);
        assert(chunk(rows, capacity, 0).len() == 0);
    } else {
        let prev = rows.drop_last();
        lemma_batches_are_chunks(capacity, prev);
        lemma_full_batches(start, capacity, prev);
        lemma_next_quotient(n - 1, k);
        vstd::arithmetic::div_mod::lemma_fundamental_div_mod(n - 1, k);
        vstd::arithmetic::div_mod::lemma_mod_bound(n - 1, k);
        let mp = (n - 1) / k;
        assert(mp * k == k * mp) by (nonlinear_arith);
        let run = rows.subrange(mp * k, n);
        assert(run.drop_last() =~= chunk(prev, capacity, mp));
        assert(run.last() == rows.last());
        let filled = pending(start, capacity, prev).with_row(rows.last());
        assert(filled == columns_of(run));
        assert forall|j: int| 0 <= j < mp implies chunk(prev, capacity, j) == chunk(
            rows,
            capacity,
            j,
        ) by {
            assert(j * k + k <= mp * k) by (nonlinear_arith)
                requires
                    0 <= j < mp,
                    0 < k,
            ;
            assert(chunk(prev, capacity, j) =~= chunk(rows, capacity, j));
        }
        if (n - 1) % k + 1 == k {
            assert(m == mp + 1);
            assert(m * k == mp * k + k) by (nonlinear_arith)
                requires
                    m == mp + 1,
            ;
            assert(chunk(rows, capacity, mp) =~= run);
            assert(chunk(rows, capacity, m).len() == 0);
            assert forall|j: int| 0 <= j < m implies #[trigger] flushed(start, capacity, rows)[j]
                == columns_of(chunk(rows, capacity, j)) by {
                if j < mp {
                    assert(flushed(start, capacity, rows)[j] == flushed(start, capacity, prev)[j]);
                }
            }
        } else {
            assert(m == mp);
            assert(chunk(rows, capacity, m) =~= run);
            assert forall|j: int| 0 <= j < m implies #[trigger] flushed(start, capacity, rows)[j]
                == columns_of(chunk(rows, capacity, j)) by {
                assert(flushed(start, capacity, rows)[j] == flushed(start, capacity, prev)[j]);
            }
        }
    }
}

/// The position and colour columns hold the positions and colours of the
/// rows, one entry for each row and in the same order.
pub proof fn lemma_columns_follow_rows<P, I>(rows: Seq<Row<P, I>>)
    ensures
        columns_of(rows).position.len() == rows.len(),
        columns_of(rows).color.len() == rows.len(),
        forall|i: int|
            0 <= i < rows.len() ==> {
                &&& columns_of(rows).position[i] == (#[trigger] rows[i]).position
                &&& columns_of(rows).color[i] == rows[i].color
            },
    decreases rows.len(),
{
    lemma_with_rows_lengths(Columns::<P, I>::empty(), rows);
    if rows.len() > 0 {
        lemma_columns_follow_rows(rows.drop_last());
        lemma_with_rows_lengths(Columns::<P, I>::empty(), rows.drop_last());
        assert forall|i: int| 0 <= i < rows.len() implies {
            &&& columns_of(rows).position[i] == (#[trigger] rows[i]).position
            &&& columns_of(rows).color[i] == rows[i].color
        } by {
            if i < rows.len() - 1 {
                assert(rows.drop_last()[i] == rows[i]);
            }
        }
    }
}

/// The columns have an intensity exactly if one of the rows carried one.
pub proof fn lemma_intensity_present_iff_carried<P, I>(rows: Seq<Row<P, I>>)
    ensures
        columns_of(rows).intensity.len() > 0 <==> exists|i: int|
            0 <= i < rows.len() && (#[trigger] rows[i]).intensity is Some,
    decreases rows.len(),
{
    if rows.len() > 0 {
        let prev = rows.drop_last();
        lemma_intensity_present_iff_carried(prev);
        if columns_of(rows).intensity.len() > 0 {
            if rows.last().intensity is Some {
                assert(rows[rows.len() - 1].intensity is Some);
            } else {
                let i = choose|i: int| 0 <= i < prev.len() && (#[trigger] prev[i]).intensity is Some;
                assert(rows[i].intensity is Some);
            }
        }
        if exists|i: int| 0 <= i < rows.len() && (#[trigger] rows[i]).intensity is Some {
            let i = choose|i: int| 0 <= i < rows.len() && (#[trigger] rows[i]).intensity is Some;
            if i < rows.len() - 1 {
                assert(prev[i].intensity is Some);
            }
        }
    }
}

/// When every row carries an intensity, the intensity column has one entry
/// for each row, in the same order: the columns are aligned.
pub proof fn lemma_intensity_aligned_when_all_carry<P, I>(rows: Seq<Row<P, I>>)
    requires
        forall|i: int| 0 <= i < rows.len() ==> (#[trigger] rows[i]).intensity is Some,
    ensures
        columns_of(rows).intensity.len() == rows.len(),
        forall|i: int|
            0 <= i < rows.len() ==> Some(columns_of(rows).intensity[i]) == (
            #[trigger] rows[i]).intensity,
    decreases rows.len(),
{
    if rows.len() > 0 {
        let prev = rows.drop_last();
        assert forall|i: int| 0 <= i < prev.len() implies (#[trigger] prev[i]).intensity is Some by {
            assert(rows[i].intensity is Some);
        }
        lemma_intensity_aligned_when_all_carry(prev);
        assert(rows[rows.len() - 1].intensity is Some);
        assert forall|i: int| 0 <= i < rows.len() implies Some(columns_of(rows).intensity[i]) == (
        #[trigger] rows[i]).intensity by {
            if i < rows.len() - 1 {
                assert(prev[i] == rows[i]);
            }
        }
    }
}

/// Batch alignment: a fresh stream of capacity `capacity` above zero that
/// takes in `rows` lets go `rows.len() / capacity` full batches; what it
/// keeps for the last flush is empty exactly if the capacity divides the
/// number of rows. Every batch, the last one too, has as many colours as
/// positions, and has an intensity exactly if one of its rows carried one.
pub proof fn lemma_batch_alignment<P, I>(capacity: nat, rows: Seq<Row<P, I>>)
    requires
        0 < capacity,
    ensures
        flushed(Columns::empty(), capacity, rows).len() == rows.len() / capacity,
        pending(Columns::empty(), capacity, rows).position.len() == rows.len() % capacity,
        forall|j: int|
            0 <= j <= rows.len() / capacity ==> {
                let batch = if j < rows.len() / capacity {
                    flushed(Columns::empty(), capacity, rows)[j]
                } else {
                    pending(Columns::empty(), capacity, rows)
                };
                let part = #[trigger] chunk(rows, capacity, j);
                &&& batch == columns_of(part)
                &&& batch.position.len() == part.len()
                &&& batch.color.len() == batch.position.len()
                &&& j < rows.len() / capacity ==> batch.position.len() == capacity
                &&& batch.intensity.len() > 0 <==> exists|i: int|
                    0 <= i < part.len() && (#[trigger] part[i]).intensity is Some
            },
{
    lemma_batches_are_chunks(capacity, rows);
    lemma_full_batches(Columns::<P, I>::empty(), capacity, rows);
    assert forall|j: int| 0 <= j <= rows.len() / capacity implies {
        let batch = if j < rows.len() / capacity {
            flushed(Columns::empty(), capacity, rows)[j]
        } else {
            pending(Columns::empty(), capacity, rows)
        };
        let part = #[trigger] chunk(rows, capacity, j);
        &&& batch == columns_of(part)
        &&& batch.position.len() == part.len()
        &&& batch.color.len() == batch.position.len()
        &&& j < rows.len() / capacity ==> batch.position.len() == capacity
        &&& batch.intensity.len() > 0 <==> exists|i: int|
            0 <= i < part.len() && (#[trigger] part[i]).intensity is Some
    } by {
        let part = chunk(rows, capacity, j);
        lemma_columns_follow_rows(part);
        lemma_intensity_present_iff_carried(part);
    }
}

/// A stream whose sink refused a batch holds nothing afterwards: the refused
/// batch has left it, and no row came after.
pub proof fn lemma_refusal_leaves_nothing<P, I, E, F: Fn(PointsBatch<P, I>) -> Result<(), E>>(
    sink: &F,
    start: Columns<P, I>,
    capacity: nat,
    rows: Seq<Row<P, I>>,
    end: Columns<P, I>,
    outcome: Result<(), E>,
)
    requires
        streamed(sink, start, capacity, rows, end, outcome),
        outcome is Err,
    ensures
        end == Columns::<P, I>::empty(),
{
}

/// Whether `rows` are the rows of `columns`: one row for each position, with
/// that position and the colour beside it.
pub open spec fn rows_of<P, I>(columns: Columns<P, I>, rows: Seq<Row<P, I>>) -> bool {
    &&& rows.len() == columns.position.len()
    &&& columns.color.len() == columns.position.len()
    &&& forall|i: int|
        0 <= i < rows.len() ==> {
            &&& columns.position[i] == (#[trigger] rows[i]).position
            &&& columns.color[i] == rows[i].color
        }
}

/// In columns that hold whole rows, the colour at a place is the colour of
/// the point whose position stands at that place, and no intensity is there
/// without a row.
pub proof fn lemma_aligned_columns_match<P, I>(columns: Columns<P, I>)
    requires
        aligned(columns),
    ensures
        columns.color.len() == columns.position.len(),
        columns.intensity.len() <= columns.position.len(),
        exists|rows: Seq<Row<P, I>>| #[trigger] rows_of(columns, rows),
{
    let rows = choose|rows: Seq<Row<P, I>>|
        columns == #[trigger] Columns::<P, I>::empty().with_rows(rows);
    lemma_columns_follow_rows(rows);
    lemma_with_rows_lengths(Columns::<P, I>::empty(), rows);
    assert(rows_of(columns, rows));
}

/// A stream that holds whole rows lets go only batches of whole rows, and
/// holds whole rows afterwards, whatever it takes in. Since a fresh stream
/// holds none, this is so for every batch of a stream, however it was driven.
pub proof fn lemma_batches_stay_aligned<P, I>(
    start: Columns<P, I>,
    capacity: nat,
    rows: Seq<Row<P, I>>,
)
    requires
        aligned(start),
    ensures
        aligned(pending(start, capacity, rows)),
        forall|j: int|
            0 <= j < flushed(start, capacity, rows).len() ==> aligned(
                #[trigger] flushed(start, capacity, rows)[j],
            ),
    decreases rows.len(),
{
    if rows.len() > 0 {
        let fewer = rows.drop_last();
        lemma_batches_stay_aligned(start, capacity, fewer);
        lemma_row_keeps_aligned(pending(start, capacity, fewer), rows.last());
        crate::batch::lemma_empty_is_aligned::<P, I>();
        let filled = pending(start, capacity, fewer).with_row(rows.last());
        assert forall|j: int| 0 <= j < flushed(start, capacity, rows).len() implies aligned(
            #[trigger] flushed(start, capacity, rows)[j],
        ) by {
            if j < flushed(start, capacity, fewer).len() {
                assert(flushed(start, capacity, rows)[j] == flushed(start, capacity, fewer)[j]);
            } else {
                assert(flushed(start, capacity, rows)[j] == filled);
            }
        }
    }
}

} // verus!
