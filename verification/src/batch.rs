//! Points, column batches, and the stream that gathers points into batches.

use vstd::prelude::*;

verus! {

/// A colour with an opacity, one byte per channel.
#[derive(Clone, Copy, Debug, PartialEq, Eq, Structural)]
pub struct Color {
    pub red: u8,
    pub green: u8,
    pub blue: u8,
    pub alpha: u8,
}

/// One entry of a batch's colour column: the three colour channels of a point.
#[derive(Clone, Copy, Debug, PartialEq, Eq, Structural)]
pub struct Rgb {
    pub red: u8,
    pub green: u8,
    pub blue: u8,
}

/// A point of a cloud. `P` is the type of a position, `I` that of an intensity.
#[derive(Debug)]
pub struct Point<P, I> {
    pub position: P,
    pub color: Color,
    pub intensity: Option<I>,
}

/// A group of points stored by column: the positions, and one column for
/// each attribute. The intensity column is absent when none was recorded.
#[derive(Debug)]
pub struct PointsBatch<P, I> {
    pub position: Vec<P>,
    pub color: Vec<Rgb>,
    pub intensity: Option<Vec<I>>,
}

/// The three columns that a stream fills, as sequences.
#[verifier::ext_equal]
pub struct Columns<P, I> {
    pub position: Seq<P>,
    pub color: Seq<Rgb>,
    pub intensity: Seq<I>,
}

/// A point as it enters the columns: its position already in the target frame.
pub struct Row<P, I> {
    pub position: P,
    pub color: Rgb,
    pub intensity: Option<I>,
}

/// The colour channels of `color`, without its opacity.
pub open spec fn rgb_of(color: Color) -> Rgb {
    Rgb { red: color.red, green: color.green, blue: color.blue }
}

impl<P, I> Columns<P, I> {
    /// Columns without any entry.
    pub open spec fn empty() -> Self {
        Columns { position: Seq::empty(), color: Seq::empty(), intensity: Seq::empty() }
    }

    /// The columns after `row` was appended: its position and colour always,
    /// its intensity if it has one.
    pub open spec fn with_row(self, row: Row<P, I>) -> Self {
        Columns {
            position: self.position.push(row.position),
            color: self.color.push(row.color),
            intensity: match row.intensity {
                Some(value) => self.intensity.push(value),
                None => self.intensity,
            },
        }
    }

    /// The columns after all of `rows` were appended in order.
    pub open spec fn with_rows(self, rows: Seq<Row<P, I>>) -> Self
        decreases rows.len(),
    {
        if rows.len() == 0 {
            self
        } else {
            self.with_rows(rows.drop_last()).with_row(rows.last())
        }
    }
}

/// Whether `columns` hold whole rows: there are rows of which they hold the
/// positions and the colours, entry by entry, and the intensities carried.
pub open spec fn aligned<P, I>(columns: Columns<P, I>) -> bool {
    exists|rows: Seq<Row<P, I>>| columns == #[trigger] Columns::<P, I>::empty().with_rows(rows)
}

/// Columns without any entry hold whole rows: none.
pub proof fn lemma_empty_is_aligned<P, I>()
    ensures
        aligned(Columns::<P, I>::empty()),
{
    assert(Columns::<P, I>::empty() == Columns::<P, I>::empty().with_rows(Seq::empty()));
}

/// Columns that hold whole rows still do after a row was appended.
pub proof fn lemma_row_keeps_aligned<P, I>(columns: Columns<P, I>, row: Row<P, I>)
    requires
        aligned(columns),
    ensures
        aligned(columns.with_row(row)),
{
    let rows = choose|rows: Seq<Row<P, I>>|
        columns == #[trigger] Columns::<P, I>::empty().with_rows(rows);
    let more = rows.push(row);
    assert(more.drop_last() =~= rows);
    assert(columns.with_row(row) == Columns::<P, I>::empty().with_rows(more));
}

impl<P, I> PointsBatch<P, I> {
    /// Whether this batch holds exactly `columns`: the same positions and
    /// colours, and an intensity column if and only if `columns` has an
    /// intensity, then with the same entries.
    pub open spec fn holds(&self, columns: Columns<P, I>) -> bool {
        &&& self.position@ == columns.position
        &&& self.color@ == columns.color
        &&& match self.intensity {
            Some(values) => columns.intensity.len() > 0 && values@ == columns.intensity,
            None => columns.intensity.len() == 0,
        }
    }
}

/// Whether `sink`, given a batch that holds `columns`, may have returned `outcome`.
pub open spec fn delivered<P, I, E, F: Fn(PointsBatch<P, I>) -> Result<(), E>>(
    sink: &F,
    columns: Columns<P, I>,
    outcome: Result<(), E>,
) -> bool {
    exists|batch: PointsBatch<P, I>| #[trigger]
        batch.holds(columns) && sink.ensures((batch,), outcome)
}

/// Whether `row` is `point` as a stream with the conversion `pose` stores it:
/// the position converted if there is a conversion, the colour without its
/// opacity, the intensity as it is.
pub open spec fn stored_as<P, I, T: Fn(P) -> P>(
    pose: &Option<T>,
    point: Point<P, I>,
    row: Row<P, I>,
) -> bool {
    &&& match *pose {
        Some(convert) => convert.ensures((point.position,), row.position),
        None => row.position == point.position,
    }
    &&& row.color == rgb_of(point.color)
    &&& row.intensity == point.intensity
}

/// The columns left in a stream of the given capacity that held `start` and
/// then took in `rows`: whenever the position column reaches the capacity, the
/// columns leave as a batch and the stream starts over with empty columns.
pub open spec fn pending<P, I>(start: Columns<P, I>, capacity: nat, rows: Seq<Row<P, I>>) -> Columns<
    P,
    I,
>
    decreases rows.len(),
{
    if rows.len() == 0 {
        start
    } else {
        let filled = pending(start, capacity, rows.drop_last()).with_row(rows.last());
        if filled.position.len() == capacity {
            Columns::empty()
        } else {
            filled
        }
    }
}

/// The batches that left such a stream on their own, in the order they left.
pub open spec fn flushed<P, I>(start: Columns<P, I>, capacity: nat, rows: Seq<Row<P, I>>) -> Seq<
    Columns<P, I>,
>
    decreases rows.len(),
{
    if rows.len() == 0 {
        Seq::empty()
    } else {
        let filled = pending(start, capacity, rows.drop_last()).with_row(rows.last());
        if filled.position.len() == capacity {
            flushed(start, capacity, rows.drop_last()).push(filled)
        } else {
            flushed(start, capacity, rows.drop_last())
        }
    }
}

/// Whether `rows` are the first points of `points`, each as the stream stores it.
pub open spec fn stored_rows<P, I, T: Fn(P) -> P>(
    pose: &Option<T>,
    points: Seq<Point<P, I>>,
    rows: Seq<Row<P, I>>,
) -> bool {
    &&& rows.len() <= points.len()
    &&& forall|i: int| 0 <= i < rows.len() ==> stored_as(pose, points[i], #[trigger] rows[i])
}

/// Whether a stream that held `start` may have come to hold `end` and to
/// return `outcome` by taking in `rows`, one after the other, and handing each
/// batch that filled up to `sink`.
///
/// On success all of the batches were accepted. A failure is that of the
/// batch that filled up last, all earlier ones were accepted, and no row came
/// after it.
pub open spec fn streamed<P, I, E, F: Fn(PointsBatch<P, I>) -> Result<(), E>>(
    sink: &F,
    start: Columns<P, I>,
    capacity: nat,
    rows: Seq<Row<P, I>>,
    end: Columns<P, I>,
    outcome: Result<(), E>,
) -> bool {
    let left = flushed(start, capacity, rows);
    &&& end == pending(start, capacity, rows)
    &&& match outcome {
        Ok(_) => forall|j: int| 0 <= j < left.len() ==> delivered(sink, #[trigger] left[j], Ok(())),
        Err(_) => {
            &&& rows.len() > 0
            &&& left.len() == flushed(start, capacity, rows.drop_last()).len() + 1
            &&& forall|j: int|
                0 <= j < left.len() - 1 ==> delivered(sink, #[trigger] left[j], Ok(()))
            &&& delivered(sink, left.last(), outcome)
        },
    }
}

/// Gathers points into columns and hands them to a sink, one batch at a time.
///
/// `T` converts a position into the frame of the output; `F` is the sink.
pub struct PointStream<'a, P, I, T, F> {
    position: Vec<P>,
    color: Vec<Rgb>,
    intensity: Vec<I>,
    capacity: usize,
    local_from_global: &'a Option<T>,
    func: &'a F,
}

impl<'a, P, I, E, T, F> PointStream<'a, P, I, T, F> where
    T: Fn(P) -> P,
    F: Fn(PointsBatch<P, I>) -> Result<(), E>,
 {
    /// The points gathered since the last batch left.
    pub closed spec fn buffered(&self) -> Columns<P, I> {
        Columns { position: self.position@, color: self.color@, intensity: self.intensity@ }
    }

    /// The number of points at which a batch leaves on its own.
    pub closed spec fn capacity(&self) -> usize {
        self.capacity
    }

    /// The conversion applied to each position, if any.
    pub closed spec fn pose(&self) -> &'a Option<T> {
        self.local_from_global
    }

    /// The sink that receives the batches.
    pub closed spec fn sink(&self) -> &'a F {
        self.func
    }

    /// Whether the conversion and the sink may be called on any argument.
    pub open spec fn callable(pose: &Option<T>, sink: &F) -> bool {
        &&& forall|batch: PointsBatch<P, I>| #[trigger] sink.requires((batch,))
        &&& match *pose {
            Some(convert) => forall|position: P| #[trigger] convert.requires((position,)),
            None => true,
        }
    }

    /// The stream's invariant: the columns hold whole rows, so the colour
    /// column is as long as the position column and the intensity column no
    /// longer, and a stream with a capacity above zero holds fewer points than
    /// that.
    pub open spec fn wf(&self) -> bool {
        &&& Self::callable(self.pose(), self.sink())
        &&& aligned(self.buffered())
        &&& self.buffered().color.len() == self.buffered().position.len()
        &&& self.buffered().intensity.len() <= self.buffered().position.len()
        &&& self.capacity() == 0 || self.buffered().position.len() < self.capacity()
    }

    /// Whether `other` has the capacity, conversion and sink of this stream.
    pub open spec fn same_setup(&self, other: &Self) -> bool {
        &&& self.capacity() == other.capacity()
        &&& self.pose() == other.pose()
        &&& self.sink() == other.sink()
    }

    /// An empty stream that lets a batch go once it holds `num_points_per_batch` points.
    pub fn new(
        num_points_per_batch: usize,
        local_from_global: &'a Option<T>,
        func: &'a F,
    ) -> (stream: Self)
        requires
            Self::callable(local_from_global, func),
        ensures
            stream.wf(),
            stream.buffered() == Columns::<P, I>::empty(),
            stream.capacity() == num_points_per_batch,
            stream.pose() == local_from_global,
            stream.sink() == func,
    {
        proof {
            lemma_empty_is_aligned::<P, I>();
        }
        PointStream {
            position: Vec::with_capacity(num_points_per_batch),
            color: Vec::with_capacity(num_points_per_batch),
            intensity: Vec::with_capacity(num_points_per_batch),
            capacity: num_points_per_batch,
            local_from_global,
            func,
        }
    }

    /// Appends one point to the columns, its position converted first if the
    /// stream has a conversion.
    fn push_point(&mut self, point: Point<P, I>)
        requires
            Self::callable(old(self).pose(), old(self).sink()),
            old(self).buffered().color.len() == old(self).buffered().position.len(),
            old(self).buffered().intensity.len() <= old(self).buffered().position.len(),
            aligned(old(self).buffered()),
        ensures
            old(self).same_setup(final(self)),
            aligned(final(self).buffered()),
            exists|row: Row<P, I>| #[trigger]
                stored_as(old(self).pose(), point, row) && final(self).buffered() == old(
                    self,
                ).buffered().with_row(row),
    {
        let position = match self.local_from_global {
            Some(local_from_global) => local_from_global(point.position),
            None => point.position,
        };
        let ghost row = Row {
            position,
            color: rgb_of(point.color),
            intensity: point.intensity,
        };
        self.position.push(position);
        self.color.push(Rgb { red: point.color.red, green: point.color.green, blue: point.color.blue });
        if let Some(point_intensity) = point.intensity {
            self.intensity.push(point_intensity);
        }
        assert(stored_as(old(self).pose(), point, row));
        assert(self.buffered() == old(self).buffered().with_row(row));
        proof {
            lemma_row_keeps_aligned(old(self).buffered(), row);
        }
    }

    /// Hands the gathered points to the sink as one batch and empties the
    /// columns. Does nothing, and succeeds, when no point was gathered.
    pub fn callback(&mut self) -> (outcome: Result<(), E>)
        requires
            old(self).wf(),
        ensures
            final(self).wf(),
            old(self).same_setup(final(self)),
            final(self).buffered() == Columns::<P, I>::empty(),
            old(self).buffered().position.len() == 0 ==> outcome is Ok,
            old(self).buffered().position.len() > 0 ==> delivered(
                old(self).sink(),
                old(self).buffered(),
                outcome,
            ),
    {
        self.flush()
    }

    /// Takes in `point_iterator` point by point, and hands a batch to the sink
    /// each time the stream has gathered as many points as its capacity says.
    ///
    /// Stops at the first batch that the sink refuses and returns that
    /// failure; the points after it are dropped. On success every point was
    /// taken in, and those that did not fill a batch stay in the stream.
    pub fn push_points_and_callback(&mut self, point_iterator: Vec<Point<P, I>>) -> (outcome: Result<
        (),
        E,
    >)
        requires
            old(self).wf(),
        ensures
            final(self).wf(),
            old(self).same_setup(final(self)),
            exists|rows: Seq<Row<P, I>>|
                {
                    &&& stored_rows(old(self).pose(), point_iterator@, rows)
                    &&& outcome is Ok ==> rows.len() == point_iterator@.len()
                    &&& #[trigger] streamed(
                        old(self).sink(),
                        old(self).buffered(),
                        old(self).capacity() as nat,
                        rows,
                        final(self).buffered(),
                        outcome,
                    )
                },
    {
        let ghost start = self.buffered();
        let ghost capacity = self.capacity as nat;
        let ghost mut rows: Seq<Row<P, I>> = Seq::empty();
        for point in points: point_iterator
            invariant
                self.wf(),
                old(self).same_setup(self),
                start == old(self).buffered(),
                capacity == old(self).capacity() as nat,
                points.seq() == point_iterator@,
                rows.len() == points.index(),
                stored_rows(old(self).pose(), point_iterator@, rows),
                streamed(old(self).sink(), start, capacity, rows, self.buffered(), Ok(())),
        {
            let ghost before = self.buffered();
            let ghost earlier = rows;
            self.push_point(point);
            proof {
                let row = choose|row: Row<P, I>| #[trigger]
                    stored_as(old(self).pose(), point, row) && self.buffered() == before.with_row(
                        row,
                    );
                rows = earlier.push(row);
                assert(rows.drop_last() =~= earlier);
            }
            let ghost filled = self.buffered();
            let ghost left = flushed(start, capacity, earlier);
            if self.position.len() == self.capacity {
                let outcome = self.flush();
                assert(flushed(start, capacity, rows) == left.push(filled));
                match outcome {
                    Ok(done) => {
                        assert(done == ());
                        assert forall|j: int|
                            0 <= j < left.push(filled).len() implies delivered(
                            old(self).sink(),
                            #[trigger] left.push(filled)[j],
                            Ok(()),
                        ) by {
                            if j < left.len() {
                                assert(left.push(filled)[j] == left[j]);
                            }
                        }
                    },
                    Err(error) => {
                        assert forall|j: int| 0 <= j < left.len() implies delivered(
                            old(self).sink(),
                            #[trigger] left.push(filled)[j],
                            Ok(()),
                        ) by {
                            assert(left.push(filled)[j] == left[j]);
                        }
                        assert(streamed(
                            old(self).sink(),
                            start,
                            capacity,
                            rows,
                            self.buffered(),
                            Err::<(), E>(error),
                        ));
                        return Err(error);
                    },
                }
            } else {
                assert(flushed(start, capacity, rows) == left);
            }
        }
        Ok(())
    }

    /// Does what `callback` does, also for a stream that is full.
    fn flush(&mut self) -> (outcome: Result<(), E>)
        requires
            Self::callable(old(self).pose(), old(self).sink()),
            old(self).buffered().color.len() == old(self).buffered().position.len(),
            old(self).buffered().intensity.len() <= old(self).buffered().position.len(),
        ensures
            final(self).wf(),
            old(self).same_setup(final(self)),
            final(self).buffered() == Columns::<P, I>::empty(),
            old(self).buffered().position.len() == 0 ==> outcome is Ok,
            old(self).buffered().position.len() > 0 ==> delivered(
                old(self).sink(),
                old(self).buffered(),
                outcome,
            ),
    {
        proof {
            lemma_empty_is_aligned::<P, I>();
        }
        if self.position.is_empty() {
            assert(self.buffered() =~= Columns::<P, I>::empty());
            return Ok(());
        }
        let color = self.color.split_off(0);
        let intensity = if !self.intensity.is_empty() {
            Some(self.intensity.split_off(0))
        } else {
            None
        };
        let points_batch = PointsBatch { position: self.position.split_off(0), color, intensity };
        assert(points_batch.position@ =~= old(self).position@);
        assert(points_batch.color@ =~= old(self).color@);
        assert(points_batch.intensity matches Some(values) ==> values@ =~= old(self).intensity@);
        assert(points_batch.holds(old(self).buffered()));
        assert(self.buffered() =~= Columns::<P, I>::empty());
        (self.func)(points_batch)
    }
}

} // verus!
