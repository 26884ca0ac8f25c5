//! Queries, the filter over a node's points, and the scheduler that works off
//! the nodes of several clouds.

use crate::batch::{
    delivered, stored_rows, streamed, Columns, Point, PointStream, PointsBatch, Row,
};
use crate::batch_laws::lemma_refusal_leaves_nothing;
use crate::deque::{
    held, inject, injected, new_injector, new_worker, pop_local, send, steal_once, Stolen,
};
use crossbeam::channel::Sender;
use crossbeam::deque::{Injector, Worker};
use vstd::prelude::*;

verus! {

/// The region that a query asks for. `A` is an axis-aligned box, `M` the
/// projection matrix of a frustum, `O` an oriented box, `B` an oriented beam.
#[derive(Debug)]
pub enum PointLocation<A, M, O, B> {
    AllPoints(),
    Aabb(A),
    Frustum(M),
    Obb(O),
    OrientedBeam(B),
}

/// A region together with the frame it is given in.
#[derive(Debug)]
pub struct PointQuery<A, M, O, B, T> {
    pub location: PointLocation<A, M, O, B>,
    /// If set, the region and the returned points are in local coordinates,
    /// and this pose leads from them to global coordinates.
    pub global_from_local: Option<T>,
}

/// What has to be built to cull points for a query: the region, and the pose
/// by which it has to be moved first, if any.
#[derive(Debug)]
pub struct CullingPlan<'a, A, M, O, B, T> {
    pub region: &'a PointLocation<A, M, O, B>,
    pub moved_by: Option<&'a T>,
}

impl<A, M, O, B, T> PointQuery<A, M, O, B, T> {
    /// The pose by which the region of this query is moved before it culls:
    /// none for the unbounded region, whatever the query's frame, and else the
    /// query's pose if it has one.
    pub open spec fn culling_pose(&self) -> Option<&T> {
        match self.location {
            PointLocation::AllPoints() => None,
            _ => match self.global_from_local {
                Some(pose) => Some(&pose),
                None => None,
            },
        }
    }

    /// Tells what culls the points of this query.
    pub fn get_point_culling(&self) -> (culling: CullingPlan<'_, A, M, O, B, T>)
        ensures
            *culling.region == self.location,
            culling.moved_by == self.culling_pose(),
    {
        if let PointLocation::AllPoints() = &self.location {
            return CullingPlan { region: &self.location, moved_by: None };
        }
        match &self.global_from_local {
            Some(global_from_local) => CullingPlan {
                region: &self.location,
                moved_by: Some(global_from_local),
            },
            None => CullingPlan { region: &self.location, moved_by: None },
        }
    }
}

/// The entries of `stack` from the last to the first.
pub open spec fn backwards<X>(stack: Seq<X>) -> Seq<X> {
    Seq::new(stack.len(), |i: int| stack[stack.len() - 1 - i])
}

/// Walks over the points of a node and yields those that a region contains.
///
/// `C` decides whether the region contains a position.
pub struct FilteredIterator<'a, P, I, C> {
    culling: &'a C,
    /// The points still to be looked at, last one first.
    point_iterator: Vec<Point<P, I>>,
}

impl<'a, P, I, C: Fn(&P) -> bool> FilteredIterator<'a, P, I, C> {
    /// The points that were not looked at yet, in the order they come.
    pub closed spec fn remaining(&self) -> Seq<Point<P, I>> {
        backwards(self.point_iterator@)
    }

    /// The test that decides which points are yielded.
    pub closed spec fn culling(&self) -> &'a C {
        self.culling
    }

    /// Whether the test may be called on every position.
    pub open spec fn wf(&self) -> bool {
        forall|position: P| #[trigger] self.culling().requires((&position,))
    }

    /// Whether the test may have answered `inside` for `point`.
    pub open spec fn judged(&self, point: Point<P, I>, inside: bool) -> bool {
        self.culling().ensures((&point.position,), inside)
    }

    /// A filter over `points` that yields those for which `culling` holds.
    pub fn new(culling: &'a C, points: Vec<Point<P, I>>) -> (iterator: Self)
        requires
            forall|position: P| #[trigger] culling.requires((&position,)),
        ensures
            iterator.wf(),
            iterator.culling() == culling,
            iterator.remaining() == points@,
    {
        let mut points = points;
        let ghost all = points@;
        let mut reversed: Vec<Point<P, I>> = Vec::with_capacity(points.len());
        while points.len() > 0
            invariant
                points@.len() <= all.len(),
                points@ == all.take(points@.len() as int),
                backwards(reversed@) == all.skip(points@.len() as int),
            decreases points.len(),
        {
            let ghost before = reversed@;
            let ghost left = points@.len() as int;
            let point = points.pop().unwrap();
            reversed.push(point);
            assert(points@ =~= all.take(left - 1));
            assert(backwards(reversed@) =~= all.skip(left - 1)) by {
                assert(backwards(before).len() == all.skip(left).len());
                assert forall|i: int| 0 <= i < reversed@.len() implies backwards(reversed@)[i]
                    == all.skip(left - 1)[i] by {
                    if i > 0 {
                        assert(backwards(reversed@)[i] == backwards(before)[i - 1]);
                        assert(backwards(before)[i - 1] == all.skip(left)[i - 1]);
                    }
                }
            }
        }
        assert(all.skip(0) =~= all);
        FilteredIterator { culling, point_iterator: reversed }
    }

    /// Yields the next point that the region contains, and passes over those
    /// before it that it does not. Yields nothing once no such point is left.
    pub fn next(&mut self) -> (found: Option<Point<P, I>>)
        requires
            old(self).wf(),
        ensures
            final(self).wf(),
            final(self).culling() == old(self).culling(),
            match found {
                Some(point) => exists|at: int|
                    {
                        &&& 0 <= at < old(self).remaining().len()
                        &&& #[trigger] old(self).remaining()[at] == point
                        &&& old(self).judged(point, true)
                        &&& forall|j: int|
                            0 <= j < at ==> old(self).judged(
                                #[trigger] old(self).remaining()[j],
                                false,
                            )
                        &&& final(self).remaining() == old(self).remaining().skip(at + 1)
                    },
                None => {
                    &&& forall|j: int|
                        0 <= j < old(self).remaining().len() ==> old(self).judged(
                            #[trigger] old(self).remaining()[j],
                            false,
                        )
                    &&& final(self).remaining().len() == 0
                },
            },
    {
        let ghost all = self.remaining();
        let ghost mut passed: int = 0;
        while self.point_iterator.len() > 0
            invariant
                self.wf(),
                self.culling() == old(self).culling(),
                all == old(self).remaining(),
                0 <= passed <= all.len(),
                self.remaining() == all.skip(passed),
                forall|j: int| 0 <= j < passed ==> old(self).judged(#[trigger] all[j], false),
            decreases self.point_iterator.len(),
        {
            let ghost rest = self.remaining();
            assert(rest.len() == self.point_iterator@.len());
            assert(passed < all.len());
            let point = self.point_iterator.pop().unwrap();
            assert(rest[0] == point);
            assert(all[passed] == all.skip(passed)[0]);
            assert(self.remaining() =~= rest.skip(1));
            assert(rest.skip(1) =~= all.skip(passed + 1));
            let inside = (self.culling)(&point.position);
            if inside {
                return Some(point);
            }
            proof {
                passed = passed + 1;
            }
        }
        None
    }
}

/// The points of `points` whose verdict is `true`, in their order.
pub open spec fn picked<P, I>(points: Seq<Point<P, I>>, verdicts: Seq<bool>) -> Seq<Point<P, I>>
    decreases points.len(),
{
    if points.len() == 0 {
        Seq::empty()
    } else {
        let before = picked(points.drop_last(), verdicts.drop_last());
        if verdicts.last() {
            before.push(points.last())
        } else {
            before
        }
    }
}

/// Whether `verdicts` may be what `culling` answered for the positions of
/// `points`, one after the other.
pub open spec fn judged_all<P, I, C: Fn(&P) -> bool>(
    culling: &C,
    points: Seq<Point<P, I>>,
    verdicts: Seq<bool>,
) -> bool {
    &&& verdicts.len() == points.len()
    &&& forall|i: int|
        0 <= i < points.len() ==> culling.ensures((&(#[trigger] points[i]).position,), verdicts[i])
}

/// Whether `kept` may be what is left of `points` after culling: the points
/// that `culling` accepted, in their order, where every point left out was
/// refused.
pub open spec fn sifted<P, I, C: Fn(&P) -> bool>(
    culling: &C,
    points: Seq<Point<P, I>>,
    kept: Seq<Point<P, I>>,
) -> bool {
    exists|verdicts: Seq<bool>| #[trigger]
        judged_all(culling, points, verdicts) && kept == picked(points, verdicts)
}

/// Taking one more point adds it to the picked points if its verdict says so.
proof fn lemma_picked_next<P, I>(points: Seq<Point<P, I>>, verdicts: Seq<bool>, n: int)
    requires
        0 <= n < points.len(),
        verdicts.len() == points.len(),
    ensures
        picked(points.take(n + 1), verdicts.take(n + 1)) == if verdicts[n] {
            picked(points.take(n), verdicts.take(n)).push(points[n])
        } else {
            picked(points.take(n), verdicts.take(n))
        },
{
    assert(points.take(n + 1).drop_last() =~= points.take(n));
    assert(verdicts.take(n + 1).drop_last() =~= verdicts.take(n));
}

/// Points that were refused add nothing to the picked points.
proof fn lemma_picked_skips<P, I>(points: Seq<Point<P, I>>, verdicts: Seq<bool>, from: int, to: int)
    requires
        0 <= from <= to <= points.len(),
        verdicts.len() == points.len(),
        forall|j: int| from <= j < to ==> !verdicts[j],
    ensures
        picked(points.take(to), verdicts.take(to)) == picked(
            points.take(from),
            verdicts.take(from),
        ),
    decreases to - from,
{
    if from < to {
        lemma_picked_skips(points, verdicts, from, to - 1);
        lemma_picked_next(points, verdicts, to - 1);
    }
}

/// Whether `point` stands in `points` at a place whose verdict is `true`.
pub open spec fn accepted_in<P, I>(
    points: Seq<Point<P, I>>,
    verdicts: Seq<bool>,
    point: Point<P, I>,
) -> bool {
    exists|i: int| 0 <= i < points.len() && verdicts[i] && #[trigger] points[i] == point
}

/// What is picked is what was accepted: every picked point stands in
/// `points` at a place whose verdict is `true`, and every point at such a
/// place is picked.
pub proof fn lemma_picked_are_the_accepted<P, I>(points: Seq<Point<P, I>>, verdicts: Seq<bool>)
    requires
        verdicts.len() == points.len(),
    ensures
        picked(points, verdicts).len() <= points.len(),
        forall|k: int|
            0 <= k < picked(points, verdicts).len() ==> accepted_in(
                points,
                verdicts,
                #[trigger] picked(points, verdicts)[k],
            ),
        forall|i: int|
            0 <= i < points.len() && verdicts[i] ==> picked(points, verdicts).contains(
                #[trigger] points[i],
            ),
    decreases points.len(),
{
    if points.len() > 0 {
        let fewer = points.drop_last();
        let earlier = verdicts.drop_last();
        let last = points.len() - 1;
        lemma_picked_are_the_accepted(fewer, earlier);
        let before = picked(fewer, earlier);
        let now = picked(points, verdicts);
        assert forall|k: int| 0 <= k < now.len() implies accepted_in(
            points,
            verdicts,
            #[trigger] now[k],
        ) by {
            if k < before.len() {
                assert(now[k] == before[k]);
                let i = choose|i: int|
                    0 <= i < fewer.len() && earlier[i] && #[trigger] fewer[i] == before[k];
                assert(points[i] == now[k] && verdicts[i]);
            } else {
                assert(points[last] == now[k] && verdicts[last]);
            }
        }
        assert forall|i: int| 0 <= i < points.len() && verdicts[i] implies now.contains(
            #[trigger] points[i],
        ) by {
            if i < last {
                assert(fewer[i] == points[i] && earlier[i]);
                let k = choose|k: int| 0 <= k < before.len() && before[k] == fewer[i];
                assert(now[k] == points[i]);
            } else {
                assert(now[now.len() - 1] == points[i]);
            }
        }
    }
}

/// No point outside the region passes the culling: every point that is
/// kept was read, and the test accepted its position.
pub proof fn lemma_kept_were_accepted<P, I, C: Fn(&P) -> bool>(
    culling: &C,
    points: Seq<Point<P, I>>,
    kept: Seq<Point<P, I>>,
)
    requires
        sifted(culling, points, kept),
    ensures
        forall|k: int|
            0 <= k < kept.len() ==> {
                &&& points.contains(#[trigger] kept[k])
                &&& culling.ensures((&kept[k].position,), true)
            },
{
    let verdicts = choose|verdicts: Seq<bool>| #[trigger]
        judged_all(culling, points, verdicts) && kept == picked(points, verdicts);
    lemma_picked_are_the_accepted(points, verdicts);
    assert forall|k: int| 0 <= k < kept.len() implies {
        &&& points.contains(#[trigger] kept[k])
        &&& culling.ensures((&kept[k].position,), true)
    } by {
        assert(accepted_in(points, verdicts, kept[k]));
        let i = choose|i: int| 0 <= i < points.len() && verdicts[i] && #[trigger] points[i] == kept[k];
        assert(culling.ensures((&points[i].position,), verdicts[i]));
    }
}

/// Culls `points`: keeps those that `culling` accepts, in their order.
pub fn cull<P, I, C: Fn(&P) -> bool>(culling: &C, points: Vec<Point<P, I>>) -> (kept: Vec<
    Point<P, I>,
>)
    requires
        forall|position: P| #[trigger] culling.requires((&position,)),
    ensures
        sifted(culling, points@, kept@),
{
    let ghost all = points@;
    let mut filter = FilteredIterator::new(culling, points);
    let mut kept: Vec<Point<P, I>> = Vec::new();
    // The verdicts on the points passed so far, padded with `false` up to
    // the length of `all`.
    let ghost mut verdicts: Seq<bool> = Seq::new(all.len(), |i: int| false);
    let ghost mut done: int = 0;
    loop
        invariant
            filter.wf(),
            filter.culling() == culling,
            0 <= done <= all.len(),
            verdicts.len() == all.len(),
            filter.remaining() == all.skip(done),
            forall|i: int|
                0 <= i < done ==> culling.ensures((&(#[trigger] all[i]).position,), verdicts[i]),
            kept@ == picked(all.take(done), verdicts.take(done)),
        ensures
            judged_all(culling, all, verdicts),
            kept@ == picked(all, verdicts),
        decreases all.len() - done,
    {
        let ghost left = filter.remaining();
        let ghost before = verdicts;
        let ghost had = kept@;
        match filter.next() {
            Some(point) => {
                proof {
                    let at = choose|at: int|
                        {
                            &&& 0 <= at < left.len()
                            &&& #[trigger] left[at] == point
                            &&& culling.ensures((&point.position,), true)
                            &&& forall|j: int|
                                0 <= j < at ==> culling.ensures(
                                    (&(#[trigger] left[j]).position,),
                                    false,
                                )
                            &&& filter.remaining() == left.skip(at + 1)
                        };
                    let found = done + at;
                    verdicts = Seq::new(
                        all.len(),
                        |i: int| if i == found { true } else if i < done { before[i] } else { false },
                    );
                    assert forall|i: int| 0 <= i < found + 1 implies culling.ensures(
                        (&(#[trigger] all[i]).position,),
                        verdicts[i],
                    ) by {
                        if done <= i < found {
                            assert(left[i - done] == all[i]);
                        } else if i == found {
                            assert(left[at] == all[i]);
                        }
                    }
                    assert(verdicts.take(done) =~= before.take(done));
                    lemma_picked_skips(all, verdicts, done, found);
                    lemma_picked_next(all, verdicts, found);
                    assert(left.skip(at + 1) =~= all.skip(found + 1));
                    done = found + 1;
                }
                kept.push(point);
            },
            None => {
                proof {
                    verdicts = Seq::new(
                        all.len(),
                        |i: int| if i < done { before[i] } else { false },
                    );
                    assert forall|i: int| 0 <= i < all.len() implies culling.ensures(
                        (&(#[trigger] all[i]).position,),
                        verdicts[i],
                    ) by {
                        if done <= i {
                            assert(left[i - done] == all[i]);
                        }
                    }
                    assert(verdicts.take(done) =~= before.take(done));
                    lemma_picked_skips(all, verdicts, done, all.len() as int);
                    assert(all.take(all.len() as int) =~= all);
                    assert(verdicts.take(all.len() as int) =~= verdicts);
                    done = all.len() as int;
                    assert(filter.remaining() =~= all.skip(done));
                }
                break ;
            },
        }
    }
    kept
}

/// Why a batch was not taken.
#[derive(Debug)]
pub enum StreamError<E> {
    /// The receiving side of the channel is gone; the number is that of the
    /// worker that found out. The consumer wants no more batches.
    Channel(usize),
    /// Any other failure.
    Other(E),
}

/// What a worker does after it has offered a batch.
#[derive(Debug)]
pub enum WorkerStep<E> {
    /// Go on with the next node.
    Continue,
    /// Leave the loop quietly: nobody listens any more.
    Stop,
    /// Give up and report the failure.
    Fail(E),
}

/// How a worker goes on after its stream returned `outcome`.
pub open spec fn next_step_of<E>(outcome: Result<(), StreamError<E>>) -> WorkerStep<E> {
    match outcome {
        Ok(_) => WorkerStep::Continue,
        Err(StreamError::Channel(_)) => WorkerStep::Stop,
        Err(StreamError::Other(failure)) => WorkerStep::Fail(failure),
    }
}

/// Decides how a worker goes on after its stream returned `outcome`: a closed
/// channel ends the work without being a failure, anything else is one.
pub fn next_step<E>(outcome: Result<(), StreamError<E>>) -> (step: WorkerStep<E>)
    ensures
        step == next_step_of(outcome),
{
    match outcome {
        Ok(_) => WorkerStep::Continue,
        Err(StreamError::Channel(_)) => WorkerStep::Stop,
        Err(StreamError::Other(failure)) => WorkerStep::Fail(failure),
    }
}

/// What the worker with the number `thread` makes of a send: a batch that
/// came back means that the channel is closed.
pub open spec fn outcome_of_send<P, I, E>(
    thread: usize,
    sent: Result<(), PointsBatch<P, I>>,
) -> Result<(), StreamError<E>> {
    match sent {
        Ok(_) => Ok(()),
        Err(_) => Err(StreamError::Channel(thread)),
    }
}

/// Turns what a send returned into the outcome that the worker's stream sees.
pub fn after_send<P, I, E>(thread: usize, sent: Result<(), PointsBatch<P, I>>) -> (outcome: Result<
    (),
    StreamError<E>,
>)
    ensures
        outcome == outcome_of_send::<P, I, E>(thread, sent),
{
    match sent {
        Ok(_) => Ok(()),
        Err(_) => Err(StreamError::Channel(thread)),
    }
}

/// Sends `batch` over the channel on behalf of the worker with the number
/// `thread`. Fails with [`StreamError::Channel`] when the batch came back.
pub fn send_batch<P, I, E>(
    sender: &Sender<PointsBatch<P, I>>,
    thread: usize,
    batch: PointsBatch<P, I>,
) -> (outcome: Result<(), StreamError<E>>)
    ensures
        outcome matches Err(failure) ==> failure == StreamError::<E>::Channel(thread),
{
    after_send(thread, send(sender, batch))
}

/// A point cloud that is stored as a tree of nodes.
pub trait PointCloud: Sync {
    /// Names a node of the cloud.
    type Id: Copy + Send;

    /// What the cloud is asked for.
    type Query;

    /// The position of a point.
    type Position;

    /// The intensity of a point.
    type Intensity;

    /// How the points of a node are stored.
    type Encoding;

    /// Why the points of a node could not be read.
    type Error;

    /// The nodes that may hold points of the query.
    fn nodes_in_location(&self, query: &Self::Query) -> Vec<Self::Id>;

    /// How the given node is stored.
    fn encoding_for_node(&self, id: Self::Id) -> Self::Encoding;

    /// The points of the given node that belong to the query.
    fn points_in_node(&self, query: &Self::Query, node_id: Self::Id) -> Result<
        Vec<Point<Self::Position, Self::Intensity>>,
        Self::Error,
    >;
}

/// The jobs that `lens.len()` clouds give rise to, where cloud `c` has
/// `lens[c]` nodes: one job for each node, cloud by cloud and node by node.
/// A job is the number of a cloud and the place of a node among its nodes.
pub open spec fn jobs_of(lens: Seq<nat>) -> Seq<(usize, usize)>
    decreases lens.len(),
{
    if lens.len() == 0 {
        Seq::empty()
    } else {
        jobs_of(lens.drop_last()) + Seq::new(
            lens.last(),
            |node: int| ((lens.len() - 1) as usize, node as usize),
        )
    }
}

/// The number of nodes of each cloud in `table`.
pub open spec fn lens_of<Id>(table: Seq<Seq<Id>>) -> Seq<nat> {
    Seq::new(table.len(), |c: int| table[c].len())
}

/// The lists of `nodes` as sequences.
pub open spec fn lists_of<Id>(nodes: Vec<Vec<Id>>) -> Seq<Seq<Id>> {
    Seq::new(nodes@.len(), |c: int| nodes@[c]@)
}

/// The work of one run: the nodes that each cloud named, and the queue from
/// which the workers take their jobs.
pub struct Jobs<Id> {
    nodes: Vec<Vec<Id>>,
    queue: Injector<(usize, usize)>,
    count: usize,
}

impl<Id> Jobs<Id> {
    /// The nodes of each cloud, in the order of the clouds.
    pub closed spec fn nodes(&self) -> Seq<Seq<Id>> {
        lists_of(self.nodes)
    }

    /// The jobs that were put into the queue, in their order.
    pub closed spec fn queued(&self) -> Seq<(usize, usize)> {
        injected(self.queue)
    }

    /// The number of jobs, as far as it can be counted.
    pub closed spec fn count(&self) -> usize {
        self.count
    }

    /// Whether the queue was filled with one job for each node, in order.
    pub open spec fn wf(&self) -> bool {
        &&& self.queued() == jobs_of(lens_of(self.nodes()))
        &&& self.count() == if self.queued().len() <= usize::MAX {
            self.queued().len()
        } else {
            usize::MAX as nat
        }
    }

    /// Queues one job for each node of `nodes`, cloud by cloud and node by node.
    pub fn new(nodes: Vec<Vec<Id>>) -> (jobs: Self)
        ensures
            jobs.wf(),
            jobs.nodes() == lists_of(nodes),
    {
        let ghost lens = lens_of(lists_of(nodes));
        let mut queue = new_injector();
        let mut count: usize = 0;
        let mut cloud: usize = 0;
        while cloud < nodes.len()
            invariant
                cloud <= nodes@.len(),
                lens == lens_of(lists_of(nodes)),
                injected(queue) == jobs_of(lens.take(cloud as int)),
                count == if injected(queue).len() <= usize::MAX {
                    injected(queue).len()
                } else {
                    usize::MAX as nat
                },
            decreases nodes@.len() - cloud,
        {
            let ghost earlier = injected(queue);
            let mut node: usize = 0;
            while node < nodes[cloud].len()
                invariant
                    cloud < nodes@.len(),
                    node <= nodes@[cloud as int]@.len(),
                    injected(queue) == earlier + Seq::new(
                        node as nat,
                        |n: int| (cloud, n as usize),
                    ),
                    count == if injected(queue).len() <= usize::MAX {
                        injected(queue).len()
                    } else {
                        usize::MAX as nat
                    },
                decreases nodes@[cloud as int]@.len() - node,
            {
                inject(&mut queue, (cloud, node));
                if count < usize::MAX {
                    count += 1;
                }
                node += 1;
                assert(injected(queue) =~= earlier + Seq::new(
                    node as nat,
                    |n: int| (cloud, n as usize),
                ));
            }
            proof {
                let grown = lens.take(cloud + 1);
                assert(grown.drop_last() =~= lens.take(cloud as int));
                assert(grown.last() == nodes@[cloud as int]@.len());
                assert(Seq::new(nodes@[cloud as int]@.len(), |n: int| (cloud, n as usize))
                    =~= Seq::new(grown.last(), |n: int| ((grown.len() - 1) as usize, n as usize)));
            }
            cloud += 1;
        }
        assert(lens.take(cloud as int) =~= lens);
        Jobs { nodes, queue, count }
    }

    /// The number of jobs, as far as it can be counted.
    pub fn len(&self) -> (count: usize)
        ensures
            count == self.count(),
    {
        self.count
    }
}

/// Whether the number of clouds and the number of nodes of each fit a `usize`.
pub open spec fn countable(lens: Seq<nat>) -> bool {
    &&& lens.len() <= usize::MAX
    &&& forall|c: int| 0 <= c < lens.len() ==> #[trigger] lens[c] <= usize::MAX
}

/// Every job of `jobs_of(lens)` names a cloud and one of its nodes.
pub proof fn lemma_jobs_are_in_range(lens: Seq<nat>, job: (usize, usize))
    requires
        countable(lens),
        jobs_of(lens).contains(job),
    ensures
        job.0 < lens.len(),
        job.1 < lens[job.0 as int],
    decreases lens.len(),
{
    if lens.len() > 0 {
        let earlier = jobs_of(lens.drop_last());
        let added = Seq::new(
            lens.last(),
            |node: int| ((lens.len() - 1) as usize, node as usize),
        );
        let at = choose|at: int| 0 <= at < jobs_of(lens).len() && jobs_of(lens)[at] == job;
        if at < earlier.len() {
            assert(earlier[at] == job);
            assert forall|c: int| 0 <= c < lens.drop_last().len() implies #[trigger] lens.drop_last()[c]
                <= usize::MAX by {
                assert(lens.drop_last()[c] == lens[c]);
            }
            lemma_jobs_are_in_range(lens.drop_last(), job);
        } else {
            assert(added[at - earlier.len()] == job);
        }
    }
}

/// Steals a job from the shared queue for a worker whose own queue is empty,
/// and moves further jobs into the worker's queue on the way. An attempt that
/// another worker disturbed is made again, up to `usize::MAX` times.
///
/// The job handed out was pushed into the shared queue, and so was every job
/// that the worker's queue holds afterwards and did not hold before.
fn steal_job(shared: &Injector<(usize, usize)>, worker: &mut Worker<(usize, usize)>) -> (job: Option<
    (usize, usize),
>)
    ensures
        job matches Some(task) ==> injected(*shared).contains(task),
        forall|task: (usize, usize)| #[trigger]
            held(*final(worker)).contains(task) ==> held(*old(worker)).contains(task) || injected(
                *shared,
            ).contains(task),
{
    let mut tries: usize = usize::MAX;
    while tries > 0
        invariant
            forall|task: (usize, usize)| #[trigger]
                held(*worker).contains(task) ==> held(*old(worker)).contains(task) || injected(
                    *shared,
                ).contains(task),
        decreases tries,
    {
        match steal_once(shared, worker) {
            Stolen::Empty => {
                return None;
            },
            Stolen::Success(job) => {
                return Some(job);
            },
            Stolen::Retry => {},
        }
        tries -= 1;
    }
    None
}

/// How a worker came to its end.
#[derive(Debug)]
pub enum WorkerExit<R, E> {
    /// No job was left, and the last batch was taken.
    Exhausted,
    /// The consumer wants no more batches.
    Cancelled,
    /// The points of a node could not be read.
    ReadFailed(R),
    /// The sink failed for a reason other than a closed channel.
    SinkFailed(E),
}

/// How a worker leaves after its stream returned `outcome`, if it leaves: a
/// closed channel ends the work without being a failure, anything else that
/// goes wrong is one.
pub open spec fn exit_after<R, E>(outcome: Result<(), StreamError<E>>) -> Option<WorkerExit<R, E>> {
    match next_step_of(outcome) {
        WorkerStep::Continue => None,
        WorkerStep::Stop => Some(WorkerExit::Cancelled),
        WorkerStep::Fail(failure) => Some(WorkerExit::SinkFailed(failure)),
    }
}

/// Whether a stream that held `before` may have come to hold `after`, and the
/// worker to `exit`, by taking what was read of one node: an unreadable node
/// leaves the stream as it is and ends the work with that failure; of the
/// points of a readable one, those that `culling` accepts are pushed through
/// the stream, and the worker leaves as the outcome of that says.
pub open spec fn processed<P, I, K, T, F, E, R>(
    culling: &K,
    pose: &Option<T>,
    sink: &F,
    capacity: nat,
    before: Columns<P, I>,
    read: Result<Vec<Point<P, I>>, R>,
    after: Columns<P, I>,
    exit: Option<WorkerExit<R, E>>,
) -> bool where
    K: Fn(&P) -> bool,
    T: Fn(P) -> P,
    F: Fn(PointsBatch<P, I>) -> Result<(), StreamError<E>>,
 {
    match read {
        Err(failure) => {
            &&& exit == Some(WorkerExit::<R, E>::ReadFailed(failure))
            &&& after == before
        },
        Ok(points) => exists|
            kept: Seq<Point<P, I>>,
            rows: Seq<Row<P, I>>,
            outcome: Result<(), StreamError<E>>,
        |
            #![trigger sifted(culling, points@, kept), streamed(sink, before, capacity, rows, after, outcome)]
            {
                &&& sifted(culling, points@, kept)
                &&& stored_rows(pose, kept, rows)
                &&& outcome is Ok ==> rows.len() == kept.len()
                &&& streamed(sink, before, capacity, rows, after, outcome)
                &&& exit == exit_after::<R, E>(outcome)
            },
    }
}

/// Takes what was read of one node: pushes the points that `culling` accepts
/// through `stream`, or gives up if the node could not be read. Tells how the
/// worker has to leave, or nothing if it goes on with the next node.
pub fn process_node<'a, P, I, K, T, F, E, R>(
    stream: &mut PointStream<'a, P, I, T, F>,
    culling: &K,
    read: Result<Vec<Point<P, I>>, R>,
) -> (exit: Option<WorkerExit<R, E>>) where
    K: Fn(&P) -> bool,
    T: Fn(P) -> P,
    F: Fn(PointsBatch<P, I>) -> Result<(), StreamError<E>>,

    requires
        old(stream).wf(),
        forall|position: P| #[trigger] culling.requires((&position,)),
    ensures
        final(stream).wf(),
        old(stream).same_setup(final(stream)),
        processed(
            culling,
            old(stream).pose(),
            old(stream).sink(),
            old(stream).capacity() as nat,
            old(stream).buffered(),
            read,
            final(stream).buffered(),
            exit,
        ),
{
    let points = match read {
        Ok(points) => points,
        Err(failure) => {
            return Some(WorkerExit::ReadFailed(failure));
        },
    };
    let kept = cull(culling, points);
    let outcome = stream.push_points_and_callback(kept);
    proof {
        let rows = choose|rows: Seq<Row<P, I>>|
            {
                &&& stored_rows(old(stream).pose(), kept@, rows)
                &&& outcome is Ok ==> rows.len() == kept@.len()
                &&& #[trigger] streamed(
                    old(stream).sink(),
                    old(stream).buffered(),
                    old(stream).capacity() as nat,
                    rows,
                    stream.buffered(),
                    outcome,
                )
            };
        assert(streamed(
            old(stream).sink(),
            old(stream).buffered(),
            old(stream).capacity() as nat,
            rows,
            stream.buffered(),
            outcome,
        ));
    }
    match next_step(outcome) {
        WorkerStep::Continue => None,
        WorkerStep::Stop => Some(WorkerExit::Cancelled),
        WorkerStep::Fail(failure) => Some(WorkerExit::SinkFailed(failure)),
    }
}

/// What a worker did with one job.
pub struct NodeRun<P, I, R, E> {
    /// The job: the number of a cloud and the place of a node among its nodes.
    pub job: (usize, usize),
    /// What reading the node gave.
    pub read: Result<Vec<Point<P, I>>, R>,
    /// What the worker's stream held before the node.
    pub before: Columns<P, I>,
    /// What the worker's stream held after the node.
    pub after: Columns<P, I>,
    /// How the worker has to leave after the node, if it does.
    pub exit: Option<WorkerExit<R, E>>,
}

/// Whether a worker whose last node told it to leave as `left` says, and
/// whose stream then held `kept`, may have come to `exit`.
///
/// A worker that was told to leave leaves that way. One that was not hands
/// out what its stream holds: with nothing in it, the work is exhausted; else
/// the answer of the sink to that last batch decides.
pub open spec fn finished<P, I, E, R, F: Fn(PointsBatch<P, I>) -> Result<(), StreamError<E>>>(
    sink: &F,
    left: Option<WorkerExit<R, E>>,
    kept: Columns<P, I>,
    exit: WorkerExit<R, E>,
) -> bool {
    match left {
        Some(early) => exit == early,
        None => if kept.position.len() == 0 {
            exit == WorkerExit::<R, E>::Exhausted
        } else {
            exists|outcome: Result<(), StreamError<E>>| #[trigger]
                delivered(sink, kept, outcome) && exit == match exit_after::<R, E>(outcome) {
                    Some(late) => late,
                    None => WorkerExit::Exhausted,
                }
        },
    }
}

/// Whether `runs` may be what a worker did, job by job: each job was queued,
/// the stream started empty and went from node to node as [`processed`] says,
/// and only the last node may have told the worker to leave.
pub open spec fn chained<P, I, K, T, F, E, R>(
    culling: &K,
    pose: &Option<T>,
    sink: &F,
    capacity: nat,
    queued: Seq<(usize, usize)>,
    runs: Seq<NodeRun<P, I, R, E>>,
) -> bool where
    K: Fn(&P) -> bool,
    T: Fn(P) -> P,
    F: Fn(PointsBatch<P, I>) -> Result<(), StreamError<E>>,
 {
    &&& forall|i: int|
        0 <= i < runs.len() ==> {
            &&& queued.contains((#[trigger] runs[i]).job)
            &&& processed(
                culling,
                pose,
                sink,
                capacity,
                runs[i].before,
                runs[i].read,
                runs[i].after,
                runs[i].exit,
            )
            &&& i < runs.len() - 1 ==> runs[i].exit is None
        }
    &&& runs.len() > 0 ==> runs[0].before == Columns::<P, I>::empty()
    &&& forall|i: int, j: int|
        0 <= i && j == i + 1 && j < runs.len() ==> (#[trigger] runs[j]).before == (
        #[trigger] runs[i]).after
}

/// Whether a worker with the given conversion, sink and batch size, taking
/// its jobs from `queued`, may have come to `exit` by doing `runs`.
///
/// It took no more jobs than `count`, did them one after the other as
/// [`chained`] says, and left as [`finished`] says after the last of them.
pub open spec fn worked<P, I, K, T, F, E, R>(
    culling: &K,
    pose: &Option<T>,
    sink: &F,
    capacity: nat,
    queued: Seq<(usize, usize)>,
    count: usize,
    runs: Seq<NodeRun<P, I, R, E>>,
    exit: WorkerExit<R, E>,
) -> bool where
    K: Fn(&P) -> bool,
    T: Fn(P) -> P,
    F: Fn(PointsBatch<P, I>) -> Result<(), StreamError<E>>,
 {
    &&& runs.len() <= count
    &&& chained(culling, pose, sink, capacity, queued, runs)
    &&& if runs.len() == 0 {
        finished(sink, None, Columns::empty(), exit)
    } else {
        finished(sink, runs.last().exit, runs.last().after, exit)
    }
}

/// Whether `sink` may have answered `outcome` to some batch.
pub open spec fn answered<P, I, E, F: Fn(PointsBatch<P, I>) -> Result<(), E>>(
    sink: &F,
    outcome: Result<(), E>,
) -> bool {
    exists|columns: Columns<P, I>| #[trigger] delivered(sink, columns, outcome)
}

/// Iterates over the points of several clouds in batches, with several workers.
pub struct ParallelIterator<'a, C: PointCloud> {
    pub point_clouds: &'a [C],
    pub point_location: &'a C::Query,
    pub batch_size: usize,
    pub num_threads: usize,
    pub buffer_size: usize,
}

impl<'a, C: PointCloud> ParallelIterator<'a, C> {
    /// An iterator over the points of `point_clouds` that `point_location`
    /// asks for, in batches of `batch_size` points, read by `num_threads`
    /// workers, of which at most `buffer_size` batches wait to be consumed.
    pub fn new(
        point_clouds: &'a [C],
        point_location: &'a C::Query,
        batch_size: usize,
        num_threads: usize,
        buffer_size: usize,
    ) -> (iterator: Self)
        ensures
            iterator.point_clouds == point_clouds,
            iterator.point_location == point_location,
            iterator.batch_size == batch_size,
            iterator.num_threads == num_threads,
            iterator.buffer_size == buffer_size,
    {
        ParallelIterator { point_clouds, point_location, batch_size, num_threads, buffer_size }
    }

    /// Whether `ids` may be the nodes that the cloud with the number `cloud`
    /// named when it was asked for the nodes of the query.
    pub open spec fn named(&self, cloud: int, ids: Seq<C::Id>) -> bool {
        exists|list: Vec<C::Id>|
            list@ == ids && #[trigger] call_ensures(
                C::nodes_in_location,
                (&self.point_clouds@[cloud], self.point_location),
                list,
            )
    }

    /// Asks each cloud for the nodes of the query and queues one job for each
    /// node, cloud by cloud and node by node.
    pub fn collect_jobs(&self) -> (jobs: Jobs<C::Id>)
        ensures
            jobs.wf(),
            jobs.nodes().len() == self.point_clouds@.len(),
            forall|c: int|
                0 <= c < self.point_clouds@.len() ==> self.named(c, #[trigger] jobs.nodes()[c]),
    {
        let mut nodes: Vec<Vec<C::Id>> = Vec::new();
        let mut cloud: usize = 0;
        while cloud < self.point_clouds.len()
            invariant
                cloud <= self.point_clouds@.len(),
                nodes@.len() == cloud,
                forall|c: int|
                    0 <= c < cloud ==> call_ensures(
                        C::nodes_in_location,
                        (&self.point_clouds@[c], self.point_location),
                        #[trigger] nodes@[c],
                    ),
            decreases self.point_clouds@.len() - cloud,
        {
            let ids = self.point_clouds[cloud].nodes_in_location(self.point_location);
            nodes.push(ids);
            cloud += 1;
        }
        let jobs = Jobs::new(nodes);
        assert forall|c: int| 0 <= c < self.point_clouds@.len() implies self.named(
            c,
            #[trigger] jobs.nodes()[c],
        ) by {
            assert(jobs.nodes()[c] == nodes@[c]@);
        }
        jobs
    }

    /// Whether what `run` read may be what the cloud of its job gave for the
    /// node of its job, asked with the query of this iterator.
    pub open spec fn read_by<E>(
        &self,
        jobs: &Jobs<C::Id>,
        run: NodeRun<C::Position, C::Intensity, C::Error, E>,
    ) -> bool {
        call_ensures(
            C::points_in_node,
            (
                &self.point_clouds@[run.job.0 as int],
                self.point_location,
                jobs.nodes()[run.job.0 as int][run.job.1 as int],
            ),
            run.read,
        )
    }

    /// Whether each of `runs` read the node of its job, see [`Self::read_by`].
    pub open spec fn read_for<E>(
        &self,
        jobs: &Jobs<C::Id>,
        runs: Seq<NodeRun<C::Position, C::Intensity, C::Error, E>>,
    ) -> bool {
        forall|i: int| 0 <= i < runs.len() ==> self.read_by(jobs, #[trigger] runs[i])
    }

    /// Works off jobs until none is left: takes a job from the worker's own
    /// queue or, when that is empty, from the shared one, reads the node's
    /// points, and pushes those that `culling` accepts through a stream of its
    /// own that hands full batches to `sink`. Hands out what is left in the
    /// stream at the end.
    ///
    /// A batch refused because the channel is closed ends the work quietly.
    /// A node that cannot be read, or a batch refused for another reason,
    /// ends it with that failure. No worker takes more jobs than were queued,
    /// which bounds the loop.
    pub fn run_worker<K, T, F, E>(
        &self,
        jobs: &Jobs<C::Id>,
        culling: &K,
        local_from_global: &Option<T>,
        sink: &F,
    ) -> (exit: WorkerExit<C::Error, E>) where
        K: Fn(&C::Position) -> bool,
        T: Fn(C::Position) -> C::Position,
        F: Fn(PointsBatch<C::Position, C::Intensity>) -> Result<(), StreamError<E>>,

        requires
            jobs.wf(),
            jobs.nodes().len() == self.point_clouds@.len(),
            forall|position: C::Position| #[trigger] culling.requires((&position,)),
            PointStream::<C::Position, C::Intensity, T, F>::callable(local_from_global, sink),
        ensures
            exists|runs: Seq<NodeRun<C::Position, C::Intensity, C::Error, E>>|
                {
                    &&& #[trigger] worked(
                        culling,
                        local_from_global,
                        sink,
                        self.batch_size as nat,
                        jobs.queued(),
                        jobs.count(),
                        runs,
                        exit,
                    )
                    &&& self.read_for(jobs, runs)
                },
            jobs.count() == 0 ==> exit is Exhausted,
            exit matches WorkerExit::SinkFailed(failure) ==> answered(
                sink,
                Err(StreamError::Other(failure)),
            ),
            exit is Cancelled ==> exists|thread: usize| #[trigger]
                answered(sink, Err(StreamError::<E>::Channel(thread))),
    {
        let mut worker = new_worker();
        let mut stream = PointStream::new(self.batch_size, local_from_global, sink);
        let mut budget: usize = jobs.count;
        let mut cancelled = false;
        let ghost lens = lens_of(jobs.nodes());
        let ghost capacity = self.batch_size as nat;
        let ghost mut runs: Seq<NodeRun<C::Position, C::Intensity, C::Error, E>> = Seq::empty();
        while budget > 0 && !cancelled
            invariant
                jobs.wf(),
                jobs.nodes().len() == self.point_clouds@.len(),
                lens == lens_of(jobs.nodes()),
                capacity == self.batch_size as nat,
                stream.wf(),
                stream.sink() == sink,
                stream.pose() == local_from_global,
                stream.capacity() == self.batch_size,
                forall|task: (usize, usize)| #[trigger]
                    held(worker).contains(task) ==> jobs.queued().contains(task),
                cancelled ==> exists|thread: usize| #[trigger]
                    answered(sink, Err(StreamError::<E>::Channel(thread))),
                budget <= jobs.count(),
                runs.len() == jobs.count() - budget,
                forall|position: C::Position| #[trigger] culling.requires((&position,)),
                chained(culling, local_from_global, sink, capacity, jobs.queued(), runs),
                self.read_for(jobs, runs),
                stream.buffered() == if runs.len() == 0 {
                    Columns::<C::Position, C::Intensity>::empty()
                } else {
                    runs.last().after
                },
                runs.len() > 0 ==> runs.last().exit == if cancelled {
                    Some(WorkerExit::<C::Error, E>::Cancelled)
                } else {
                    None
                },
                cancelled ==> runs.len() > 0 && stream.buffered() == Columns::<
                    C::Position,
                    C::Intensity,
                >::empty(),
            decreases budget,
        {
            let job = match pop_local(&mut worker) {
                Some(job) => Some(job),
                None => steal_job(&jobs.queue, &mut worker),
            };
            let (cloud, node) = match job {
                Some(job) => job,
                None => {
                    break ;
                },
            };
            proof {
                assert(jobs.queued().contains((cloud, node)));
                assert forall|c: int| 0 <= c < lens.len() implies #[trigger] lens[c]
                    <= usize::MAX by {
                    assert(lens[c] == jobs.nodes@[c]@.len());
                    assert(jobs.nodes@[c]@.len() == jobs.nodes@[c].len());
                }
                assert(lens.len() == jobs.nodes@.len());
                assert(jobs.nodes@.len() == jobs.nodes.len());
                lemma_jobs_are_in_range(lens, (cloud, node));
            }
            let node_id = jobs.nodes[cloud][node];
            let read = self.point_clouds[cloud].points_in_node(self.point_location, node_id);
            let ghost before = stream.buffered();
            let ghost was_read = read;
            assert(jobs.nodes()[cloud as int][node as int] == node_id);
            let left = process_node(&mut stream, culling, read);
            let ghost earlier = runs;
            proof {
                let run = NodeRun {
                    job: (cloud, node),
                    read: was_read,
                    before,
                    after: stream.buffered(),
                    exit: left,
                };
                runs = earlier.push(run);
                assert forall|i: int| 0 <= i < runs.len() implies {
                    &&& jobs.queued().contains((#[trigger] runs[i]).job)
                    &&& processed(
                        culling,
                        local_from_global,
                        sink,
                        capacity,
                        runs[i].before,
                        runs[i].read,
                        runs[i].after,
                        runs[i].exit,
                    )
                    &&& i < runs.len() - 1 ==> runs[i].exit is None
                } by {
                    if i < earlier.len() {
                        assert(runs[i] == earlier[i]);
                    }
                }
                assert forall|i: int, j: int|
                    0 <= i && j == i + 1 && j < runs.len() implies (#[trigger] runs[j]).before == (
                #[trigger] runs[i]).after by {
                    assert(runs[i] == earlier[i]);
                    if j < earlier.len() {
                        assert(runs[j] == earlier[j]);
                    }
                }
                if earlier.len() > 0 {
                    assert(runs[0] == earlier[0]);
                }
                assert forall|i: int| 0 <= i < runs.len() implies self.read_by(
                    jobs,
                    #[trigger] runs[i],
                ) by {
                    if i < earlier.len() {
                        assert(runs[i] == earlier[i]);
                    }
                }
                if was_read is Ok {
                    let (rows, outcome) = choose|
                        rows: Seq<Row<C::Position, C::Intensity>>,
                        outcome: Result<(), StreamError<E>>,
                    |
                        {
                            &&& #[trigger] streamed(
                                sink,
                                before,
                                capacity,
                                rows,
                                stream.buffered(),
                                outcome,
                            )
                            &&& left == exit_after::<C::Error, E>(outcome)
                        };
                    if outcome is Err {
                        lemma_refusal_leaves_nothing(
                            sink,
                            before,
                            capacity,
                            rows,
                            stream.buffered(),
                            outcome,
                        );
                        assert(answered(sink, outcome));
                        if let Err(StreamError::Channel(thread)) = outcome {
                            assert(answered(sink, Err(StreamError::<E>::Channel(thread))));
                        }
                    }
                }
            }
            match left {
                None => {},
                Some(WorkerExit::Cancelled) => {
                    cancelled = true;
                },
                Some(exit) => {
                    assert(worked(
                        culling,
                        local_from_global,
                        sink,
                        capacity,
                        jobs.queued(),
                        jobs.count(),
                        runs,
                        exit,
                    ));
                    return exit;
                },
            }
            budget -= 1;
        }
        let ghost last = stream.buffered();
        let outcome = stream.callback();
        proof {
            if outcome is Err {
                assert(delivered(sink, last, outcome));
                assert(answered(sink, outcome));
                if let Err(StreamError::Channel(thread)) = outcome {
                    assert(answered(sink, Err(StreamError::<E>::Channel(thread))));
                }
            }
        }
        let exit = match next_step(outcome) {
            WorkerStep::Continue => if cancelled {
                WorkerExit::Cancelled
            } else {
                WorkerExit::Exhausted
            },
            WorkerStep::Stop => WorkerExit::Cancelled,
            WorkerStep::Fail(failure) => WorkerExit::SinkFailed(failure),
        };
        proof {
            if !cancelled && last.position.len() > 0 {
                assert(delivered(sink, last, outcome));
            }
            assert(worked(
                culling,
                local_from_global,
                sink,
                capacity,
                jobs.queued(),
                jobs.count(),
                runs,
                exit,
            ));
        }
        exit
    }
}

} // verus!
