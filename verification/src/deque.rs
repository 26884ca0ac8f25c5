//! The work queues and the channel of `crossbeam`, as far as the scheduler
//! uses them. No function in this file is proved: each contract states what
//! the source of `crossbeam` shows.

use crate::batch::PointsBatch;
use crossbeam::channel::{SendError, Sender};
use crossbeam::deque::{Injector, Steal, Worker};
use vstd::prelude::*;

verus! {

/// `crossbeam::deque::Injector`, the queue that all workers share.
#[verifier::external_type_specification]
#[verifier::external_body]
#[verifier::reject_recursive_types(T)]
pub struct ExInjector<T>(Injector<T>);

/// `crossbeam::deque::Worker`, the queue that one worker owns.
#[verifier::external_type_specification]
#[verifier::external_body]
#[verifier::reject_recursive_types(T)]
pub struct ExWorker<T>(Worker<T>);

/// `crossbeam::channel::Sender`, the sending side of a channel.
#[verifier::external_type_specification]
#[verifier::external_body]
#[verifier::reject_recursive_types(T)]
pub struct ExSender<T>(Sender<T>);

/// The jobs that were pushed into a shared queue since it was made, in the
/// order of the pushes. Stealing does not change it.
pub uninterp spec fn injected(queue: Injector<(usize, usize)>) -> Seq<(usize, usize)>;

/// The jobs that a worker's own queue holds.
pub uninterp spec fn held(worker: Worker<(usize, usize)>) -> Set<(usize, usize)>;

/// `Injector::new`: a shared queue into which nothing was pushed yet.
#[verifier::external_body]
pub(crate) fn new_injector() -> (queue: Injector<(usize, usize)>)
    ensures
        injected(queue) == Seq::<(usize, usize)>::empty(),
{
    Injector::new()
}

/// `Injector::push`: the job is added behind those pushed before.
#[verifier::external_body]
pub(crate) fn inject(queue: &mut Injector<(usize, usize)>, job: (usize, usize))
    ensures
        injected(*final(queue)) == injected(*old(queue)).push(job),
{
    queue.push(job)
}

/// `Worker::new_fifo`: a worker's queue that holds nothing.
#[verifier::external_body]
pub(crate) fn new_worker() -> (worker: Worker<(usize, usize)>)
    ensures
        held(worker) == Set::<(usize, usize)>::empty(),
{
    Worker::new_fifo()
}

/// `Worker::pop`: what comes out was held, and nothing is added.
#[verifier::external_body]
pub(crate) fn pop_local(worker: &mut Worker<(usize, usize)>) -> (job: Option<(usize, usize)>)
    ensures
        job matches Some(task) ==> held(*old(worker)).contains(task),
        held(*final(worker)).subset_of(held(*old(worker))),
{
    worker.pop()
}

/// What one attempt to steal from the shared queue gave.
#[derive(Debug)]
pub enum Stolen {
    /// The shared queue was empty.
    Empty,
    /// A job was stolen.
    Success((usize, usize)),
    /// Another worker got in the way: the attempt has to be made again.
    Retry,
}

/// `Injector::steal_batch_and_pop`, called once: a job handed out was pushed
/// into the shared queue, and so was every job that the worker's queue holds
/// afterwards and did not hold before.
#[verifier::external_body]
pub(crate) fn steal_once(
    shared: &Injector<(usize, usize)>,
    worker: &mut Worker<(usize, usize)>,
) -> (stolen: Stolen)
    ensures
        stolen matches Stolen::Success(task) ==> injected(*shared).contains(task),
        forall|task: (usize, usize)| #[trigger]
            held(*final(worker)).contains(task) ==> held(*old(worker)).contains(task) || injected(
                *shared,
            ).contains(task),
{
    match shared.steal_batch_and_pop(worker) {
        Steal::Empty => Stolen::Empty,
        Steal::Success(task) => Stolen::Success(task),
        Steal::Retry => Stolen::Retry,
    }
}

/// `Sender::send`: blocks until the batch is taken or the channel is
/// disconnected; a batch that could not be sent comes back unchanged.
#[verifier::external_body]
pub(crate) fn send<P, I>(sender: &Sender<PointsBatch<P, I>>, batch: PointsBatch<P, I>) -> (sent:
    Result<(), PointsBatch<P, I>>)
    ensures
        sent matches Err(back) ==> back == batch,
{
    match sender.send(batch) {
        Ok(()) => Ok(()),
        Err(SendError(back)) => Err(back),
    }
}

} // verus!
