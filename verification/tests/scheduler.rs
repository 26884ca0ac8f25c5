use crossbeam::channel::bounded;
use point_viewer::batch::{Color, Point, PointStream, PointsBatch};
use point_viewer::iterator::{
    after_send, cull, next_step, process_node, send_batch, Jobs, FilteredIterator, ParallelIterator, PointCloud,
    PointLocation, PointQuery, StreamError, WorkerExit, WorkerStep,
};
use std::cell::RefCell;
use std::sync::atomic::{AtomicUsize, Ordering};

type Position = [f64; 3];
type Batch = PointsBatch<Position, f32>;
type Move = fn(Position) -> Position;
type Query = PointQuery<(Position, Position), (), (), (), Position>;

fn at(x: f64, y: f64, z: f64) -> Point<Position, f32> {
    Point {
        position: [x, y, z],
        color: Color { red: 1, green: 2, blue: 3, alpha: 4 },
        intensity: None,
    }
}

fn inside(query: &Query, p: &Position) -> bool {
    match &query.location {
        PointLocation::Aabb((min, max)) => (0..3).all(|i| min[i] <= p[i] && p[i] <= max[i]),
        _ => true,
    }
}

/// A cloud kept in memory: each node is a list of positions.
struct MemoryCloud {
    nodes: Vec<Vec<Position>>,
    unreadable: Option<usize>,
    reads: AtomicUsize,
}

impl MemoryCloud {
    fn new(nodes: Vec<Vec<Position>>) -> Self {
        MemoryCloud { nodes, unreadable: None, reads: AtomicUsize::new(0) }
    }
}

impl PointCloud for MemoryCloud {
    type Id = usize;
    type Query = Query;
    type Position = Position;
    type Intensity = f32;
    type Encoding = &'static str;
    type Error = String;

    fn nodes_in_location(&self, _query: &Query) -> Vec<usize> {
        (0..self.nodes.len()).collect()
    }

    fn encoding_for_node(&self, _id: usize) -> &'static str {
        "plain"
    }

    fn points_in_node(&self, _query: &Query, id: usize) -> Result<Vec<Point<Position, f32>>, String> {
        self.reads.fetch_add(1, Ordering::SeqCst);
        if self.unreadable == Some(id) {
            return Err(format!("node {} is unreadable", id));
        }
        Ok(self.nodes[id].iter().map(|p| at(p[0], p[1], p[2])).collect())
    }
}

/// The test of the unbounded region.
fn everywhere(_position: &Position) -> bool {
    true
}

fn everything() -> Query {
    PointQuery { location: PointLocation::AllPoints(), global_from_local: None }
}

fn unit_box() -> Query {
    PointQuery {
        location: PointLocation::Aabb(([0.0, 0.0, 0.0], [1.0, 1.0, 1.0])),
        global_from_local: None,
    }
}

#[test]
fn unbounded_query_culls_without_a_pose_even_if_it_has_one() {
    let query: Query =
        PointQuery { location: PointLocation::AllPoints(), global_from_local: Some([1.0, 2.0, 3.0]) };
    let culling = query.get_point_culling();
    assert!(matches!(culling.region, PointLocation::AllPoints()));
    assert_eq!(culling.moved_by, None);
}

#[test]
fn bounded_query_is_moved_by_its_pose() {
    let query: Query = PointQuery {
        location: PointLocation::Aabb(([0.0; 3], [1.0; 3])),
        global_from_local: Some([1.0, 2.0, 3.0]),
    };
    let culling = query.get_point_culling();
    assert!(matches!(culling.region, PointLocation::Aabb(_)));
    assert_eq!(culling.moved_by, Some(&[1.0, 2.0, 3.0]));
}

#[test]
fn bounded_query_without_pose_is_not_moved() {
    let query = unit_box();
    let culling = query.get_point_culling();
    assert!(matches!(culling.region, PointLocation::Aabb(_)));
    assert_eq!(culling.moved_by, None);
    let frustum: Query = PointQuery { location: PointLocation::Frustum(()), global_from_local: None };
    assert!(matches!(frustum.get_point_culling().region, PointLocation::Frustum(())));
}

#[test]
fn filter_yields_the_contained_points_in_order() {
    let all = vec![at(0.5, 0.5, 0.5), at(2.0, 0.0, 0.0), at(1.0, 1.0, 1.0), at(0.0, -0.1, 0.0), at(0.0, 0.0, 0.0)];
    let query = unit_box();
    let test = |p: &Position| inside(&query, p);
    let mut filter = FilteredIterator::new(&test, all);
    assert_eq!(filter.next().map(|p| p.position), Some([0.5, 0.5, 0.5]));
    assert_eq!(filter.next().map(|p| p.position), Some([1.0, 1.0, 1.0]));
    assert_eq!(filter.next().map(|p| p.position), Some([0.0, 0.0, 0.0]));
    assert_eq!(filter.next().map(|p| p.position), None);
    assert_eq!(filter.next().map(|p| p.position), None);
}

#[test]
fn filter_over_nothing_yields_nothing() {
    let mut filter = FilteredIterator::new(&everywhere, Vec::<Point<Position, f32>>::new());
    assert!(filter.next().is_none());
}

#[test]
fn filter_that_contains_nothing_passes_over_every_point() {
    let asked: RefCell<usize> = RefCell::new(0);
    let test = |_p: &Position| {
        *asked.borrow_mut() += 1;
        false
    };
    let mut filter = FilteredIterator::new(&test, vec![at(1.0, 0.0, 0.0), at(2.0, 0.0, 0.0)]);
    assert!(filter.next().is_none());
    assert_eq!(*asked.borrow(), 2);
}

#[test]
fn closed_channel_stops_and_other_failures_fail() {
    assert!(matches!(next_step::<String>(Ok(())), WorkerStep::Continue));
    assert!(matches!(next_step::<String>(Err(StreamError::Channel(3))), WorkerStep::Stop));
    match next_step(Err(StreamError::Other("disk full".to_string()))) {
        WorkerStep::Fail(failure) => assert_eq!(failure, "disk full"),
        _ => panic!("a failure other than a closed channel must be reported"),
    }
}

#[test]
fn batch_arrives_on_an_open_channel() {
    let (sender, receiver) = bounded::<Batch>(1);
    let batch = PointsBatch { position: vec![[1.0, 2.0, 3.0]], color: vec![], intensity: None };
    assert!(matches!(send_batch::<_, _, String>(&sender, 0, batch), Ok(())));
    let arrived = receiver.recv().unwrap();
    assert_eq!(arrived.position, vec![[1.0, 2.0, 3.0]]);
}

#[test]
fn closed_channel_is_reported_with_the_worker_number() {
    let (sender, receiver) = bounded::<Batch>(1);
    drop(receiver);
    let batch = PointsBatch { position: vec![[1.0, 2.0, 3.0]], color: vec![], intensity: None };
    assert!(matches!(
        send_batch::<_, _, String>(&sender, 5, batch),
        Err(StreamError::Channel(5))
    ));
}

#[test]
fn jobs_are_counted_node_by_node() {
    let clouds = vec![
        MemoryCloud::new(vec![vec![], vec![], vec![]]),
        MemoryCloud::new(vec![]),
        MemoryCloud::new(vec![vec![]]),
    ];
    let query = everything();
    let iterator = ParallelIterator::new(&clouds, &query, 10, 1, 1);
    assert_eq!(iterator.collect_jobs().len(), 4);
    let none: Vec<MemoryCloud> = Vec::new();
    assert_eq!(ParallelIterator::new(&none, &query, 10, 1, 1).collect_jobs().len(), 0);
}

#[test]
fn one_worker_reads_every_node_once_and_keeps_batches_full_across_nodes() {
    let clouds = vec![
        MemoryCloud::new(vec![vec![[0.0; 3]; 2], vec![[0.5; 3]; 3]]),
        MemoryCloud::new(vec![vec![[1.0; 3]; 2]]),
    ];
    let query = everything();
    let iterator = ParallelIterator::new(&clouds, &query, 3, 1, 1);
    let jobs = iterator.collect_jobs();
    let seen: RefCell<Vec<usize>> = RefCell::new(Vec::new());
    let sink = |batch: Batch| -> Result<(), StreamError<String>> {
        seen.borrow_mut().push(batch.position.len());
        Ok(())
    };
    let pose: Option<Move> = None;
    let exit = iterator.run_worker(&jobs, &everywhere, &pose, &sink);
    assert!(matches!(exit, WorkerExit::Exhausted));
    assert_eq!(seen.into_inner(), vec![3, 3, 1]);
    assert_eq!(clouds[0].reads.load(Ordering::SeqCst), 2);
    assert_eq!(clouds[1].reads.load(Ordering::SeqCst), 1);
    // Nothing is left for a second worker.
    let late = |_batch: Batch| -> Result<(), StreamError<String>> {
        panic!("no batch must come from an empty queue")
    };
    assert!(matches!(iterator.run_worker(&jobs, &everywhere, &pose, &late), WorkerExit::Exhausted));
    assert_eq!(clouds[0].reads.load(Ordering::SeqCst), 2);
}

#[test]
fn worker_only_hands_out_points_of_the_query() {
    let clouds = vec![MemoryCloud::new(vec![vec![[0.5; 3], [1.5; 3], [1.0; 3], [-0.5; 3]]])];
    let query = unit_box();
    let iterator = ParallelIterator::new(&clouds, &query, 8, 1, 1);
    let jobs = iterator.collect_jobs();
    let seen: RefCell<Vec<Position>> = RefCell::new(Vec::new());
    let sink = |batch: Batch| -> Result<(), StreamError<String>> {
        seen.borrow_mut().extend(batch.position);
        Ok(())
    };
    let pose: Option<Move> = None;
    let culling = |p: &Position| inside(&query, p);
    assert!(matches!(iterator.run_worker(&jobs, &culling, &pose, &sink), WorkerExit::Exhausted));
    assert_eq!(seen.into_inner(), vec![[0.5; 3], [1.0; 3]]);
}

#[test]
fn worker_stops_quietly_when_the_channel_is_closed() {
    let clouds = vec![MemoryCloud::new(vec![vec![[0.0; 3]; 4], vec![[0.0; 3]; 4], vec![[0.0; 3]; 4]])];
    let query = everything();
    let iterator = ParallelIterator::new(&clouds, &query, 2, 1, 1);
    let jobs = iterator.collect_jobs();
    let (sender, receiver) = bounded::<Batch>(1);
    drop(receiver);
    let sink = |batch: Batch| send_batch::<_, _, String>(&sender, 0, batch);
    let pose: Option<Move> = None;
    assert!(matches!(iterator.run_worker(&jobs, &everywhere, &pose, &sink), WorkerExit::Cancelled));
    // The worker gave up within the first node.
    assert_eq!(clouds[0].reads.load(Ordering::SeqCst), 1);
}

#[test]
fn worker_reports_a_sink_failure() {
    let clouds = vec![MemoryCloud::new(vec![vec![[0.0; 3]; 4]])];
    let query = everything();
    let iterator = ParallelIterator::new(&clouds, &query, 2, 1, 1);
    let jobs = iterator.collect_jobs();
    let sink = |_batch: Batch| -> Result<(), StreamError<String>> {
        Err(StreamError::Other("refused".to_string()))
    };
    let pose: Option<Move> = None;
    match iterator.run_worker(&jobs, &everywhere, &pose, &sink) {
        WorkerExit::SinkFailed(failure) => assert_eq!(failure, "refused"),
        _ => panic!("the failure of the sink must be reported"),
    }
}

#[test]
fn worker_reports_a_sink_failure_of_the_last_flush() {
    let clouds = vec![MemoryCloud::new(vec![vec![[0.0; 3]; 1]])];
    let query = everything();
    let iterator = ParallelIterator::new(&clouds, &query, 2, 1, 1);
    let jobs = iterator.collect_jobs();
    let sink = |_batch: Batch| -> Result<(), StreamError<String>> {
        Err(StreamError::Other("refused late".to_string()))
    };
    let pose: Option<Move> = None;
    match iterator.run_worker(&jobs, &everywhere, &pose, &sink) {
        WorkerExit::SinkFailed(failure) => assert_eq!(failure, "refused late"),
        _ => panic!("the failure of the sink must be reported"),
    }
}

#[test]
fn worker_reports_an_unreadable_node() {
    let mut cloud = MemoryCloud::new(vec![vec![[0.0; 3]; 1], vec![[0.0; 3]; 1]]);
    cloud.unreadable = Some(1);
    let clouds = vec![cloud];
    let query = everything();
    let iterator = ParallelIterator::new(&clouds, &query, 2, 1, 1);
    let jobs = iterator.collect_jobs();
    let sink = |_batch: Batch| -> Result<(), StreamError<String>> { Ok(()) };
    let pose: Option<Move> = None;
    match iterator.run_worker(&jobs, &everywhere, &pose, &sink) {
        WorkerExit::ReadFailed(failure) => assert_eq!(failure, "node 1 is unreadable"),
        _ => panic!("the unreadable node must be reported"),
    }
}

#[test]
fn worker_converts_positions_with_the_given_pose() {
    let clouds = vec![MemoryCloud::new(vec![vec![[1.0, 2.0, 3.0]]])];
    let query = everything();
    let iterator = ParallelIterator::new(&clouds, &query, 2, 1, 1);
    let jobs = iterator.collect_jobs();
    let seen: RefCell<Vec<Position>> = RefCell::new(Vec::new());
    let sink = |batch: Batch| -> Result<(), StreamError<String>> {
        seen.borrow_mut().extend(batch.position);
        Ok(())
    };
    let pose = Some(|p: Position| -> Position { [p[0] - 1.0, p[1] - 2.0, p[2] - 3.0] });
    assert!(matches!(iterator.run_worker(&jobs, &everywhere, &pose, &sink), WorkerExit::Exhausted));
    assert_eq!(seen.into_inner(), vec![[0.0, 0.0, 0.0]]);
}

/// Runs the workers of `iterator` on threads and collects what arrives.
fn run_pool(iterator: &ParallelIterator<MemoryCloud>, take: usize) -> (Vec<Batch>, Vec<bool>) {
    let jobs = iterator.collect_jobs();
    let pose: Option<Move> = None;
    crossbeam::scope(|scope| {
        let (sender, receiver) = bounded::<Batch>(iterator.buffer_size);
        let mut workers = Vec::new();
        for thread in 0..iterator.num_threads {
            let sender = sender.clone();
            let jobs = &jobs;
            let pose = &pose;
            let culling = |p: &Position| inside(iterator.point_location, p);
            workers.push(scope.spawn(move |_| {
                let sink = |batch: Batch| send_batch::<_, _, String>(&sender, thread, batch);
                matches!(iterator.run_worker(jobs, &culling, pose, &sink), WorkerExit::Cancelled)
            }));
        }
        drop(sender);
        let batches: Vec<Batch> = receiver.iter().take(take).collect();
        drop(receiver);
        let cancelled = workers.into_iter().map(|worker| worker.join().unwrap()).collect();
        (batches, cancelled)
    })
    .unwrap()
}

#[test]
fn two_clouds_two_workers_five_points() {
    let clouds = vec![
        MemoryCloud::new(vec![vec![[0.1; 3], [0.2; 3], [0.3; 3]]]),
        MemoryCloud::new(vec![vec![[0.4; 3], [0.5; 3]]]),
    ];
    let query: Query = PointQuery {
        location: PointLocation::Aabb(([-1.0e9; 3], [1.0e9; 3])),
        global_from_local: None,
    };
    let iterator = ParallelIterator::new(&clouds, &query, 3, 2, 1);
    let (batches, cancelled) = run_pool(&iterator, usize::MAX);
    let total: usize = batches.iter().map(|batch| batch.position.len()).sum();
    assert_eq!(total, 5);
    assert!(batches.len() >= 2 && batches.len() <= 3);
    assert!(cancelled.iter().all(|c| !*c));
    for batch in &batches {
        assert!(!batch.position.is_empty() && batch.position.len() <= 3);
        assert_eq!(batch.position.len(), batch.color.len());
        assert!(batch.position.iter().all(|p| inside(&query, p)));
    }
    let mut xs: Vec<f64> = batches.iter().flat_map(|b| b.position.iter().map(|p| p[0])).collect();
    xs.sort_by(|a, b| a.partial_cmp(b).unwrap());
    assert_eq!(xs, vec![0.1, 0.2, 0.3, 0.4, 0.5]);
}

#[test]
fn workers_end_when_the_consumer_stops_early() {
    let clouds = vec![MemoryCloud::new(vec![vec![[0.0; 3]; 50]; 40])];
    let query = everything();
    let iterator = ParallelIterator::new(&clouds, &query, 5, 3, 2);
    let (batches, cancelled) = run_pool(&iterator, 4);
    assert_eq!(batches.len(), 4);
    assert!(cancelled.iter().any(|c| *c));
    assert!(clouds[0].reads.load(Ordering::SeqCst) <= 40);
}

#[test]
fn every_node_is_read_exactly_once_by_the_pool() {
    let clouds = vec![
        MemoryCloud::new(vec![vec![[0.0; 3]; 7]; 30]),
        MemoryCloud::new(vec![vec![[0.0; 3]; 3]; 25]),
    ];
    let query = everything();
    let iterator = ParallelIterator::new(&clouds, &query, 4, 4, 1);
    let (batches, _) = run_pool(&iterator, usize::MAX);
    let total: usize = batches.iter().map(|batch| batch.position.len()).sum();
    assert_eq!(total, 30 * 7 + 25 * 3);
    assert_eq!(clouds[0].reads.load(Ordering::SeqCst), 30);
    assert_eq!(clouds[1].reads.load(Ordering::SeqCst), 25);
    // Each worker leaves at most one batch that is not full.
    assert!(batches.iter().filter(|batch| batch.position.len() < 4).count() <= 4);
}

#[test]
fn unreadable_node_ends_the_work_and_leaves_the_stream_alone() {
    let seen: RefCell<Vec<usize>> = RefCell::new(Vec::new());
    let sink = |batch: Batch| -> Result<(), StreamError<String>> {
        seen.borrow_mut().push(batch.position.len());
        Ok(())
    };
    let pose: Option<Move> = None;
    let mut stream = PointStream::new(3, &pose, &sink);
    assert!(process_node::<_, _, _, _, _, _, String>(&mut stream, &everywhere, Ok(vec![at(0.0, 0.0, 0.0)])).is_none());
    match process_node(&mut stream, &everywhere, Err("gone".to_string())) {
        Some(WorkerExit::ReadFailed(failure)) => assert_eq!(failure, "gone"),
        _ => panic!("the unreadable node must end the work"),
    }
    assert!(seen.borrow().is_empty());
    assert!(stream.callback().is_ok());
    assert_eq!(seen.into_inner(), vec![1]);
}

#[test]
fn readable_node_is_pushed_through_the_stream() {
    let seen: RefCell<Vec<usize>> = RefCell::new(Vec::new());
    let sink = |batch: Batch| -> Result<(), StreamError<String>> {
        seen.borrow_mut().push(batch.position.len());
        Ok(())
    };
    let pose: Option<Move> = None;
    let mut stream = PointStream::new(2, &pose, &sink);
    let node = vec![at(0.0, 0.0, 0.0), at(1.0, 0.0, 0.0), at(2.0, 0.0, 0.0)];
    assert!(process_node::<_, _, _, _, _, _, String>(&mut stream, &everywhere, Ok(node)).is_none());
    assert_eq!(*seen.borrow(), vec![2]);
}

#[test]
fn closed_channel_within_a_node_ends_the_work_quietly() {
    let sink = |_batch: Batch| -> Result<(), StreamError<String>> { Err(StreamError::Channel(1)) };
    let pose: Option<Move> = None;
    let mut stream = PointStream::new(1, &pose, &sink);
    let exit = process_node::<_, _, _, _, _, _, String>(&mut stream, &everywhere, Ok(vec![at(0.0, 0.0, 0.0)]));
    assert!(matches!(exit, Some(WorkerExit::Cancelled)));
}

#[test]
fn refusing_sink_within_a_node_is_a_failure() {
    let sink = |_batch: Batch| -> Result<(), StreamError<String>> {
        Err(StreamError::Other("full".to_string()))
    };
    let pose: Option<Move> = None;
    let mut stream = PointStream::new(1, &pose, &sink);
    match process_node::<_, _, _, _, _, _, String>(&mut stream, &everywhere, Ok(vec![at(0.0, 0.0, 0.0)])) {
        Some(WorkerExit::SinkFailed(failure)) => assert_eq!(failure, "full"),
        _ => panic!("the failure of the sink must end the work"),
    }
}

#[test]
fn worker_without_jobs_ends_at_once() {
    let clouds: Vec<MemoryCloud> = vec![MemoryCloud::new(vec![])];
    let query = everything();
    let iterator = ParallelIterator::new(&clouds, &query, 3, 1, 1);
    let jobs = iterator.collect_jobs();
    assert_eq!(jobs.len(), 0);
    let sink = |_batch: Batch| -> Result<(), StreamError<String>> {
        panic!("no batch must come without a job")
    };
    let pose: Option<Move> = None;
    assert!(matches!(iterator.run_worker(&jobs, &everywhere, &pose, &sink), WorkerExit::Exhausted));
}

#[test]
fn batch_that_came_back_means_a_closed_channel() {
    let back: Batch = PointsBatch { position: vec![[1.0, 2.0, 3.0]], color: vec![], intensity: None };
    assert!(matches!(
        after_send::<Position, f32, String>(7, Err(back)),
        Err(StreamError::Channel(7))
    ));
    assert!(matches!(after_send::<Position, f32, String>(7, Ok(())), Ok(())));
}

#[test]
fn culling_keeps_the_accepted_points_in_order() {
    let query = unit_box();
    let test = |p: &Position| inside(&query, p);
    let all = vec![at(2.0, 0.0, 0.0), at(0.5, 0.5, 0.5), at(0.0, 0.0, 1.5), at(1.0, 0.0, 1.0), at(0.1, 0.2, 0.3)];
    let kept: Vec<Position> = cull(&test, all).into_iter().map(|p| p.position).collect();
    assert_eq!(kept, vec![[0.5, 0.5, 0.5], [1.0, 0.0, 1.0], [0.1, 0.2, 0.3]]);
    assert!(cull(&test, Vec::<Point<Position, f32>>::new()).is_empty());
    assert!(cull(&test, vec![at(5.0, 5.0, 5.0)]).is_empty());
    assert_eq!(cull(&everywhere, vec![at(5.0, 5.0, 5.0), at(6.0, 6.0, 6.0)]).len(), 2);
}

#[test]
fn node_points_outside_the_region_do_not_reach_the_sink() {
    let seen: RefCell<Vec<Position>> = RefCell::new(Vec::new());
    let sink = |batch: Batch| -> Result<(), StreamError<String>> {
        seen.borrow_mut().extend(batch.position);
        Ok(())
    };
    let pose: Option<Move> = None;
    let query = unit_box();
    let test = |p: &Position| inside(&query, p);
    let mut stream = PointStream::new(2, &pose, &sink);
    let node = vec![at(3.0, 0.0, 0.0), at(0.5, 0.0, 0.0), at(0.0, -1.0, 0.0), at(1.0, 1.0, 1.0)];
    assert!(process_node::<_, _, _, _, _, _, String>(&mut stream, &test, Ok(node)).is_none());
    assert_eq!(seen.into_inner(), vec![[0.5, 0.0, 0.0], [1.0, 1.0, 1.0]]);
}

#[test]
fn jobs_are_queued_for_the_given_nodes() {
    assert_eq!(Jobs::new(vec![vec!['a', 'b'], vec![], vec!['c']]).len(), 3);
    assert_eq!(Jobs::new(Vec::<Vec<char>>::new()).len(), 0);
    assert_eq!(Jobs::new(vec![Vec::<char>::new(), Vec::new()]).len(), 0);
}

#[test]
fn one_node_of_five_points_in_batches_of_three() {
    let clouds = vec![MemoryCloud::new(vec![vec![
        [0.0, 0.0, 0.0],
        [1.0, 0.0, 0.0],
        [2.0, 0.0, 0.0],
        [3.0, 0.0, 0.0],
        [4.0, 0.0, 0.0],
    ]])];
    let query = everything();
    let iterator = ParallelIterator::new(&clouds, &query, 3, 1, 1);
    let jobs = iterator.collect_jobs();
    let seen: RefCell<Vec<Batch>> = RefCell::new(Vec::new());
    let sink = |batch: Batch| -> Result<(), StreamError<String>> {
        seen.borrow_mut().push(batch);
        Ok(())
    };
    let pose: Option<Move> = None;
    assert!(matches!(
        iterator.run_worker(&jobs, &everywhere, &pose, &sink),
        WorkerExit::Exhausted
    ));
    let seen = seen.into_inner();
    assert_eq!(seen.len(), 2);
    assert_eq!(seen[0].position, vec![[0.0, 0.0, 0.0], [1.0, 0.0, 0.0], [2.0, 0.0, 0.0]]);
    assert_eq!(seen[1].position, vec![[3.0, 0.0, 0.0], [4.0, 0.0, 0.0]]);
    for batch in &seen {
        assert_eq!(batch.color.len(), batch.position.len());
        assert_eq!(batch.intensity, None);
    }
}

#[test]
fn each_job_reads_the_node_it_names() {
    // Nodes of different sizes: the points that arrive are those of all the
    // nodes, each once.
    let clouds = vec![
        MemoryCloud::new(vec![vec![[1.0; 3]; 1], vec![[2.0; 3]; 2]]),
        MemoryCloud::new(vec![vec![[3.0; 3]; 3]]),
    ];
    let query = everything();
    let iterator = ParallelIterator::new(&clouds, &query, 100, 1, 1);
    let jobs = iterator.collect_jobs();
    let seen: RefCell<Vec<f64>> = RefCell::new(Vec::new());
    let sink = |batch: Batch| -> Result<(), StreamError<String>> {
        seen.borrow_mut().extend(batch.position.iter().map(|p| p[0]));
        Ok(())
    };
    let pose: Option<Move> = None;
    assert!(matches!(
        iterator.run_worker(&jobs, &everywhere, &pose, &sink),
        WorkerExit::Exhausted
    ));
    assert_eq!(seen.into_inner(), vec![1.0, 2.0, 2.0, 3.0, 3.0, 3.0]);
}
