use point_viewer::batch::{Color, Point, PointStream, PointsBatch, Rgb};
use std::cell::RefCell;

type Position = [f64; 3];
type Batch = PointsBatch<Position, f32>;
type Move = fn(Position) -> Position;

fn point(x: f64, intensity: Option<f32>) -> Point<Position, f32> {
    Point {
        position: [x, 2.0 * x, -x],
        color: Color { red: x as u8, green: 7, blue: 9, alpha: 255 },
        intensity,
    }
}

fn points(count: usize) -> Vec<Point<Position, f32>> {
    (0..count).map(|i| point(i as f64, Some(i as f32 * 0.5))).collect()
}

/// Pushes `count` points through a fresh stream of the given capacity, flushes
/// once at the end, and returns the sizes of the batches that the sink saw.
fn batch_sizes(count: usize, capacity: usize) -> Vec<usize> {
    let seen: RefCell<Vec<usize>> = RefCell::new(Vec::new());
    let sink = |batch: Batch| -> Result<(), String> {
        assert_eq!(batch.position.len(), batch.color.len());
        seen.borrow_mut().push(batch.position.len());
        Ok(())
    };
    let pose: Option<Move> = None;
    let mut stream = PointStream::new(capacity, &pose, &sink);
    assert_eq!(stream.push_points_and_callback(points(count)), Ok(()));
    assert_eq!(stream.callback(), Ok(()));
    seen.into_inner()
}

#[test]
fn seven_points_in_batches_of_three() {
    assert_eq!(batch_sizes(7, 3), vec![3, 3, 1]);
}

#[test]
fn six_points_in_batches_of_three_leave_no_partial_batch() {
    assert_eq!(batch_sizes(6, 3), vec![3, 3]);
}

#[test]
fn fewer_points_than_the_capacity_leave_with_the_last_flush() {
    assert_eq!(batch_sizes(2, 3), vec![2]);
}

#[test]
fn no_points_no_batch() {
    assert_eq!(batch_sizes(0, 3), Vec::<usize>::new());
}

#[test]
fn capacity_one_sends_every_point_alone() {
    assert_eq!(batch_sizes(4, 1), vec![1, 1, 1, 1]);
}

#[test]
fn capacity_zero_sends_nothing_before_the_last_flush() {
    assert_eq!(batch_sizes(5, 0), vec![5]);
}

#[test]
fn number_of_batches_follows_quotient_and_remainder() {
    for capacity in 1..8 {
        for count in 0..30 {
            let sizes = batch_sizes(count, capacity);
            let full = count / capacity;
            let partial = if count % capacity != 0 { 1 } else { 0 };
            assert_eq!(sizes.len(), full + partial);
            assert!(sizes[..full].iter().all(|size| *size == capacity));
            if partial == 1 {
                assert_eq!(sizes[full], count % capacity);
            }
        }
    }
}

#[test]
fn batches_hold_the_points_in_order_without_opacity() {
    let seen: RefCell<Vec<Batch>> = RefCell::new(Vec::new());
    let sink = |batch: Batch| -> Result<(), String> {
        seen.borrow_mut().push(batch);
        Ok(())
    };
    let pose: Option<Move> = None;
    let mut stream = PointStream::new(2, &pose, &sink);
    assert_eq!(stream.push_points_and_callback(points(3)), Ok(()));
    assert_eq!(stream.callback(), Ok(()));
    let seen = seen.into_inner();
    assert_eq!(seen.len(), 2);
    assert_eq!(seen[0].position, vec![[0.0, 0.0, 0.0], [1.0, 2.0, -1.0]]);
    assert_eq!(
        seen[0].color,
        vec![Rgb { red: 0, green: 7, blue: 9 }, Rgb { red: 1, green: 7, blue: 9 }]
    );
    assert_eq!(seen[0].intensity, Some(vec![0.0, 0.5]));
    assert_eq!(seen[1].position, vec![[2.0, 4.0, -2.0]]);
    assert_eq!(seen[1].color, vec![Rgb { red: 2, green: 7, blue: 9 }]);
    assert_eq!(seen[1].intensity, Some(vec![1.0]));
}

#[test]
fn positions_are_converted_when_the_stream_has_a_pose() {
    let seen: RefCell<Vec<Batch>> = RefCell::new(Vec::new());
    let sink = |batch: Batch| -> Result<(), String> {
        seen.borrow_mut().push(batch);
        Ok(())
    };
    let shift = |p: Position| -> Position { [p[0] + 10.0, p[1], p[2] - 1.0] };
    let pose = Some(shift);
    let mut stream = PointStream::new(2, &pose, &sink);
    assert_eq!(stream.push_points_and_callback(points(2)), Ok(()));
    let seen = seen.into_inner();
    assert_eq!(seen.len(), 1);
    assert_eq!(seen[0].position, vec![[10.0, 0.0, -1.0], [11.0, 2.0, -2.0]]);
}

#[test]
fn intensity_column_is_absent_when_no_point_carried_one() {
    let seen: RefCell<Vec<Batch>> = RefCell::new(Vec::new());
    let sink = |batch: Batch| -> Result<(), String> {
        seen.borrow_mut().push(batch);
        Ok(())
    };
    let pose: Option<Move> = None;
    let mut stream = PointStream::new(2, &pose, &sink);
    let input = vec![point(1.0, None), point(2.0, None), point(3.0, Some(0.25))];
    assert_eq!(stream.push_points_and_callback(input), Ok(()));
    assert_eq!(stream.callback(), Ok(()));
    let seen = seen.into_inner();
    assert_eq!(seen[0].intensity, None);
    assert_eq!(seen[1].intensity, Some(vec![0.25]));
}

#[test]
fn intensity_column_holds_what_was_carried_even_if_not_every_point_did() {
    let seen: RefCell<Vec<Batch>> = RefCell::new(Vec::new());
    let sink = |batch: Batch| -> Result<(), String> {
        seen.borrow_mut().push(batch);
        Ok(())
    };
    let pose: Option<Move> = None;
    let mut stream = PointStream::new(3, &pose, &sink);
    let input = vec![point(1.0, Some(0.5)), point(2.0, None), point(3.0, Some(1.5))];
    assert_eq!(stream.push_points_and_callback(input), Ok(()));
    let seen = seen.into_inner();
    assert_eq!(seen[0].position.len(), 3);
    assert_eq!(seen[0].intensity, Some(vec![0.5, 1.5]));
}

#[test]
fn flushing_an_empty_stream_does_not_call_the_sink() {
    let calls: RefCell<usize> = RefCell::new(0);
    let sink = |_batch: Batch| -> Result<(), String> {
        *calls.borrow_mut() += 1;
        Err("must not be called".to_string())
    };
    let pose: Option<Move> = None;
    let mut stream = PointStream::new(3, &pose, &sink);
    assert_eq!(stream.callback(), Ok(()));
    assert_eq!(stream.callback(), Ok(()));
    assert_eq!(*calls.borrow(), 0);
}

#[test]
fn a_refused_batch_stops_the_stream_and_is_reported() {
    let seen: RefCell<Vec<usize>> = RefCell::new(Vec::new());
    let sink = |batch: Batch| -> Result<(), String> {
        seen.borrow_mut().push(batch.position.len());
        if seen.borrow().len() == 2 {
            Err("second batch refused".to_string())
        } else {
            Ok(())
        }
    };
    let pose: Option<Move> = None;
    let mut stream = PointStream::new(2, &pose, &sink);
    assert_eq!(
        stream.push_points_and_callback(points(7)),
        Err("second batch refused".to_string())
    );
    assert_eq!(*seen.borrow(), vec![2, 2]);
    // The refused batch is gone, and nothing came after it.
    assert_eq!(stream.callback(), Ok(()));
    assert_eq!(*seen.borrow(), vec![2, 2]);
}

#[test]
fn the_sink_result_of_the_last_flush_is_handed_back() {
    let sink = |_batch: Batch| -> Result<(), String> { Err("no".to_string()) };
    let pose: Option<Move> = None;
    let mut stream = PointStream::new(5, &pose, &sink);
    assert_eq!(stream.push_points_and_callback(points(2)), Ok(()));
    assert_eq!(stream.callback(), Err("no".to_string()));
    assert_eq!(stream.callback(), Ok(()));
}

#[test]
fn points_of_several_calls_share_a_batch() {
    assert_eq!(
        {
            let seen: RefCell<Vec<usize>> = RefCell::new(Vec::new());
            let sink = |batch: Batch| -> Result<(), String> {
                seen.borrow_mut().push(batch.position.len());
                Ok(())
            };
            let pose: Option<Move> = None;
            let mut stream = PointStream::new(3, &pose, &sink);
            assert_eq!(stream.push_points_and_callback(points(2)), Ok(()));
            assert_eq!(stream.push_points_and_callback(points(2)), Ok(()));
            assert_eq!(stream.callback(), Ok(()));
            seen.into_inner()
        },
        vec![3, 1]
    );
}
