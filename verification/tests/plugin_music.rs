use ruzik::plugin::music::{
    fill_frame, init_sample_handler, record_frame, record_frames_with_capacity, Frames,
};
use std::collections::VecDeque;

#[test]
fn init_frames_is_empty() {
    let f: Frames<f32> = Frames::init_frames(2);
    assert!(f.frame.is_empty());
}

#[test]
fn init_sample_handler_holds_size_empty_frames() {
    let q: VecDeque<Frames<f32>> = init_sample_handler(5, 2);
    assert_eq!(q.len(), 5);
    assert!(q.iter().all(|f| f.frame.is_empty()));
}

#[test]
fn init_sample_handler_of_zero_is_empty() {
    let q: VecDeque<Frames<f32>> = init_sample_handler(0, 2);
    assert!(q.is_empty());
}

#[test]
fn fill_frame_repeats_the_sample() {
    let f = fill_frame(0.5f32, 3);
    assert_eq!(f.frame, vec![0.5, 0.5, 0.5]);
    let g = fill_frame(0.5f32, 0);
    assert!(g.frame.is_empty());
}

#[test]
fn record_frame_appends_below_capacity() {
    let mut q: VecDeque<Frames<f32>> = VecDeque::with_capacity(8);
    record_frame(&mut q, 0.25, 2);
    assert_eq!(q.len(), 1);
    assert_eq!(q[0].frame, vec![0.25, 0.25]);
}

#[test]
fn record_frame_evicts_oldest_when_full() {
    let mut q: VecDeque<Frames<f32>> = init_sample_handler(3, 2);
    let cap = q.capacity();
    while q.len() < cap {
        record_frame(&mut q, 1.0, 2);
    }
    record_frame(&mut q, 7.0, 2);
    assert_eq!(q.len(), cap);
    assert_eq!(q.back().unwrap().frame, vec![7.0, 7.0]);
    // the oldest of the three empty frames made at the start has left
    let empties = q.iter().filter(|f| f.frame.is_empty()).count();
    assert_eq!(empties, 2);
}

fn views(q: &VecDeque<Frames<f32>>) -> Vec<Vec<f32>> {
    q.iter().map(|f| f.frame.clone()).collect()
}

#[test]
fn record_frames_with_capacity_keeps_newest() {
    let mut q: VecDeque<Frames<f32>> = init_sample_handler(2, 2);
    record_frames_with_capacity(&mut q, 3, &[1.0, 2.0, 3.0], 2);
    assert_eq!(views(&q), vec![vec![1.0, 1.0], vec![2.0, 2.0], vec![3.0, 3.0]]);
}

#[test]
fn record_frames_with_capacity_below_capacity_appends() {
    let mut q: VecDeque<Frames<f32>> = init_sample_handler(1, 2);
    record_frames_with_capacity(&mut q, 4, &[0.5], 3);
    assert_eq!(views(&q), vec![vec![], vec![0.5, 0.5, 0.5]]);
}

#[test]
fn record_frames_in_two_parts_equals_at_once() {
    let mut one: VecDeque<Frames<f32>> = init_sample_handler(2, 2);
    let mut two: VecDeque<Frames<f32>> = init_sample_handler(2, 2);
    record_frames_with_capacity(&mut one, 3, &[1.0, 2.0, 3.0, 4.0], 1);
    record_frames_with_capacity(&mut two, 3, &[1.0], 1);
    record_frames_with_capacity(&mut two, 3, &[2.0, 3.0, 4.0], 1);
    assert_eq!(views(&one), views(&two));
    assert_eq!(views(&one), vec![vec![2.0], vec![3.0], vec![4.0]]);
}
