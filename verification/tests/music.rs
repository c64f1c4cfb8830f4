use ruzik::music::{
    evict_and_push, init_sample_handler, push_sample, record_samples, record_samples_with_capacity,
    SAMPLE_SIZE,
};
use std::collections::VecDeque;

fn contents(d: &VecDeque<f32>) -> Vec<f32> {
    d.iter().copied().collect()
}

#[test]
fn sample_size_is_two_to_the_thirteen() {
    assert_eq!(SAMPLE_SIZE, 1 << 13);
}

#[test]
fn init_sample_handler_is_empty_with_room() {
    let d: VecDeque<f32> = init_sample_handler(16);
    assert!(d.is_empty());
    assert!(d.capacity() >= 16);
}

#[test]
fn evict_and_push_appends_below_capacity() {
    let mut d: VecDeque<i32> = VecDeque::from(vec![1, 2]);
    evict_and_push(&mut d, 3, 7);
    assert_eq!(d, VecDeque::from(vec![1, 2, 7]));
}

#[test]
fn evict_and_push_evicts_oldest_when_full() {
    let mut d: VecDeque<i32> = VecDeque::from(vec![1, 2, 3]);
    evict_and_push(&mut d, 3, 4);
    assert_eq!(d, VecDeque::from(vec![2, 3, 4]));
}

#[test]
fn evict_and_push_with_zero_capacity_appends() {
    let mut d: VecDeque<i32> = VecDeque::new();
    evict_and_push(&mut d, 0, 9);
    assert_eq!(d, VecDeque::from(vec![9]));
}

#[test]
fn push_sample_evicts_at_reported_capacity() {
    let mut d: VecDeque<f32> = init_sample_handler(4);
    let cap = d.capacity();
    for k in 0..cap {
        push_sample(&mut d, k as f32);
    }
    assert_eq!(d.len(), cap);
    push_sample(&mut d, 100.0);
    assert_eq!(d.len(), cap);
    assert_eq!(d.front().copied(), Some(1.0));
    assert_eq!(d.back().copied(), Some(100.0));
}

#[test]
fn record_samples_keeps_newest() {
    let mut d: VecDeque<f32> = init_sample_handler(4);
    let cap = d.capacity();
    let history: Vec<f32> = (0..(cap + 3)).map(|k| k as f32).collect();
    record_samples(&mut d, &history);
    assert_eq!(contents(&d), history[3..].to_vec());
}

#[test]
fn record_samples_below_capacity_keeps_all() {
    let mut d: VecDeque<f32> = init_sample_handler(8);
    record_samples(&mut d, &[0.25, -0.5]);
    record_samples(&mut d, &[0.75]);
    assert_eq!(contents(&d), vec![0.25, -0.5, 0.75]);
}

#[test]
fn record_samples_of_empty_buffer_changes_nothing() {
    let mut d: VecDeque<f32> = init_sample_handler(8);
    record_samples(&mut d, &[1.0]);
    record_samples(&mut d, &[]);
    assert_eq!(contents(&d), vec![1.0]);
}

#[test]
fn record_in_two_parts_equals_record_at_once() {
    let mut one: VecDeque<i64> = VecDeque::with_capacity(5);
    let mut two: VecDeque<i64> = VecDeque::with_capacity(5);
    assert_eq!(one.capacity(), two.capacity());
    let all: Vec<i64> = (0..13).collect();
    record_samples(&mut one, &all);
    record_samples(&mut two, &all[..6]);
    record_samples(&mut two, &all[6..]);
    assert_eq!(one, two);
}

#[test]
fn record_with_capacity_keeps_newest() {
    let mut d: VecDeque<i32> = VecDeque::new();
    record_samples_with_capacity(&mut d, 3, &[1, 2, 3, 4, 5, 6]);
    assert_eq!(d, VecDeque::from(vec![4, 5, 6]));
}

#[test]
fn record_with_capacity_in_two_parts_equals_at_once() {
    let mut one: VecDeque<i32> = VecDeque::from(vec![9]);
    let mut two: VecDeque<i32> = VecDeque::from(vec![9]);
    record_samples_with_capacity(&mut one, 4, &[1, 2, 3, 4, 5]);
    record_samples_with_capacity(&mut two, 4, &[1, 2]);
    record_samples_with_capacity(&mut two, 4, &[3, 4, 5]);
    assert_eq!(one, two);
    assert_eq!(one, VecDeque::from(vec![2, 3, 4, 5]));
}

#[test]
fn record_with_zero_capacity_keeps_everything() {
    let mut d: VecDeque<i32> = VecDeque::new();
    record_samples_with_capacity(&mut d, 0, &[1, 2, 3]);
    assert_eq!(d, VecDeque::from(vec![1, 2, 3]));
}
