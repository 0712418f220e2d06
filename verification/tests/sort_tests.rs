use algo_visualizer::sink::RecordingSink;
use algo_visualizer::sort::{partition, quicksort};

#[test]
fn sort_mixed_input() {
    let mut data: Vec<u64> = vec![5, 3, 8, 3, 9, 1];
    let mut sink = RecordingSink::new();
    quicksort(&mut data, &mut sink);
    assert_eq!(data, vec![1, 3, 3, 5, 8, 9]);
}

#[test]
fn sort_single_element_renders_once() {
    let mut data: Vec<u64> = vec![1];
    let mut sink = RecordingSink::new();
    quicksort(&mut data, &mut sink);
    assert_eq!(data, vec![1]);
    assert_eq!(sink.frames.len(), 1);
    assert_eq!(sink.frames[0], vec![1]);
}

#[test]
fn sort_already_sorted_is_unchanged() {
    let mut data: Vec<u64> = vec![1, 2, 3, 4, 5];
    let mut sink = RecordingSink::new();
    quicksort(&mut data, &mut sink);
    assert_eq!(data, vec![1, 2, 3, 4, 5]);
}

#[test]
fn sort_sorted_input_of_three_renders_worst_case() {
    // The last element is always the pivot, so a sorted input drives the
    // deepest call tree: 2 * 3 - 1 renders.
    let mut data: Vec<u64> = vec![1, 2, 3];
    let mut sink = RecordingSink::new();
    quicksort(&mut data, &mut sink);
    assert_eq!(data, vec![1, 2, 3]);
    assert_eq!(sink.frames.len(), 5);
}

#[test]
fn sort_traced_frames_of_three() {
    // [3, 1, 2]: the root call renders [3, 1, 2] and partitions around 2,
    // then each side is a single element and renders once.
    let mut data: Vec<u64> = vec![3, 1, 2];
    let mut sink = RecordingSink::new();
    quicksort(&mut data, &mut sink);
    assert_eq!(data, vec![1, 2, 3]);
    assert_eq!(sink.frames.len(), 3);
    assert_eq!(sink.frames[0], vec![3, 1, 2]);
}

#[test]
fn sort_renders_first_frame_before_any_work() {
    let mut data: Vec<u64> = vec![9, 2, 7, 4];
    let mut sink = RecordingSink::new();
    quicksort(&mut data, &mut sink);
    assert_eq!(sink.frames[0], vec![9, 2, 7, 4]);
    assert!(sink.frames.len() >= 4);
    assert!(sink.frames.len() <= 7);
}

#[test]
fn sort_all_equal_keys() {
    let mut data: Vec<u64> = vec![7, 7, 7];
    let mut sink = RecordingSink::new();
    quicksort(&mut data, &mut sink);
    assert_eq!(data, vec![7, 7, 7]);
    assert_eq!(sink.frames.len(), 5);
}

#[test]
fn partition_smallest_pivot_moves_to_front() {
    let mut data: Vec<u64> = vec![5, 3, 8, 3, 9, 1];
    let p = partition(&mut data, 0, 5);
    assert_eq!(p, 0);
    assert_eq!(data, vec![1, 3, 8, 3, 9, 5]);
}

#[test]
fn partition_splits_around_pivot() {
    let mut data: Vec<u64> = vec![3, 8, 1, 5];
    let p = partition(&mut data, 0, 3);
    assert_eq!(p, 2);
    assert_eq!(data, vec![3, 1, 5, 8]);
    for k in 0..p {
        assert!(data[k] <= data[p]);
    }
    for k in (p + 1)..data.len() {
        assert!(data[k] >= data[p]);
    }
}

#[test]
fn partition_sorted_subrange_keeps_everything_in_place() {
    let mut data: Vec<u64> = vec![9, 1, 2, 3, 0];
    let p = partition(&mut data, 1, 3);
    assert_eq!(p, 3);
    assert_eq!(data, vec![9, 1, 2, 3, 0]);
}
