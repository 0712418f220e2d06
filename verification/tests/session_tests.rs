use algo_visualizer::data::{init_data, rand_data};
use algo_visualizer::session::{update, visualize_sort, App, InputEvent};
use algo_visualizer::sink::RecordingSink;

#[test]
fn rand_data_length_and_range() {
    let data = rand_data(50);
    assert_eq!(data.len(), 50);
    for v in &data {
        assert!((1..=999).contains(v));
    }
}

#[test]
fn rand_data_zero_count_is_empty() {
    let data = rand_data(0);
    assert!(data.is_empty());
}

#[test]
fn init_data_reserves_margin() {
    let data = init_data(80);
    assert_eq!(data.len(), 78);
    for v in &data {
        assert!((1..=999).contains(v));
    }
}

#[test]
fn visualize_sort_sorts_the_dataset() {
    let mut app = App { data: vec![4, 1, 3, 2], should_quit: false };
    let mut sink = RecordingSink::new();
    visualize_sort(&mut app, &mut sink);
    assert_eq!(app.data, vec![1, 2, 3, 4]);
    assert!(!app.should_quit);
    assert!(!sink.frames.is_empty());
}

#[test]
fn quit_keypress_stops_without_rendering() {
    let mut app = App { data: vec![2, 1], should_quit: false };
    let mut sink = RecordingSink::new();
    update(&mut app, &mut sink, InputEvent::Quit, 40);
    assert!(app.should_quit);
    assert_eq!(app.data, vec![2, 1]);
    assert_eq!(sink.frames.len(), 0);
}

#[test]
fn regenerate_keypress_makes_sorted_dataset_of_terminal_width() {
    let mut app = App { data: vec![2, 1], should_quit: false };
    let mut sink = RecordingSink::new();
    update(&mut app, &mut sink, InputEvent::Regenerate, 12);
    assert!(!app.should_quit);
    assert_eq!(app.data.len(), 10);
    for k in 1..app.data.len() {
        assert!(app.data[k - 1] <= app.data[k]);
    }
    for v in &app.data {
        assert!((1..=999).contains(v));
    }
    assert!(!sink.frames.is_empty());
    assert!(sink.frames.len() <= 2 * 10 - 1);
}

#[test]
fn other_keypress_changes_nothing() {
    let mut app = App { data: vec![3, 1], should_quit: false };
    let mut sink = RecordingSink::new();
    update(&mut app, &mut sink, InputEvent::Other, 40);
    assert!(!app.should_quit);
    assert_eq!(app.data, vec![3, 1]);
    assert_eq!(sink.frames.len(), 0);
}
