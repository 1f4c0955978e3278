use rotation_viewer::sequence::SequenceState;
use rotation_viewer::transform::{
    default_diamond_path, default_index_transform, resolve_index_transform, same_text, IndexTransform,
};
use rotation_viewer::window::{window_indices, CACHE_RADIUS};

#[test]
fn window_alternates_around_centre() {
    let w = window_indices(5, 100);
    assert_eq!(w.len(), 2 * CACHE_RADIUS + 1);
    assert_eq!(&w[..7], &[5, 6, 4, 7, 3, 8, 2]);
    assert_eq!(w[100], 55);
    assert_eq!(w[99], 55);
}

#[test]
fn window_wraps_around_ring() {
    let w = window_indices(0, 10);
    assert_eq!(&w[..5], &[0, 1, 9, 2, 8]);
    assert!(w.iter().all(|&i| i < 10));
}

#[test]
fn window_has_no_repeats_in_large_ring() {
    let mut w = window_indices(150, 200);
    w.sort();
    w.dedup();
    assert_eq!(w.len(), 101);
}

#[test]
fn transform_names_resolve() {
    assert_eq!(resolve_index_transform("identity"), IndexTransform::Identity);
    assert_eq!(resolve_index_transform(""), IndexTransform::Identity);
    assert_eq!(resolve_index_transform("reverse_quarter"), IndexTransform::ReverseQuarter);
}

#[test]
fn reverse_quarter_formula() {
    let t = IndexTransform::ReverseQuarter;
    assert_eq!(t.apply(0, 60), 45);
    assert_eq!(t.apply(10, 60), 35);
    assert_eq!(t.apply(59, 60), -14);
    assert_eq!(t.apply(1, -6), -6);
    assert_eq!(IndexTransform::Identity.apply(17, 60), 17);
}

#[test]
fn config_defaults() {
    assert_eq!(default_index_transform(), "identity");
    assert_eq!(default_diamond_path(), "./sequences/diamond");
}

#[test]
fn frame_index_clamps_and_wraps() {
    let s = SequenceState::new(60, IndexTransform::Identity);
    assert_eq!(s.frame_index(0), 0);
    assert_eq!(s.frame_index(59), 59);
    assert_eq!(s.frame_index(1000), 59);
    let r = SequenceState::new(60, IndexTransform::ReverseQuarter);
    assert_eq!(r.frame_index(0), 45);
    assert_eq!(r.frame_index(59), 46);
    assert_eq!(r.frame_index(50), 55);
    let empty = SequenceState::new(0, IndexTransform::ReverseQuarter);
    assert_eq!(empty.frame_index(7), 0);
}

#[test]
fn dimensions_reset_cache_and_blank() {
    let mut s = SequenceState::new(4, IndexTransform::Identity);
    assert_eq!(s.frame_count(), 4);
    assert!(s.blank_frame().is_empty());
    s.accept(1, vec![9, 9]);
    assert!(s.is_cached(1));
    s.set_dimensions(3, 2);
    assert_eq!(s.width(), 3);
    assert_eq!(s.height(), 2);
    assert_eq!(s.blank_frame(), &vec![0u32; 6]);
    assert!(!s.is_cached(1));
}

#[test]
fn plan_requests_missing_frames_once() {
    let mut s = SequenceState::new(4, IndexTransform::Identity);
    s.accept(2, vec![2]);
    let requests = s.plan(0);
    // the window around 0 in a ring of 4 visits 0, 1, 3, 2, 2, 3, 1, ...
    assert_eq!(requests, vec![0, 1, 3]);
    assert!(s.is_cached(2));
    // nothing new is requested while those are pending
    assert_eq!(s.plan(0), Vec::<usize>::new());
    s.accept(0, vec![7, 7]);
    assert_eq!(s.frame(0), &vec![7, 7]);
    assert_eq!(s.plan(1), Vec::<usize>::new());
}

#[test]
fn plan_forgets_frames_outside_window() {
    let mut s = SequenceState::new(300, IndexTransform::Identity);
    s.accept(200, vec![1]);
    s.accept(10, vec![2]);
    let requests = s.plan(0);
    assert!(!s.is_cached(200));
    assert!(s.is_cached(10));
    assert_eq!(requests.len(), 100);
    assert_eq!(&requests[..4], &[0, 1, 299, 2]);
    assert!(!requests.contains(&10));
}

#[test]
fn index_transform_can_be_replaced() {
    let mut s = SequenceState::new(60, IndexTransform::Identity);
    s.set_index_transform(IndexTransform::ReverseQuarter);
    assert_eq!(s.frame_index(0), 45);
}

#[test]
fn texts_compare_by_characters() {
    assert!(same_text("identity", "identity"));
    assert!(!same_text("identity", "identit"));
    assert!(!same_text("reverse_quarter", "reverse_quartex"));
    assert!(same_text("", ""));
}

#[test]
fn cache_returns_the_decode_of_the_frame_shown() {
    // stands in for decoding frame i at a w by h size
    let decode = |i: usize, w: usize, h: usize| vec![i as u32 * 1000 + w as u32 * 10 + h as u32; w * h];
    let mut s = SequenceState::new(300, IndexTransform::Identity);
    assert!(s.shows_blank());
    s.set_dimensions(2, 1);
    assert!(!s.shows_blank());
    let mut in_background: Vec<(usize, Vec<u32>)> = Vec::new();
    for step in [0usize, 5, 150, 151, 299, 42, 0, 260] {
        let idx = s.frame_index(step);
        s.receive(std::mem::take(&mut in_background));
        for i in s.plan(idx) {
            in_background.push((i, decode(i, 2, 1)));
        }
        let shown = s.show_center(idx, |i| decode(i, 2, 1)).clone();
        assert_eq!(shown, decode(idx, 2, 1));
        assert_eq!(s.frame(idx), &decode(idx, 2, 1));
    }
    s.set_dimensions(1, 3);
    let idx = s.frame_index(7);
    assert!(!s.is_cached(idx));
    s.plan(idx);
    assert_eq!(s.show_center(idx, |i| decode(i, 1, 3)), &decode(idx, 1, 3));
}

#[test]
fn received_frames_are_cached_and_later_ones_win() {
    let mut s = SequenceState::new(10, IndexTransform::Identity);
    assert_eq!(s.plan(0), vec![0, 1, 9, 2, 8, 3, 7, 4, 6, 5]);
    s.receive(vec![(1, vec![1]), (2, vec![2]), (1, vec![11])]);
    assert_eq!(s.frame(1), &vec![11]);
    assert_eq!(s.frame(2), &vec![2]);
    // cached frames are shown without decoding again
    assert_eq!(s.show_center(2, |_| panic!("no decode needed")), &vec![2]);
    // the remaining frames are still pending, so planning requests nothing
    assert_eq!(s.plan(0), Vec::<usize>::new());
}
