use neuraltype::contour::{cell_segments, chain_segments, CHAIN_STEPS};

#[test]
fn cell_cases() {
    // nothing or everything inside: no crossing
    assert!(cell_segments(false, false, false, false, false).is_empty());
    assert!(cell_segments(true, true, true, true, true).is_empty());
    // top-left corner inside: from the top side to the left side
    assert_eq!(cell_segments(true, false, false, false, false), vec![(0, 3)]);
    // bottom half inside: from the left side to the right side
    assert_eq!(cell_segments(false, false, true, true, false), vec![(3, 1)]);
    // saddles follow the centre
    assert_eq!(cell_segments(true, false, true, false, true), vec![(0, 1), (2, 3)]);
    assert_eq!(cell_segments(true, false, true, false, false), vec![(0, 3), (2, 1)]);
    assert_eq!(cell_segments(false, true, false, true, true), vec![(1, 2), (3, 0)]);
    assert_eq!(cell_segments(false, true, false, true, false), vec![(1, 0), (3, 2)]);
}

#[test]
fn closed_loop() {
    assert_eq!(CHAIN_STEPS, 1_000_000);
    let starts = [(0, 0), (1, 0)];
    let ends = [(1, 0), (0, 0)];
    assert_eq!(chain_segments(&starts, &ends), (vec![vec![0, 1]], vec![false]));
}

#[test]
fn dead_ends_draw_their_last_point() {
    let starts = [(0, 0), (5, 5)];
    let ends = [(1, 0), (6, 6)];
    assert_eq!(chain_segments(&starts, &ends), (vec![vec![0], vec![1]], vec![true, true]));
}

#[test]
fn later_segments_are_taken_first() {
    let starts = [(0, 0), (0, 0), (1, 0), (2, 0)];
    let ends = [(1, 0), (2, 0), (0, 0), (0, 0)];
    assert_eq!(
        chain_segments(&starts, &ends),
        (vec![vec![1, 3], vec![0, 2]], vec![false, false])
    );
    assert_eq!(chain_segments(&[], &[]), (Vec::<Vec<usize>>::new(), Vec::<bool>::new()));
}
