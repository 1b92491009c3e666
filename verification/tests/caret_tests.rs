use neuraltype::caret::{
    cluster_starts, fill_gaps, ink_bounds, selection_mask, selection_touches, word_spans,
};

#[test]
fn words_split_at_single_spaces() {
    let t: Vec<char> = "ab  c".chars().collect();
    assert_eq!(word_spans(&t), vec![(0, 2), (3, 0), (4, 1)]);
    assert_eq!(word_spans(&[]), vec![(0, 0)]);
    let t: Vec<char> = " x ".chars().collect();
    assert_eq!(word_spans(&t), vec![(0, 0), (1, 1), (3, 0)]);
}

#[test]
fn cluster_caret_indices() {
    assert_eq!(cluster_starts(5, &[1, 2, 1]), vec![5, 6, 8]);
    assert_eq!(cluster_starts(0, &[]), Vec::<usize>::new());
}

#[test]
fn selection_touches_clusters() {
    assert_eq!(selection_mask(5, &[1, 2, 1], 6, 7), vec![false, true, false]);
    assert_eq!(selection_mask(5, &[1, 2, 1], 0, 100), vec![true, true, true]);
    assert_eq!(selection_mask(5, &[1, 2, 1], 9, 12), vec![false, false, false]);
    assert!(selection_touches(5, 4, 0, 6));
    assert!(!selection_touches(5, 4, 9, 12));
    assert!(!selection_touches(5, 4, 2, 5));
}

#[test]
fn gaps_take_the_nearest_placed_slot() {
    assert_eq!(
        fill_gaps(&[false, true, false, false, true, false]),
        vec![Some(1), Some(1), Some(1), Some(1), Some(4), Some(4)]
    );
    assert_eq!(fill_gaps(&[false, false]), vec![None, None]);
    assert_eq!(fill_gaps(&[]), Vec::<Option<usize>>::new());
    assert_eq!(fill_gaps(&[true]), vec![Some(0)]);
}

#[test]
fn ink_box() {
    let cells = [false, true, false, false, true, true];
    assert_eq!(ink_bounds(3, 2, &cells), Some((1, 2, 0, 1)));
    assert_eq!(ink_bounds(3, 2, &[false; 6]), None);
    assert_eq!(ink_bounds(0, 0, &[]), None);
}
