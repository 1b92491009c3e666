use neuraltype::shape::{shaped_forms, visual_order, Dir};
use neuraltype::Form;

#[test]
fn ltr_text_is_reversed_wholesale() {
    let (v, rtl) = visual_order("ab", Dir::Auto);
    assert!(!rtl);
    assert_eq!(v, vec![(1, 'b'), (0, 'a')]);
}

#[test]
fn rtl_text_reverses_latin_runs_in_place() {
    let (v, rtl) = visual_order("بAB ب", Dir::Auto);
    assert!(rtl);
    assert_eq!(v, vec![(0, 'ب'), (2, 'B'), (1, 'A'), (3, ' '), (4, 'ب')]);
}

#[test]
fn explicit_direction_wins() {
    let (v, rtl) = visual_order("ab", Dir::Rtl);
    assert!(rtl);
    assert_eq!(v, vec![(1, 'b'), (0, 'a')]);
    let (v, rtl) = visual_order("بت", Dir::Ltr);
    assert!(!rtl);
    assert_eq!(v, vec![(1, 'ت'), (0, 'ب')]);
}

#[test]
fn lam_alef_fuses() {
    let (s, rtl) = shaped_forms("لا", Dir::Auto);
    assert!(rtl);
    assert_eq!(s, vec![(vec![0, 1], 'ﻻ', Some(Form::Isolated))]);
}

#[test]
fn joining_forms_of_a_word() {
    let (s, _) = shaped_forms("ببب", Dir::Auto);
    assert_eq!(
        s,
        vec![
            (vec![0], 'ب', Some(Form::Initial)),
            (vec![1], 'ب', Some(Form::Medial)),
            (vec![2], 'ب', Some(Form::Final)),
        ]
    );
}

#[test]
fn spaces_and_non_joiners_break_joining() {
    let (s, _) = shaped_forms("ب ب", Dir::Auto);
    assert_eq!(
        s,
        vec![
            (vec![0], 'ب', Some(Form::Isolated)),
            (vec![1], ' ', None),
            (vec![2], 'ب', Some(Form::Isolated)),
        ]
    );
    // alef never joins forward
    let (s, _) = shaped_forms("ابا", Dir::Auto);
    assert_eq!(
        s,
        vec![
            (vec![0], 'ا', Some(Form::Isolated)),
            (vec![1], 'ب', Some(Form::Initial)),
            (vec![2], 'ا', Some(Form::Final)),
        ]
    );
}

#[test]
fn every_character_appears_once_in_visual_order() {
    let text = "سلام Hi!";
    let (v, _) = visual_order(text, Dir::Auto);
    let mut idx: Vec<usize> = v.iter().map(|p| p.0).collect();
    idx.sort();
    assert_eq!(idx, (0..text.chars().count()).collect::<Vec<_>>());
}

#[test]
fn shaping_covers_every_index_once() {
    let text = "سلام ab";
    let chars: Vec<char> = text.chars().collect();
    let (s, _) = shaped_forms(text, Dir::Auto);
    let mut idx: Vec<usize> = s.iter().flat_map(|g| g.0.iter().copied()).collect();
    idx.sort();
    assert_eq!(idx, (0..chars.len()).collect::<Vec<_>>());
    for g in &s {
        if g.0.len() == 1 {
            assert_eq!(g.1, chars[g.0[0]]);
        } else {
            assert_eq!(g.1, '\u{FEFB}');
            assert_eq!((chars[g.0[0]], chars[g.0[1]]), ('ل', 'ا'));
        }
    }
}
