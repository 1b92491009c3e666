use neuraltype::shaping::{
    byte_offsets, cluster_order, cluster_runs, distinct_sorted, extract_clusters, extract_word, glyph_positions,
    shape_and_place, PlacedGlyph, ShapedGlyph,
};

fn g(gid: u32, cluster: u32, x_offset: i32, y_offset: i32, x_advance: i32) -> ShapedGlyph {
    ShapedGlyph { gid, cluster, x_offset, y_offset, x_advance }
}

#[test]
fn utf8_offsets() {
    let w: Vec<char> = "aبc€😀".chars().collect();
    assert_eq!(byte_offsets(&w), (vec![0, 1, 3, 4, 7], 11));
    assert_eq!(byte_offsets(&[]), (Vec::<usize>::new(), 0));
}

#[test]
fn pen_accumulates_advances() {
    let gs = [g(5, 2, 0, 0, 300), g(7, 0, 0, 0, 500), g(9, 0, -200, 100, 0)];
    assert_eq!(glyph_positions(&gs), vec![(0, 0), (300, 0), (600, 100)]);
}

#[test]
fn clusters_in_logical_order() {
    let gs = [g(5, 4, 0, 0, 0), g(7, 0, 0, 0, 0), g(9, 4, 0, 0, 0), g(1, 2, 0, 0, 0)];
    assert_eq!(cluster_order(&gs), vec![0, 2, 4]);
    assert_eq!(distinct_sorted(&[5, 3, 5, 1]), vec![1, 3, 5]);
}

#[test]
fn cluster_records_of_a_two_letter_word() {
    let word: Vec<char> = "با".chars().collect();
    // visual order: alef (cluster 2) first, then beh (cluster 0) with a mark
    let gs = [g(5, 2, 0, 0, 300), g(7, 0, 0, 0, 500), g(9, 0, -200, 100, 0)];
    let recs = extract_clusters(&word, &gs);
    assert_eq!(recs.len(), 2);

    let a = &recs[0];
    assert_eq!(a.letters, vec!['ب']);
    assert_eq!(a.index, 0);
    assert_eq!((a.prev, a.prev2, a.next, a.next2), (None, None, Some('ا'), None));
    assert_eq!(
        a.glyphs,
        vec![PlacedGlyph { gid: 7, dx: 0, dy: 0 }, PlacedGlyph { gid: 9, dx: 300, dy: 100 }]
    );
    assert_eq!((a.ddx, a.ddy, a.ox, a.oy), (None, None, 300, 0));

    let b = &recs[1];
    assert_eq!(b.letters, vec!['ا']);
    assert_eq!(b.index, 1);
    assert_eq!((b.prev, b.prev2, b.next, b.next2), (Some('ب'), None, None, None));
    assert_eq!(b.glyphs, vec![PlacedGlyph { gid: 5, dx: 0, dy: 0 }]);
    assert_eq!((b.ddx, b.ddy, b.ox, b.oy), (Some(-300), Some(0), 0, 0));
}

#[test]
fn ligature_cluster_covers_both_letters() {
    // لا shaped as one glyph for cluster 0; the word continues with ب
    let word: Vec<char> = "لاب".chars().collect();
    let gs = [g(3, 4, 0, 0, 400), g(8, 0, 0, 0, 600)];
    let recs = extract_clusters(&word, &gs);
    assert_eq!(recs.len(), 2);
    assert_eq!(recs[0].letters, vec!['ل', 'ا']);
    assert_eq!((recs[0].next, recs[0].next2), (Some('ب'), None));
    assert_eq!(recs[1].letters, vec!['ب']);
    assert_eq!((recs[1].prev, recs[1].prev2), (Some('ا'), Some('ل')));
    assert_eq!((recs[1].ddx, recs[1].ddy), (Some(-400), Some(0)));
}

#[test]
fn unreadable_font_shapes_nothing() {
    let word: Vec<char> = "با".chars().collect();
    assert!(extract_word(b"not a font at all", &word).is_none());
    assert!(extract_word(b"", &word).is_none());
}

#[test]
fn runs_of_one_cluster() {
    let gs = vec![g(1, 4, 0, 0, 5), g(2, 4, 0, 0, 0), g(3, 2, 0, 0, 7), g(4, 0, 0, 0, 3), g(5, 0, 1, 1, 0)];
    assert_eq!(cluster_runs(&gs), vec![(0, 2), (2, 3), (3, 5)]);
    assert_eq!(cluster_runs(&[]), Vec::<(usize, usize)>::new());
}

#[test]
fn unreadable_font_places_nothing() {
    let word: Vec<char> = "با".chars().collect();
    assert!(shape_and_place(b"not a font at all", &word).is_none());
}

#[test]
fn records_spell_the_word() {
    // سلام: the lam-alef ligature is one cluster of two letters
    let word: Vec<char> = "سلام".chars().collect();
    let gs = vec![g(9, 6, 0, 0, 300), g(7, 2, 0, 0, 400), g(5, 0, 0, 0, 350)];
    let recs = extract_clusters(&word, &gs);
    let spelled: Vec<char> = recs.iter().flat_map(|r| r.letters.iter().copied()).collect();
    assert_eq!(spelled, word);
    assert_eq!(recs.len(), 3);
    assert_eq!(recs[1].letters, vec!['ل', 'ا']);
}
