use neuraltype::sheet::{proof_sheet, SHEET_COLS, SHEET_DEFAULT, SHEET_GAP};

#[test]
fn default_sheet_shows_the_first_fields() {
    assert_eq!((SHEET_GAP, SHEET_COLS, SHEET_DEFAULT), (4, 6, 24));
    // two 2x1 fields
    let bin = [1u8, 2, 3, 4];
    let (px, w, h) = proof_sheet(&bin, 2, 1, 2, &[]);
    assert_eq!((w, h), (12, 5));
    assert_eq!(px.len(), 60);
    assert_eq!(&px[..12], &[1, 2, 0, 0, 0, 0, 3, 4, 0, 0, 0, 0]);
    assert!(px[12..].iter().all(|&v| v == 0));
}

#[test]
fn named_fields_in_order() {
    let bin = [1u8, 2, 3, 4];
    let (px, w, h) = proof_sheet(&bin, 2, 1, 2, &[1]);
    assert_eq!((w, h), (6, 5));
    assert_eq!(&px[..6], &[3, 4, 0, 0, 0, 0]);
    let (px, w, _) = proof_sheet(&bin, 2, 1, 2, &[1, 0, 1]);
    assert_eq!(w, 18);
    assert_eq!(&px[..18], &[3, 4, 0, 0, 0, 0, 1, 2, 0, 0, 0, 0, 3, 4, 0, 0, 0, 0]);
}

#[test]
fn seven_fields_wrap_to_a_second_row() {
    // seven 1x1 fields
    let bin: Vec<u8> = (10..17).collect();
    let (px, w, h) = proof_sheet(&bin, 1, 1, 7, &[]);
    assert_eq!((w, h), (30, 10));
    for k in 0..6 {
        assert_eq!(px[k * 5], 10 + k as u8);
    }
    assert_eq!(px[5 * 30], 16);
    assert_eq!(px.iter().filter(|&&v| v != 0).count(), 7);
}
