use neuraltype::{all_forms, Form, GlyphImage, BASELINE_ROW, GRID_H, GRID_W, MAX_ELONG};

#[test]
fn forms_in_order() {
    let f = all_forms();
    assert_eq!(f, [Form::Isolated, Form::Initial, Form::Medial, Form::Final]);
    for (i, form) in f.iter().enumerate() {
        assert_eq!(form.index(), i);
    }
    assert!(!Form::Isolated.joins_prev());
    assert!(!Form::Initial.joins_prev());
    assert!(Form::Medial.joins_prev());
    assert!(Form::Final.joins_prev());
}

#[test]
fn canvas_constants() {
    assert_eq!((GRID_W, GRID_H, BASELINE_ROW, MAX_ELONG), (16, 14, 10, 4));
}

#[test]
fn glyph_image_cells() {
    let mut img = GlyphImage::empty();
    assert_eq!(img.cells.len(), GRID_W * GRID_H);
    assert_eq!(img.advance, 0);
    assert!(!img.get(3, 4));
    img.set(3, 4);
    assert!(img.get(3, 4));
    assert!(img.cells[4 * GRID_W + 3]);
    // writes and reads off the canvas are ignored
    img.set(GRID_W, 0);
    img.set(0, GRID_H);
    assert!(!img.get(GRID_W, 0));
    assert_eq!(img.cells.iter().filter(|&&c| c).count(), 1);
}
