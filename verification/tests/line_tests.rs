use neuraltype::art::{render, Class};
use neuraltype::line::{composite_line, fits_canvas, pen_offsets, teacher_glyph, LETTER_GAP, SPACE_ADV};
use neuraltype::{Form, GlyphImage, GRID_H, GRID_W};

#[test]
fn pen_moves_by_advances_spaces_and_gaps() {
    assert_eq!((SPACE_ADV, LETTER_GAP), (3, 1));
    let forms = [Some(Form::Isolated), None, Some(Form::Initial), Some(Form::Final)];
    let advs = [Some(3), None, Some(2), Some(4)];
    assert_eq!(pen_offsets(&forms, &advs), (vec![0, 4, 7, 9], 13));
}

#[test]
fn undrawable_letters_take_no_room() {
    let forms = [Some(Form::Isolated), Some(Form::Isolated)];
    let advs = [None, Some(5)];
    assert_eq!(pen_offsets(&forms, &advs), (vec![0, 0], 5));
    assert_eq!(pen_offsets(&[], &[]), (Vec::<u128>::new(), 0));
}

#[test]
fn composite_places_glyphs_from_the_right() {
    let mut img = GlyphImage::empty();
    img.set(15, 10);
    img.set(0, 0);
    let (cells, w) = composite_line(&[img.clone()], &[0], 16);
    assert_eq!(w, 16);
    assert_eq!(cells.len(), 16 * GRID_H);
    let on: Vec<usize> = (0..cells.len()).filter(|&i| cells[i]).collect();
    assert_eq!(on, vec![0, 10 * 16 + 15]);
    // a narrow line keeps only the ink that falls inside it
    let (cells, w) = composite_line(&[img.clone()], &[0], 3);
    assert_eq!(w, 3);
    let on: Vec<usize> = (0..cells.len()).filter(|&i| cells[i]).collect();
    assert_eq!(on, vec![10 * 3 + 2]);
    // a second glyph two cells further left
    let (cells, _) = composite_line(&[img.clone(), img], &[0, 2], 4);
    let on: Vec<usize> = (0..cells.len()).filter(|&i| cells[i]).collect();
    assert_eq!(on, vec![10 * 4 + 1, 10 * 4 + 3]);
    // an empty line is one cell wide
    let (cells, w) = composite_line(&[], &[], 0);
    assert_eq!((cells.len(), w), (GRID_H, 1));
}

#[test]
fn canvas_fit() {
    assert!(fits_canvas(Class::Beh, Form::Medial, 0));
    assert!(fits_canvas(Class::Beh, Form::Medial, GRID_W - 3));
    assert!(!fits_canvas(Class::Beh, Form::Medial, GRID_W - 2));
    assert!(fits_canvas(Class::Alef, Form::Isolated, 1_000_000));
    assert!(fits_canvas(Class::Alef, Form::Initial, 1_000_000));
}

#[test]
fn teacher_draws_known_letters() {
    let a = teacher_glyph('ب', Form::Medial, 1).unwrap();
    let b = render(Class::Beh, -1, Form::Medial, 1).unwrap();
    assert_eq!(a.cells, b.cells);
    assert_eq!(a.advance, b.advance);
    assert!(teacher_glyph(' ', Form::Isolated, 0).is_none());
    assert!(teacher_glyph('ا', Form::Initial, 0).is_none());
}
