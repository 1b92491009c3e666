use neuraltype::art::{
    alphabet, canonical_char, class_art, elongatable, joins_left, joins_right, latin_art,
    letter_of_char, render, Class,
};
use neuraltype::{Form, GlyphImage, GRID_H, GRID_W};

fn inked(img: &GlyphImage) -> Vec<(usize, usize)> {
    let mut v = Vec::new();
    for y in 0..GRID_H {
        for x in 0..GRID_W {
            if img.get(x, y) {
                v.push((x, y));
            }
        }
    }
    v
}

#[test]
fn letters_map_to_classes_and_dots() {
    assert_eq!(letter_of_char('ب'), Some((Class::Beh, -1)));
    assert_eq!(letter_of_char('ث'), Some((Class::Beh, 3)));
    assert_eq!(letter_of_char('ي'), Some((Class::Yeh, -2)));
    assert_eq!(letter_of_char('ﻻ'), Some((Class::LamAlef, 0)));
    assert_eq!(letter_of_char('a'), Some((Class::Latin(0), 0)));
    assert_eq!(letter_of_char('Z'), Some((Class::Latin(25), 0)));
    assert_eq!(letter_of_char('1'), None);
    assert_eq!(letter_of_char(' '), None);
}

#[test]
fn canonical_forms_fold_variants() {
    assert_eq!(canonical_char('أ'), 'ا');
    assert_eq!(canonical_char('ؤ'), 'و');
    assert_eq!(canonical_char('ئ'), 'ي');
    assert_eq!(canonical_char('ﻼ'), 'ﻻ');
    assert_eq!(canonical_char('q'), 'Q');
    assert_eq!(canonical_char('ب'), 'ب');
    // every folded character is in the alphabet
    let alpha = alphabet();
    for c in ['أ', 'ؤ', 'ئ', 'ﻼ', 'q', 'ب'] {
        assert!(alpha.contains(&canonical_char(c)));
    }
}

#[test]
fn joining_classes() {
    assert!(!joins_left(Class::Alef));
    assert!(!joins_left(Class::Reh));
    assert!(!joins_left(Class::Latin(3)));
    assert!(joins_left(Class::Beh));
    assert!(joins_right(Class::Alef));
    assert!(!joins_right(Class::Hamza));
    assert!(!joins_right(Class::Latin(0)));
}

#[test]
fn elongation_applies_to_joined_arabic_and_latin_strokes() {
    assert!(elongatable(Class::Beh, Form::Medial));
    assert!(elongatable(Class::Beh, Form::Final));
    assert!(!elongatable(Class::Beh, Form::Initial));
    assert!(!elongatable(Class::Beh, Form::Isolated));
    // a Latin letter stretches only when its art names a stretch column
    let (_, col) = latin_art(0);
    assert_eq!(elongatable(Class::Latin(0), Form::Isolated), col.is_some());
    assert!(!elongatable(Class::Latin(0), Form::Final));
}

#[test]
fn alphabet_has_arabic_ligature_and_latin() {
    let a = alphabet();
    assert_eq!(a.len(), 58);
    assert_eq!(a[0], 'ا');
    assert_eq!(a[31], 'ﻻ');
    assert_eq!(a[32], 'A');
    assert_eq!(a[57], 'Z');
}

#[test]
fn art_exists_only_for_possible_forms() {
    assert!(class_art(Class::Alef, Form::Isolated).is_some());
    assert!(class_art(Class::Alef, Form::Final).is_some());
    assert!(class_art(Class::Alef, Form::Initial).is_none());
    assert!(class_art(Class::Alef, Form::Medial).is_none());
    assert!(class_art(Class::Beh, Form::Medial).is_some());
    let beh = class_art(Class::Beh, Form::Medial).unwrap();
    assert_eq!(beh.top, 8);
    assert_eq!(beh.rows, &[".#.", ".#.", "###"]);
}

#[test]
fn render_beh_medial() {
    let img = render(Class::Beh, -1, Form::Medial, 0).unwrap();
    assert_eq!(img.advance, 3);
    assert_eq!(
        inked(&img),
        vec![(14, 8), (14, 9), (13, 10), (14, 10), (15, 10), (14, 12)]
    );
}

#[test]
fn render_kashida_widens_and_extends_baseline() {
    let img = render(Class::Beh, -1, Form::Medial, 2).unwrap();
    assert_eq!(img.advance, 5);
    assert_eq!(
        inked(&img),
        vec![(12, 8), (12, 9), (11, 10), (12, 10), (13, 10), (14, 10), (15, 10), (12, 12)]
    );
}

#[test]
fn render_alef_isolated() {
    let img = render(Class::Alef, 0, Form::Isolated, 0).unwrap();
    assert_eq!(img.advance, 1);
    let expect: Vec<(usize, usize)> = (2..11).map(|y| (15, y)).collect();
    assert_eq!(inked(&img), expect);
}

#[test]
fn render_without_art_is_none() {
    assert!(render(Class::Alef, 0, Form::Medial, 0).is_none());
    assert!(render(Class::Hamza, 0, Form::Initial, 0).is_none());
}

#[test]
fn joined_forms_touch_the_connection_rows() {
    // a medial form has ink at the right edge of the baseline (entry)
    // and at the left edge of its advance box (exit)
    let img = render(Class::Beh, 2, Form::Medial, 0).unwrap();
    assert!(img.get(GRID_W - 1, 10));
    assert!(img.get(GRID_W - img.advance, 10));
}

#[test]
fn teacher_draws_every_listed_context() {
    let ctx = neuraltype::art::teacher_contexts();
    let letters = alphabet();
    assert_eq!(&ctx[..6], &[
        (0, Form::Isolated, 0),
        (0, Form::Final, 0),
        (0, Form::Final, 1),
        (0, Form::Final, 2),
        (0, Form::Final, 3),
        (0, Form::Final, 4),
    ]);
    assert_eq!(ctx.iter().filter(|c| c.0 == 1).count(), 12);
    for &(li, form, e) in &ctx {
        let (class, dots) = letter_of_char(letters[li]).unwrap();
        assert!(render(class, dots, form, e).is_some());
    }
}

#[test]
fn latin_stretch_keeps_stems_thin() {
    // no stretch column has ink in two vertically adjacent rows
    for i in 0..26u8 {
        let (rows, col) = latin_art(i);
        if let Some(c) = col {
            for r in 0..rows.len() - 1 {
                let a = rows[r].as_bytes()[c] == b'#';
                let b = rows[r + 1].as_bytes()[c] == b'#';
                assert!(!(a && b), "letter {i} rows {r}");
            }
        }
    }
}

#[test]
fn dots_stay_apart() {
    // theh's three dots and the body: no dot touches another inked cell
    let body = render(Class::Beh, 0, Form::Isolated, 0).unwrap();
    let img = render(Class::Beh, 3, Form::Isolated, 0).unwrap();
    let ink = inked(&img);
    let dots: Vec<(usize, usize)> = ink.iter().copied().filter(|&(x, y)| !body.get(x, y)).collect();
    assert!(!dots.is_empty());
    for &(x, y) in &dots {
        for (nx, ny) in [(x + 1, y), (x.wrapping_sub(1), y), (x, y + 1), (x, y.wrapping_sub(1))] {
            assert!(!(nx < GRID_W && ny < GRID_H && img.get(nx, ny)), "dot at {x},{y}");
        }
    }
}
