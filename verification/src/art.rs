//! The "teacher": procedural square-Kufic letterforms on a grid.
//!
//! Each letter class is authored as ASCII art (one string per grid
//! row, `#` = filled cell, `o` = dot anchor), exactly like a classic
//! square-Kufic chart. The teacher composes base form art, i'jam dots
//! and kashida elongation into a `GlyphImage`.
//!
//! Conventions:
//! - Strokes are 1 cell wide; counters/gaps are 1 cell.
//! - The baseline stroke sits on `BASELINE_ROW`; rows below are the
//!   descender zone.
//! - Entry (connection from the previous letter) is at the RIGHT edge
//!   on the baseline row; exit (to the next letter) at the LEFT edge.
//! - Bodies are right-aligned on the canvas; kashida elongation
//!   inserts baseline columns at the right (entry) side.
use vstd::prelude::*;

use crate::{cell_at, on_canvas, Form, GlyphImage, BASELINE_ROW, GRID_H, GRID_W, MAX_ELONG};

verus! {

/// A letter-class skeleton (rasm), shared by all letters that differ
/// only in dots.
#[derive(Clone, Copy, Debug, PartialEq, Eq, Hash, Structural)]
pub enum Class {
    Alef,
    Beh,
    Jeem,
    Dal,
    Reh,
    Seen,
    Sad,
    Tah,
    Ain,
    Feh,
    Qaf,
    Kaf,
    Lam,
    Meem,
    Noon,
    Heh,
    Waw,
    Yeh,
    /// Standalone hamza: a small non-joining mark on the baseline.
    Hamza,
    /// The lam-alef ligature: lam + alef fuse into one glyph.
    LamAlef,
    /// Latin capital, 0 = A ... 25 = Z. One form, no joining.
    Latin(u8),
}

/// Dots: positive = n dots above, negative = n dots below, 0 = none.
pub type Dots = i8;

/// ASCII art for one contextual form: `rows[0]` is grid row `top`.
pub struct FormArt {
    pub top: usize,
    pub rows: &'static [&'static str],
}

/// The characters of each art row.
pub open spec fn grid_of(rows: Seq<&'static str>) -> Seq<Seq<char>> {
    rows.map_values(|s: &'static str| s@)
}

impl FormArt {
    /// The art's rows as character grids.
    pub open spec fn grid(&self) -> Seq<Seq<char>> {
        grid_of(self.rows@)
    }
}

/// The letter class and dots of each supported codepoint.
pub open spec fn spec_letter_of_char(c: char) -> Option<(Class, Dots)> {
    match c {
        'ا' | 'أ' | 'إ' | 'آ' => Some((Class::Alef, 0)),
        'ب' => Some((Class::Beh, -1i8)),
        'ت' => Some((Class::Beh, 2)),
        'ث' => Some((Class::Beh, 3)),
        'ج' => Some((Class::Jeem, -1i8)),
        'ح' => Some((Class::Jeem, 0)),
        'خ' => Some((Class::Jeem, 1)),
        'د' => Some((Class::Dal, 0)),
        'ذ' => Some((Class::Dal, 1)),
        'ر' => Some((Class::Reh, 0)),
        'ز' => Some((Class::Reh, 1)),
        'س' => Some((Class::Seen, 0)),
        'ش' => Some((Class::Seen, 3)),
        'ص' => Some((Class::Sad, 0)),
        'ض' => Some((Class::Sad, 1)),
        'ط' => Some((Class::Tah, 0)),
        'ظ' => Some((Class::Tah, 1)),
        'ع' => Some((Class::Ain, 0)),
        'غ' => Some((Class::Ain, 1)),
        'ف' => Some((Class::Feh, 1)),
        'ق' => Some((Class::Qaf, 2)),
        'ك' => Some((Class::Kaf, 0)),
        'ل' => Some((Class::Lam, 0)),
        'م' => Some((Class::Meem, 0)),
        'ن' => Some((Class::Noon, 1)),
        'ه' => Some((Class::Heh, 0)),
        'ة' => Some((Class::Heh, 2)),
        'و' | 'ؤ' => Some((Class::Waw, 0)),
        'ي' | 'ئ' => Some((Class::Yeh, -2i8)),
        'ى' => Some((Class::Yeh, 0)),
        'ء' => Some((Class::Hamza, 0)),
        'ﻻ' | 'ﻼ' => Some((Class::LamAlef, 0)),
        'A'..='Z' => Some((Class::Latin(((c as u32) - 65) as u8), 0)),
        'a'..='z' => Some((Class::Latin(((c as u32) - 97) as u8), 0)),
        _ => None,
    }
}

/// Map a Unicode codepoint to (letter class, dots). Returns None for
/// unsupported characters.
pub fn letter_of_char(c: char) -> (r: Option<(Class, Dots)>)
    ensures
        r == spec_letter_of_char(c),
{
    match c {
        'ا' | 'أ' | 'إ' | 'آ' => Some((Class::Alef, 0)),
        'ب' => Some((Class::Beh, -1)),
        'ت' => Some((Class::Beh, 2)),
        'ث' => Some((Class::Beh, 3)),
        'ج' => Some((Class::Jeem, -1)),
        'ح' => Some((Class::Jeem, 0)),
        'خ' => Some((Class::Jeem, 1)),
        'د' => Some((Class::Dal, 0)),
        'ذ' => Some((Class::Dal, 1)),
        'ر' => Some((Class::Reh, 0)),
        'ز' => Some((Class::Reh, 1)),
        'س' => Some((Class::Seen, 0)),
        'ش' => Some((Class::Seen, 3)),
        'ص' => Some((Class::Sad, 0)),
        'ض' => Some((Class::Sad, 1)),
        'ط' => Some((Class::Tah, 0)),
        'ظ' => Some((Class::Tah, 1)),
        'ع' => Some((Class::Ain, 0)),
        'غ' => Some((Class::Ain, 1)),
        'ف' => Some((Class::Feh, 1)),
        'ق' => Some((Class::Qaf, 2)),
        'ك' => Some((Class::Kaf, 0)),
        'ل' => Some((Class::Lam, 0)),
        'م' => Some((Class::Meem, 0)),
        'ن' => Some((Class::Noon, 1)),
        'ه' => Some((Class::Heh, 0)),
        'ة' => Some((Class::Heh, 2)),
        'و' | 'ؤ' => Some((Class::Waw, 0)),
        'ي' | 'ئ' => Some((Class::Yeh, -2)),
        'ى' => Some((Class::Yeh, 0)),
        'ء' => Some((Class::Hamza, 0)),
        'ﻻ' | 'ﻼ' => Some((Class::LamAlef, 0)),
        'A'..='Z' => Some((Class::Latin((c as u8) - 65u8), 0)),
        'a'..='z' => Some((Class::Latin((c as u8) - 97u8), 0)),
        _ => None,
    }
}

/// The alphabet codepoint a supported character folds onto.
pub open spec fn spec_canonical_char(c: char) -> char {
    match c {
        'أ' | 'إ' | 'آ' => 'ا',
        'ؤ' => 'و',
        'ئ' => 'ي',
        'ﻼ' => 'ﻻ',
        'a'..='z' => ((c as u32) - 32) as char,
        _ => c,
    }
}

/// Canonical alphabet codepoint for a supported character: hamza
/// carriers and presentation forms fold onto the base letter the
/// model was trained on.
pub fn canonical_char(c: char) -> (r: char)
    ensures
        r == spec_canonical_char(c),
{
    match c {
        'أ' | 'إ' | 'آ' => 'ا',
        'ؤ' => 'و',
        'ئ' => 'ي',
        'ﻼ' => 'ﻻ',
        'a'..='z' => ((c as u8) - 32u8) as char,
        _ => c,
    }
}

/// Letters that connect to the following (left) letter.
pub open spec fn spec_joins_left(class: Class) -> bool {
    !(class is Alef || class is Dal || class is Reh || class is Waw || class is Hamza
        || class is LamAlef || class is Latin)
}

/// Letters that can receive a connection from the preceding letter.
pub open spec fn spec_joins_right(class: Class) -> bool {
    !(class is Latin || class is Hamza)
}

/// Letters that never connect to the following (left) letter.
pub fn joins_left(class: Class) -> (r: bool)
    ensures
        r == spec_joins_left(class),
{
    match class {
        Class::Alef | Class::Dal | Class::Reh | Class::Waw | Class::Hamza | Class::LamAlef
        | Class::Latin(_) => false,
        _ => true,
    }
}

/// Letters that can receive a connection from the preceding letter.
pub fn joins_right(class: Class) -> (r: bool)
    ensures
        r == spec_joins_right(class),
{
    match class {
        Class::Latin(_) | Class::Hamza => false,
        _ => true,
    }
}

/// Does elongation apply to this glyph? Arabic stretches the baseline
/// connection (kashida) on joined forms; Latin stretches a designated
/// column of its single form.
pub open spec fn spec_elongatable(class: Class, form: Form) -> bool {
    match class {
        Class::Latin(i) => form is Isolated && spec_latin_art(i).1 is Some,
        _ => form.spec_joins_prev(),
    }
}

/// Can the teacher stretch this class in this form with kashida?
pub fn elongatable(class: Class, form: Form) -> (r: bool)
    ensures
        r == spec_elongatable(class, form),
{
    match class {
        Class::Latin(i) => form == Form::Isolated && latin_art(i).1.is_some(),
        _ => form.joins_prev(),
    }
}

/// The full inventory of supported codepoints (the model's alphabet).
pub open spec fn spec_alphabet() -> Seq<char> {
    seq![
        'ا', 'ب', 'ت', 'ث', 'ج', 'ح', 'خ', 'د', 'ذ', 'ر', 'ز', 'س', 'ش', 'ص', 'ض', 'ط', 'ظ',
        'ع', 'غ', 'ف', 'ق', 'ك', 'ل', 'م', 'ن', 'ه', 'ة', 'و', 'ي', 'ى', 'ء', 'ﻻ', 'A', 'B',
        'C', 'D', 'E', 'F', 'G', 'H', 'I', 'J', 'K', 'L', 'M', 'N', 'O', 'P', 'Q', 'R', 'S',
        'T', 'U', 'V', 'W', 'X', 'Y', 'Z',
    ]
}

/// The model's alphabet, index = model letter id.
pub fn alphabet() -> (r: Vec<char>)
    ensures
        r@ == spec_alphabet(),
{
    let r = vec![
        'ا', 'ب', 'ت', 'ث', 'ج', 'ح', 'خ', 'د', 'ذ', 'ر', 'ز', 'س', 'ش', 'ص', 'ض', 'ط', 'ظ',
        'ع', 'غ', 'ف', 'ق', 'ك', 'ل', 'م', 'ن', 'ه', 'ة', 'و', 'ي', 'ى', 'ء', 'ﻻ', 'A', 'B',
        'C', 'D', 'E', 'F', 'G', 'H', 'I', 'J', 'K', 'L', 'M', 'N', 'O', 'P', 'Q', 'R', 'S',
        'T', 'U', 'V', 'W', 'X', 'Y', 'Z',
    ];
    assert(r@ =~= spec_alphabet());
    r
}

/// The authored art of each (class, form): top row and row strings.
/// None = this class does not occur in this form (right-joiners have
/// no initial/medial forms).
pub open spec fn spec_class_art(class: Class, form: Form) -> Option<(nat, Seq<Seq<char>>)> {
    match (class, form) {
        (Class::Alef, Form::Isolated) => Some((2, seq!["#"@, "#"@, "#"@, "#"@, "#"@, "#"@, "#"@, "#"@, "#"@])),
        (Class::Alef, Form::Final) => Some((2, seq!["#.."@, "#.."@, "#.."@, "#.."@, "#.."@, "#.."@, "#.."@, "#.."@, "###"@])),
        (Class::Alef, _) => None,
        (Class::Beh, Form::Isolated) => Some((8, seq!["#...#"@, "#...#"@, "#####"@])),
        (Class::Beh, Form::Final) => Some((8, seq!["#...#."@, "#...#."@, "######"@])),
        (Class::Beh, Form::Initial) => Some((8, seq!["..#"@, "..#"@, "###"@])),
        (Class::Beh, Form::Medial) => Some((8, seq![".#."@, ".#."@, "###"@])),
        (Class::Noon, Form::Isolated) => Some((8, seq!["#...#"@, "#...#"@, "#...#"@, "#...#"@, "#####"@])),
        (Class::Noon, Form::Final) => Some((8, seq!["#...#."@, "#...#."@, "#...##"@, "#...#."@, "#####."@])),
        (Class::Noon, Form::Initial) => Some((8, seq!["..#"@, "..#"@, "###"@])),
        (Class::Noon, Form::Medial) => Some((8, seq![".#."@, ".#."@, "###"@])),
        (Class::Yeh, Form::Isolated) => Some((10, seq!["..###"@, "..#.."@, "###.."@])),
        (Class::Yeh, Form::Final) => Some((10, seq!["...###"@, "...#.."@, "####.."@])),
        (Class::Yeh, Form::Initial) => Some((8, seq!["..#"@, "..#"@, "###"@])),
        (Class::Yeh, Form::Medial) => Some((8, seq![".#."@, ".#."@, "###"@])),
        (Class::Jeem, Form::Isolated) => Some((8, seq!["####."@, "#...."@, "#####"@, "#...."@, "####."@])),
        (Class::Jeem, Form::Final) => Some((8, seq!["####.."@, "#....."@, "######"@, "#....."@, "####.."@])),
        (Class::Jeem, Form::Initial) => Some((8, seq![".####"@, ".#..."@, "#####"@])),
        (Class::Jeem, Form::Medial) => Some((8, seq![".####."@, ".#...."@, "######"@])),
        (Class::Dal, Form::Isolated) => Some((8, seq!["...#"@, "...#"@, "####"@])),
        (Class::Dal, Form::Final) => Some((8, seq!["...#."@, "...#."@, "#####"@])),
        (Class::Dal, _) => None,
        (Class::Reh, Form::Isolated) => Some((10, seq!["...#"@, "...#"@, "####"@])),
        (Class::Reh, Form::Final) => Some((10, seq!["...##"@, "...#."@, "####."@])),
        (Class::Reh, _) => None,
        (Class::Seen, Form::Isolated) => Some((9, seq!["..#.#.#"@, "#######"@, "#......"@, "####..."@])),
        (Class::Seen, Form::Final) => Some((9, seq!["..#.#.#."@, "########"@, "#......."@, "####...."@])),
        (Class::Seen, Form::Initial) => Some((9, seq![".#.#.#"@, "######"@])),
        (Class::Seen, Form::Medial) => Some((9, seq![".#.#.#"@, "######"@])),
        (Class::Sad, Form::Isolated) => Some((8, seq!["..###"@, "..#.#"@, "#####"@])),
        (Class::Sad, Form::Final) => Some((8, seq!["..###."@, "..#.#."@, "######"@, "#....."@, "####.."@])),
        (Class::Sad, Form::Initial) => Some((8, seq!["..###"@, "..#.#"@, "#####"@])),
        (Class::Sad, Form::Medial) => Some((8, seq![".###."@, ".#.#."@, "#####"@])),
        (Class::Tah, Form::Isolated) | (Class::Tah, Form::Initial) | (Class::Tah, Form::Medial) | (Class::Tah, Form::Final) => Some((6, seq![".#..."@, ".#..."@, ".###."@, ".#.#."@, "#####"@])),
        (Class::Ain, Form::Isolated) => Some((8, seq!["####"@, "#..."@, "####"@, "#..."@, "###."@])),
        (Class::Ain, Form::Final) => Some((8, seq![".###."@, ".#.#."@, "#####"@, "#...."@, "####."@])),
        (Class::Ain, Form::Initial) => Some((8, seq![".###"@, ".#.."@, "####"@])),
        (Class::Ain, Form::Medial) => Some((8, seq![".###."@, ".#.#."@, "#####"@])),
        (Class::Feh, Form::Isolated) => Some((6, seq!["....o."@, "......"@, "#..###"@, "#..#.#"@, "######"@])),
        (Class::Feh, Form::Final) => Some((6, seq!["....o.."@, "......."@, "#..###."@, "#..#.#."@, "#######"@])),
        (Class::Feh, Form::Initial) => Some((6, seq!["..o."@, "...."@, ".###"@, ".#.#"@, "####"@])),
        (Class::Feh, Form::Medial) => Some((6, seq!["..o.."@, "....."@, ".###."@, ".#.#."@, "#####"@])),
        (Class::Qaf, Form::Isolated) => Some((6, seq!["....o."@, "......"@, "#..###"@, "#..#.#"@, "######"@, "#....."@, "#####."@])),
        (Class::Qaf, Form::Final) => Some((6, seq!["....o.."@, "......."@, "#..###."@, "#..#.#."@, "#..####"@, "#......"@, "######."@])),
        (Class::Qaf, Form::Initial) => Some((6, seq!["..o."@, "...."@, ".###"@, ".#.#"@, "####"@])),
        (Class::Qaf, Form::Medial) => Some((6, seq!["..o.."@, "....."@, ".###."@, ".#.#."@, "#####"@])),
        (Class::Kaf, Form::Isolated) => Some((6, seq!["...#"@, "...#"@, "####"@, "#..."@, "####"@])),
        (Class::Kaf, Form::Initial) => Some((6, seq!["....#"@, "....#"@, ".####"@, ".#..."@, "#####"@])),
        (Class::Kaf, Form::Medial) => Some((6, seq!["....#."@, "....#."@, ".####."@, ".#...."@, "######"@])),
        (Class::Kaf, Form::Final) => Some((6, seq!["...#."@, "...#."@, "####."@, "#...."@, "#####"@])),
        (Class::Lam, Form::Isolated) => Some((2, seq!["...#"@, "...#"@, "...#"@, "...#"@, "...#"@, "...#"@, "...#"@, "...#"@, "####"@])),
        (Class::Lam, Form::Initial) => Some((2, seq!["..#"@, "..#"@, "..#"@, "..#"@, "..#"@, "..#"@, "..#"@, "..#"@, "###"@])),
        (Class::Lam, Form::Medial) => Some((2, seq!["..#."@, "..#."@, "..#."@, "..#."@, "..#."@, "..#."@, "..#."@, "..#."@, "####"@])),
        (Class::Lam, Form::Final) => Some((2, seq!["...#."@, "...#."@, "...#."@, "...#."@, "...#."@, "...#."@, "...#."@, "...#."@, "#####"@])),
        (Class::Meem, Form::Isolated) => Some((8, seq![".###"@, ".#.#"@, "####"@, "#..."@, "#..."@])),
        (Class::Meem, Form::Final) => Some((8, seq![".###."@, ".#.#."@, "#####"@, "#...."@, "#...."@])),
        (Class::Meem, Form::Initial) => Some((8, seq![".###"@, ".#.#"@, "####"@])),
        (Class::Meem, Form::Medial) => Some((8, seq![".###."@, ".#.#."@, "#####"@])),
        (Class::Heh, Form::Isolated) => Some((8, seq!["###"@, "#.#"@, "###"@])),
        (Class::Heh, Form::Final) => Some((8, seq!["###."@, "#.#."@, "####"@])),
        (Class::Heh, Form::Initial) => Some((8, seq![".###"@, ".#.#"@, "####"@])),
        (Class::Heh, Form::Medial) => Some((8, seq![".###."@, ".#.#."@, "#####"@])),
        (Class::Waw, Form::Isolated) => Some((8, seq![".###"@, ".#.#"@, "####"@, "#..."@, "##.."@])),
        (Class::Waw, Form::Final) => Some((8, seq![".###."@, ".#.#."@, "#####"@, "#...."@, "##..."@])),
        (Class::Waw, _) => None,
        (Class::Hamza, Form::Isolated) => Some((7, seq![".##"@, "..#"@, ".##"@, "##."@])),
        (Class::Hamza, _) => None,
        (Class::LamAlef, Form::Isolated) => Some((2, seq!["#..#"@, "#..#"@, "#..#"@, "#..#"@, "#..#"@, "#..#"@, "#..#"@, "#..#"@, "####"@])),
        (Class::LamAlef, Form::Final) => Some((2, seq!["#..#."@, "#..#."@, "#..#."@, "#..#."@, "#..#."@, "#..#."@, "#..#."@, "#..#."@, "#####"@])),
        (Class::LamAlef, _) => None,
        (Class::Latin(i), Form::Isolated) => Some((2, spec_latin_art(i).0)),
        (Class::Latin(_), _) => None,
    }
}

/// Latin capital art (rows 2-10) and the letter's stretch column.
pub open spec fn spec_latin_art(i: u8) -> (Seq<Seq<char>>, Option<usize>) {
    match i {
        0 => (seq!["#####"@, "#...#"@, "#...#"@, "#...#"@, "#...#"@, "#####"@, "#...#"@, "#...#"@, "#...#"@], Some(2usize)),
        1 => (seq!["####."@, "#...#"@, "#...#"@, "#...#"@, "####."@, "#...#"@, "#...#"@, "#...#"@, "####."@], Some(2usize)),
        2 => (seq!["#####"@, "#...."@, "#...."@, "#...."@, "#...."@, "#...."@, "#...."@, "#...."@, "#####"@], Some(2usize)),
        3 => (seq!["####."@, "#...#"@, "#...#"@, "#...#"@, "#...#"@, "#...#"@, "#...#"@, "#...#"@, "####."@], Some(2usize)),
        4 => (seq!["#####"@, "#...."@, "#...."@, "#...."@, "#####"@, "#...."@, "#...."@, "#...."@, "#####"@], Some(2usize)),
        5 => (seq!["#####"@, "#...."@, "#...."@, "#...."@, "#####"@, "#...."@, "#...."@, "#...."@, "#...."@], Some(2usize)),
        6 => (seq!["#####"@, "#...."@, "#...."@, "#...."@, "#.###"@, "#...#"@, "#...#"@, "#...#"@, "#####"@], Some(2usize)),
        7 => (seq!["#...#"@, "#...#"@, "#...#"@, "#...#"@, "#####"@, "#...#"@, "#...#"@, "#...#"@, "#...#"@], Some(2usize)),
        8 => (seq!["#"@, "#"@, "#"@, "#"@, "#"@, "#"@, "#"@, "#"@, "#"@], None),
        9 => (seq!["....#"@, "....#"@, "....#"@, "....#"@, "....#"@, "....#"@, "....#"@, "#...#"@, "#####"@], Some(2usize)),
        10 => (seq!["#...#"@, "#...#"@, "#..#."@, "#.#.."@, "##..."@, "#.#.."@, "#..#."@, "#...#"@, "#...#"@], None),
        11 => (seq!["#...."@, "#...."@, "#...."@, "#...."@, "#...."@, "#...."@, "#...."@, "#...."@, "#####"@], Some(2usize)),
        12 => (seq!["#######"@, "#..#..#"@, "#..#..#"@, "#..#..#"@, "#.....#"@, "#.....#"@, "#.....#"@, "#.....#"@, "#.....#"@], Some(1usize)),
        13 => (seq!["#...#"@, "##..#"@, "##..#"@, "#.#.#"@, "#.#.#"@, "#.#.#"@, "#..##"@, "#..##"@, "#...#"@], None),
        14 => (seq!["#####"@, "#...#"@, "#...#"@, "#...#"@, "#...#"@, "#...#"@, "#...#"@, "#...#"@, "#####"@], Some(2usize)),
        15 => (seq!["#####"@, "#...#"@, "#...#"@, "#...#"@, "#####"@, "#...."@, "#...."@, "#...."@, "#...."@], Some(2usize)),
        16 => (seq!["#####"@, "#...#"@, "#...#"@, "#...#"@, "#...#"@, "#...#"@, "#...#"@, "#..##"@, "#####"@], Some(2usize)),
        17 => (seq!["#####"@, "#...#"@, "#...#"@, "#####"@, "#.##."@, "#..##"@, "#...#"@, "#...#"@, "#...#"@], Some(1usize)),
        18 => (seq!["#####"@, "#...."@, "#...."@, "#...."@, "#####"@, "....#"@, "....#"@, "....#"@, "#####"@], Some(2usize)),
        19 => (seq!["#####"@, "..#.."@, "..#.."@, "..#.."@, "..#.."@, "..#.."@, "..#.."@, "..#.."@, "..#.."@], Some(3usize)),
        20 => (seq!["#...#"@, "#...#"@, "#...#"@, "#...#"@, "#...#"@, "#...#"@, "#...#"@, "#...#"@, "#####"@], Some(2usize)),
        21 => (seq!["#...#"@, "#...#"@, "#...#"@, "##.##"@, ".#.#."@, ".#.#."@, ".###."@, "..#.."@, "..#.."@], None),
        22 => (seq!["#.....#"@, "#.....#"@, "#.....#"@, "#.....#"@, "#.....#"@, "#..#..#"@, "#..#..#"@, "#..#..#"@, "#######"@], Some(1usize)),
        23 => (seq!["#...#"@, "#...#"@, "##.##"@, ".#.#."@, ".###."@, ".#.#."@, "##.##"@, "#...#"@, "#...#"@], None),
        24 => (seq!["#...#"@, "#...#"@, "#...#"@, "#...#"@, "#####"@, "..#.."@, "..#.."@, "..#.."@, "..#.."@], Some(1usize)),
        _ => (seq!["#####"@, "....#"@, "...##"@, "...#."@, "..##."@, "..#.."@, ".##.."@, ".#..."@, "#####"@], None),
    }
}

/// Does an optional art value carry exactly the given spec art?
pub open spec fn art_is(r: Option<FormArt>, s: Option<(nat, Seq<Seq<char>>)>) -> bool {
    match (r, s) {
        (Some(a), Some((top, rows))) => a.top == top && a.grid() =~~= rows,
        (None, None) => true,
        _ => false,
    }
}

/// The authored square-Kufic art for each (class, form).
/// None = this class does not occur in this form.
pub fn class_art(class: Class, form: Form) -> (r: Option<FormArt>)
    ensures
        art_is(r, spec_class_art(class, form)),
{
    match (class, form) {
        (Class::Alef, Form::Isolated) => Some(FormArt { top: 2, rows: &["#", "#", "#", "#", "#", "#", "#", "#", "#"] }),
        (Class::Alef, Form::Final) => Some(FormArt { top: 2, rows: &["#..", "#..", "#..", "#..", "#..", "#..", "#..", "#..", "###"] }),
        (Class::Alef, _) => None,
        (Class::Beh, Form::Isolated) => Some(FormArt { top: 8, rows: &["#...#", "#...#", "#####"] }),
        (Class::Beh, Form::Final) => Some(FormArt { top: 8, rows: &["#...#.", "#...#.", "######"] }),
        (Class::Beh, Form::Initial) => Some(FormArt { top: 8, rows: &["..#", "..#", "###"] }),
        (Class::Beh, Form::Medial) => Some(FormArt { top: 8, rows: &[".#.", ".#.", "###"] }),
        (Class::Noon, Form::Isolated) => Some(FormArt { top: 8, rows: &["#...#", "#...#", "#...#", "#...#", "#####"] }),
        (Class::Noon, Form::Final) => Some(FormArt { top: 8, rows: &["#...#.", "#...#.", "#...##", "#...#.", "#####."] }),
        (Class::Noon, Form::Initial) => Some(FormArt { top: 8, rows: &["..#", "..#", "###"] }),
        (Class::Noon, Form::Medial) => Some(FormArt { top: 8, rows: &[".#.", ".#.", "###"] }),
        (Class::Yeh, Form::Isolated) => Some(FormArt { top: 10, rows: &["..###", "..#..", "###.."] }),
        (Class::Yeh, Form::Final) => Some(FormArt { top: 10, rows: &["...###", "...#..", "####.."] }),
        (Class::Yeh, Form::Initial) => Some(FormArt { top: 8, rows: &["..#", "..#", "###"] }),
        (Class::Yeh, Form::Medial) => Some(FormArt { top: 8, rows: &[".#.", ".#.", "###"] }),
        (Class::Jeem, Form::Isolated) => Some(FormArt { top: 8, rows: &["####.", "#....", "#####", "#....", "####."] }),
        (Class::Jeem, Form::Final) => Some(FormArt { top: 8, rows: &["####..", "#.....", "######", "#.....", "####.."] }),
        (Class::Jeem, Form::Initial) => Some(FormArt { top: 8, rows: &[".####", ".#...", "#####"] }),
        (Class::Jeem, Form::Medial) => Some(FormArt { top: 8, rows: &[".####.", ".#....", "######"] }),
        (Class::Dal, Form::Isolated) => Some(FormArt { top: 8, rows: &["...#", "...#", "####"] }),
        (Class::Dal, Form::Final) => Some(FormArt { top: 8, rows: &["...#.", "...#.", "#####"] }),
        (Class::Dal, _) => None,
        (Class::Reh, Form::Isolated) => Some(FormArt { top: 10, rows: &["...#", "...#", "####"] }),
        (Class::Reh, Form::Final) => Some(FormArt { top: 10, rows: &["...##", "...#.", "####."] }),
        (Class::Reh, _) => None,
        (Class::Seen, Form::Isolated) => Some(FormArt { top: 9, rows: &["..#.#.#", "#######", "#......", "####..."] }),
        (Class::Seen, Form::Final) => Some(FormArt { top: 9, rows: &["..#.#.#.", "########", "#.......", "####...."] }),
        (Class::Seen, Form::Initial) => Some(FormArt { top: 9, rows: &[".#.#.#", "######"] }),
        (Class::Seen, Form::Medial) => Some(FormArt { top: 9, rows: &[".#.#.#", "######"] }),
        (Class::Sad, Form::Isolated) => Some(FormArt { top: 8, rows: &["..###", "..#.#", "#####"] }),
        (Class::Sad, Form::Final) => Some(FormArt { top: 8, rows: &["..###.", "..#.#.", "######", "#.....", "####.."] }),
        (Class::Sad, Form::Initial) => Some(FormArt { top: 8, rows: &["..###", "..#.#", "#####"] }),
        (Class::Sad, Form::Medial) => Some(FormArt { top: 8, rows: &[".###.", ".#.#.", "#####"] }),
        (Class::Tah, Form::Isolated) | (Class::Tah, Form::Initial) | (Class::Tah, Form::Medial) | (Class::Tah, Form::Final) => Some(FormArt { top: 6, rows: &[".#...", ".#...", ".###.", ".#.#.", "#####"] }),
        (Class::Ain, Form::Isolated) => Some(FormArt { top: 8, rows: &["####", "#...", "####", "#...", "###."] }),
        (Class::Ain, Form::Final) => Some(FormArt { top: 8, rows: &[".###.", ".#.#.", "#####", "#....", "####."] }),
        (Class::Ain, Form::Initial) => Some(FormArt { top: 8, rows: &[".###", ".#..", "####"] }),
        (Class::Ain, Form::Medial) => Some(FormArt { top: 8, rows: &[".###.", ".#.#.", "#####"] }),
        (Class::Feh, Form::Isolated) => Some(FormArt { top: 6, rows: &["....o.", "......", "#..###", "#..#.#", "######"] }),
        (Class::Feh, Form::Final) => Some(FormArt { top: 6, rows: &["....o..", ".......", "#..###.", "#..#.#.", "#######"] }),
        (Class::Feh, Form::Initial) => Some(FormArt { top: 6, rows: &["..o.", "....", ".###", ".#.#", "####"] }),
        (Class::Feh, Form::Medial) => Some(FormArt { top: 6, rows: &["..o..", ".....", ".###.", ".#.#.", "#####"] }),
        (Class::Qaf, Form::Isolated) => Some(FormArt { top: 6, rows: &["....o.", "......", "#..###", "#..#.#", "######", "#.....", "#####."] }),
        (Class::Qaf, Form::Final) => Some(FormArt { top: 6, rows: &["....o..", ".......", "#..###.", "#..#.#.", "#..####", "#......", "######."] }),
        (Class::Qaf, Form::Initial) => Some(FormArt { top: 6, rows: &["..o.", "....", ".###", ".#.#", "####"] }),
        (Class::Qaf, Form::Medial) => Some(FormArt { top: 6, rows: &["..o..", ".....", ".###.", ".#.#.", "#####"] }),
        (Class::Kaf, Form::Isolated) => Some(FormArt { top: 6, rows: &["...#", "...#", "####", "#...", "####"] }),
        (Class::Kaf, Form::Initial) => Some(FormArt { top: 6, rows: &["....#", "....#", ".####", ".#...", "#####"] }),
        (Class::Kaf, Form::Medial) => Some(FormArt { top: 6, rows: &["....#.", "....#.", ".####.", ".#....", "######"] }),
        (Class::Kaf, Form::Final) => Some(FormArt { top: 6, rows: &["...#.", "...#.", "####.", "#....", "#####"] }),
        (Class::Lam, Form::Isolated) => Some(FormArt { top: 2, rows: &["...#", "...#", "...#", "...#", "...#", "...#", "...#", "...#", "####"] }),
        (Class::Lam, Form::Initial) => Some(FormArt { top: 2, rows: &["..#", "..#", "..#", "..#", "..#", "..#", "..#", "..#", "###"] }),
        (Class::Lam, Form::Medial) => Some(FormArt { top: 2, rows: &["..#.", "..#.", "..#.", "..#.", "..#.", "..#.", "..#.", "..#.", "####"] }),
        (Class::Lam, Form::Final) => Some(FormArt { top: 2, rows: &["...#.", "...#.", "...#.", "...#.", "...#.", "...#.", "...#.", "...#.", "#####"] }),
        (Class::Meem, Form::Isolated) => Some(FormArt { top: 8, rows: &[".###", ".#.#", "####", "#...", "#..."] }),
        (Class::Meem, Form::Final) => Some(FormArt { top: 8, rows: &[".###.", ".#.#.", "#####", "#....", "#...."] }),
        (Class::Meem, Form::Initial) => Some(FormArt { top: 8, rows: &[".###", ".#.#", "####"] }),
        (Class::Meem, Form::Medial) => Some(FormArt { top: 8, rows: &[".###.", ".#.#.", "#####"] }),
        (Class::Heh, Form::Isolated) => Some(FormArt { top: 8, rows: &["###", "#.#", "###"] }),
        (Class::Heh, Form::Final) => Some(FormArt { top: 8, rows: &["###.", "#.#.", "####"] }),
        (Class::Heh, Form::Initial) => Some(FormArt { top: 8, rows: &[".###", ".#.#", "####"] }),
        (Class::Heh, Form::Medial) => Some(FormArt { top: 8, rows: &[".###.", ".#.#.", "#####"] }),
        (Class::Waw, Form::Isolated) => Some(FormArt { top: 8, rows: &[".###", ".#.#", "####", "#...", "##.."] }),
        (Class::Waw, Form::Final) => Some(FormArt { top: 8, rows: &[".###.", ".#.#.", "#####", "#....", "##..."] }),
        (Class::Waw, _) => None,
        (Class::Hamza, Form::Isolated) => Some(FormArt { top: 7, rows: &[".##", "..#", ".##", "##."] }),
        (Class::Hamza, _) => None,
        (Class::LamAlef, Form::Isolated) => Some(FormArt { top: 2, rows: &["#..#", "#..#", "#..#", "#..#", "#..#", "#..#", "#..#", "#..#", "####"] }),
        (Class::LamAlef, Form::Final) => Some(FormArt { top: 2, rows: &["#..#.", "#..#.", "#..#.", "#..#.", "#..#.", "#..#.", "#..#.", "#..#.", "#####"] }),
        (Class::LamAlef, _) => None,
        (Class::Latin(i), Form::Isolated) => Some(FormArt { top: 2, rows: latin_art(i).0 }),
        (Class::Latin(_), _) => None,
    }
}

/// Latin capital art (rows 2-10, 1-cell strokes) and the letter's
/// stretch column: elongation duplicates that art column, so crossbars
/// and arms extend while stems stay one cell wide. None = the letter
/// does not stretch.
pub fn latin_art(i: u8) -> (r: (&'static [&'static str], Option<usize>))
    ensures
        grid_of(r.0@) =~~= spec_latin_art(i).0,
        r.1 == spec_latin_art(i).1,
{
    match i {
        0 => (&["#####", "#...#", "#...#", "#...#", "#...#", "#####", "#...#", "#...#", "#...#"], Some(2usize)),
        1 => (&["####.", "#...#", "#...#", "#...#", "####.", "#...#", "#...#", "#...#", "####."], Some(2usize)),
        2 => (&["#####", "#....", "#....", "#....", "#....", "#....", "#....", "#....", "#####"], Some(2usize)),
        3 => (&["####.", "#...#", "#...#", "#...#", "#...#", "#...#", "#...#", "#...#", "####."], Some(2usize)),
        4 => (&["#####", "#....", "#....", "#....", "#####", "#....", "#....", "#....", "#####"], Some(2usize)),
        5 => (&["#####", "#....", "#....", "#....", "#####", "#....", "#....", "#....", "#...."], Some(2usize)),
        6 => (&["#####", "#....", "#....", "#....", "#.###", "#...#", "#...#", "#...#", "#####"], Some(2usize)),
        7 => (&["#...#", "#...#", "#...#", "#...#", "#####", "#...#", "#...#", "#...#", "#...#"], Some(2usize)),
        8 => (&["#", "#", "#", "#", "#", "#", "#", "#", "#"], None),
        9 => (&["....#", "....#", "....#", "....#", "....#", "....#", "....#", "#...#", "#####"], Some(2usize)),
        10 => (&["#...#", "#...#", "#..#.", "#.#..", "##...", "#.#..", "#..#.", "#...#", "#...#"], None),
        11 => (&["#....", "#....", "#....", "#....", "#....", "#....", "#....", "#....", "#####"], Some(2usize)),
        12 => (&["#######", "#..#..#", "#..#..#", "#..#..#", "#.....#", "#.....#", "#.....#", "#.....#", "#.....#"], Some(1usize)),
        13 => (&["#...#", "##..#", "##..#", "#.#.#", "#.#.#", "#.#.#", "#..##", "#..##", "#...#"], None),
        14 => (&["#####", "#...#", "#...#", "#...#", "#...#", "#...#", "#...#", "#...#", "#####"], Some(2usize)),
        15 => (&["#####", "#...#", "#...#", "#...#", "#####", "#....", "#....", "#....", "#...."], Some(2usize)),
        16 => (&["#####", "#...#", "#...#", "#...#", "#...#", "#...#", "#...#", "#..##", "#####"], Some(2usize)),
        17 => (&["#####", "#...#", "#...#", "#####", "#.##.", "#..##", "#...#", "#...#", "#...#"], Some(1usize)),
        18 => (&["#####", "#....", "#....", "#....", "#####", "....#", "....#", "....#", "#####"], Some(2usize)),
        19 => (&["#####", "..#..", "..#..", "..#..", "..#..", "..#..", "..#..", "..#..", "..#.."], Some(3usize)),
        20 => (&["#...#", "#...#", "#...#", "#...#", "#...#", "#...#", "#...#", "#...#", "#####"], Some(2usize)),
        21 => (&["#...#", "#...#", "#...#", "##.##", ".#.#.", ".#.#.", ".###.", "..#..", "..#.."], None),
        22 => (&["#.....#", "#.....#", "#.....#", "#.....#", "#.....#", "#..#..#", "#..#..#", "#..#..#", "#######"], Some(1usize)),
        23 => (&["#...#", "#...#", "##.##", ".#.#.", ".###.", ".#.#.", "##.##", "#...#", "#...#"], None),
        24 => (&["#...#", "#...#", "#...#", "#...#", "#####", "..#..", "..#..", "..#..", "..#.."], Some(1usize)),
        _ => (&["#####", "....#", "...##", "...#.", "..##.", "..#..", ".##..", ".#...", "#####"], None),
    }
}

/// Every row of `rows` has the width of the first row, and every cell
/// is ink (`#`), paper (`.`) or a dot anchor (`o`).
pub open spec fn uniform_rows(rows: Seq<Seq<char>>) -> bool {
    &&& rows.len() >= 1
    &&& forall|r: int| 0 <= r < rows.len() ==> (#[trigger] rows[r]).len() == rows[0].len()
    &&& forall|r: int, c: int|
        0 <= r < rows.len() && 0 <= c < rows[r].len() ==> {
            let ch = #[trigger] rows[r][c];
            ch == '#' || ch == '.' || ch == 'o'
        }
}

/// The shape every authored form has: uniform rows 1 to 8 cells wide,
/// on the canvas, crossing the baseline row; joined forms carry ink at
/// their entry (right edge of the baseline row) and exit (left edge).
pub open spec fn well_shaped(top: nat, rows: Seq<Seq<char>>, form: Form) -> bool {
    &&& uniform_rows(rows)
    &&& 1 <= rows[0].len() <= 8
    &&& top <= BASELINE_ROW < top + rows.len()
    &&& top + rows.len() <= GRID_H
    &&& form.spec_joins_prev() ==> rows[BASELINE_ROW - top][rows[0].len() - 1] == '#'
    &&& form.spec_joins_next() ==> rows[BASELINE_ROW - top][0] == '#'
}

/// The art of a (class, form), when it exists, is well shaped.
pub open spec fn class_art_shaped(class: Class, form: Form) -> bool {
    match spec_class_art(class, form) {
        Some((top, rows)) => well_shaped(top, rows, form),
        None => true,
    }
}

/// Which forms a class can take under the joining rules: a form that
/// connects forward needs a left-joining letter, and a form that
/// connects backward needs a right-joining letter.
pub open spec fn form_possible(class: Class, form: Form) -> bool {
    &&& form.spec_joins_next() ==> spec_joins_left(class)
    &&& form.spec_joins_prev() ==> spec_joins_right(class)
}

/// Latin art: nine uniform rows from row 2, with the stretch column,
/// when there is one, inside the art.
pub open spec fn latin_art_shaped(i: u8) -> bool {
    let (rows, stretch) = spec_latin_art(i);
    &&& rows.len() == 9
    &&& uniform_rows(rows)
    &&& 1 <= rows[0].len() <= 8
    &&& stretch matches Some(col) ==> col < rows[0].len()
}

/// Every Latin letter's art is well shaped.
pub proof fn lemma_latin_art_shape(i: u8)
    ensures
        latin_art_shaped(i),
{
    match i {
        0 => {
            reveal_strlit("#####");
            reveal_strlit("#...#");
        }
        1 => {
            reveal_strlit("####.");
            reveal_strlit("#...#");
        }
        2 => {
            reveal_strlit("#####");
            reveal_strlit("#....");
        }
        3 => {
            reveal_strlit("####.");
            reveal_strlit("#...#");
        }
        4 => {
            reveal_strlit("#####");
            reveal_strlit("#....");
        }
        5 => {
            reveal_strlit("#####");
            reveal_strlit("#....");
        }
        6 => {
            reveal_strlit("#####");
            reveal_strlit("#.###");
            reveal_strlit("#...#");
            reveal_strlit("#....");
        }
        7 => {
            reveal_strlit("#####");
            reveal_strlit("#...#");
        }
        8 => {
            reveal_strlit("#");
        }
        9 => {
            reveal_strlit("#####");
            reveal_strlit("#...#");
            reveal_strlit("....#");
        }
        10 => {
            reveal_strlit("##...");
            reveal_strlit("#.#..");
            reveal_strlit("#..#.");
            reveal_strlit("#...#");
        }
        11 => {
            reveal_strlit("#####");
            reveal_strlit("#....");
        }
        12 => {
            reveal_strlit("#######");
            reveal_strlit("#..#..#");
            reveal_strlit("#.....#");
        }
        13 => {
            reveal_strlit("##..#");
            reveal_strlit("#.#.#");
            reveal_strlit("#..##");
            reveal_strlit("#...#");
        }
        14 => {
            reveal_strlit("#####");
            reveal_strlit("#...#");
        }
        15 => {
            reveal_strlit("#####");
            reveal_strlit("#...#");
            reveal_strlit("#....");
        }
        16 => {
            reveal_strlit("#####");
            reveal_strlit("#..##");
            reveal_strlit("#...#");
        }
        17 => {
            reveal_strlit("#####");
            reveal_strlit("#.##.");
            reveal_strlit("#..##");
            reveal_strlit("#...#");
        }
        18 => {
            reveal_strlit("#####");
            reveal_strlit("#....");
            reveal_strlit("....#");
        }
        19 => {
            reveal_strlit("#####");
            reveal_strlit("..#..");
        }
        20 => {
            reveal_strlit("#####");
            reveal_strlit("#...#");
        }
        21 => {
            reveal_strlit("##.##");
            reveal_strlit("#...#");
            reveal_strlit(".###.");
            reveal_strlit(".#.#.");
            reveal_strlit("..#..");
        }
        22 => {
            reveal_strlit("#######");
            reveal_strlit("#..#..#");
            reveal_strlit("#.....#");
        }
        23 => {
            reveal_strlit("##.##");
            reveal_strlit("#...#");
            reveal_strlit(".###.");
            reveal_strlit(".#.#.");
        }
        24 => {
            reveal_strlit("#####");
            reveal_strlit("#...#");
            reveal_strlit("..#..");
        }
        _ => {
            reveal_strlit("#####");
            reveal_strlit(".##..");
            reveal_strlit(".#...");
            reveal_strlit("..##.");
            reveal_strlit("..#..");
            reveal_strlit("...##");
            reveal_strlit("...#.");
            reveal_strlit("....#");
        }
    }
}

/// Elongation never thickens a Latin stem: the stretch column, which
/// elongation duplicates, never has ink in two vertically adjacent rows,
/// so crossbars and arms extend while stems stay one cell wide.
pub proof fn lemma_latin_stretch_thin(i: u8)
    ensures
        spec_latin_art(i).1 matches Some(col) ==> forall|r: int|
            0 <= r < spec_latin_art(i).0.len() - 1 ==> !(#[trigger] spec_latin_art(i).0[r][col as int]
                == '#' && spec_latin_art(i).0[r + 1][col as int] == '#'),
{
    match i {
        0 => {
            reveal_strlit("#####");
            reveal_strlit("#...#");
        }
        1 => {
            reveal_strlit("####.");
            reveal_strlit("#...#");
        }
        2 => {
            reveal_strlit("#####");
            reveal_strlit("#....");
        }
        3 => {
            reveal_strlit("####.");
            reveal_strlit("#...#");
        }
        4 => {
            reveal_strlit("#####");
            reveal_strlit("#....");
        }
        5 => {
            reveal_strlit("#####");
            reveal_strlit("#....");
        }
        6 => {
            reveal_strlit("#####");
            reveal_strlit("#.###");
            reveal_strlit("#...#");
            reveal_strlit("#....");
        }
        7 => {
            reveal_strlit("#####");
            reveal_strlit("#...#");
        }
        9 => {
            reveal_strlit("#####");
            reveal_strlit("#...#");
            reveal_strlit("....#");
        }
        11 => {
            reveal_strlit("#####");
            reveal_strlit("#....");
        }
        12 => {
            reveal_strlit("#######");
            reveal_strlit("#..#..#");
            reveal_strlit("#.....#");
        }
        14 => {
            reveal_strlit("#####");
            reveal_strlit("#...#");
        }
        15 => {
            reveal_strlit("#####");
            reveal_strlit("#...#");
            reveal_strlit("#....");
        }
        16 => {
            reveal_strlit("#####");
            reveal_strlit("#..##");
            reveal_strlit("#...#");
        }
        17 => {
            reveal_strlit("#####");
            reveal_strlit("#.##.");
            reveal_strlit("#..##");
            reveal_strlit("#...#");
        }
        18 => {
            reveal_strlit("#####");
            reveal_strlit("#....");
            reveal_strlit("....#");
        }
        19 => {
            reveal_strlit("#####");
            reveal_strlit("..#..");
        }
        20 => {
            reveal_strlit("#####");
            reveal_strlit("#...#");
        }
        22 => {
            reveal_strlit("#######");
            reveal_strlit("#..#..#");
            reveal_strlit("#.....#");
        }
        24 => {
            reveal_strlit("#####");
            reveal_strlit("#...#");
            reveal_strlit("..#..");
        }
        _ => {},
    }
}

/// The authored art is well shaped: uniform rows on the canvas crossing
/// the baseline, with ink at the entry of every form that joins the
/// previous letter and at the exit of every form that joins the next.
pub proof fn lemma_class_art_shape(class: Class, form: Form)
    ensures
        class_art_shaped(class, form),
{
    match (class, form) {
        (Class::Alef, Form::Isolated) => {
            reveal_strlit("#");
        }
        (Class::Alef, Form::Final) => {
            reveal_strlit("###");
            reveal_strlit("#..");
        }
        (Class::Alef, _) => {}
        (Class::Beh, Form::Isolated) => {
            reveal_strlit("#####");
            reveal_strlit("#...#");
        }
        (Class::Beh, Form::Final) => {
            reveal_strlit("######");
            reveal_strlit("#...#.");
        }
        (Class::Beh, Form::Initial) => {
            reveal_strlit("###");
            reveal_strlit("..#");
        }
        (Class::Beh, Form::Medial) => {
            reveal_strlit("###");
            reveal_strlit(".#.");
        }
        (Class::Noon, Form::Isolated) => {
            reveal_strlit("#####");
            reveal_strlit("#...#");
        }
        (Class::Noon, Form::Final) => {
            reveal_strlit("#####.");
            reveal_strlit("#...##");
            reveal_strlit("#...#.");
        }
        (Class::Noon, Form::Initial) => {
            reveal_strlit("###");
            reveal_strlit("..#");
        }
        (Class::Noon, Form::Medial) => {
            reveal_strlit("###");
            reveal_strlit(".#.");
        }
        (Class::Yeh, Form::Isolated) => {
            reveal_strlit("###..");
            reveal_strlit("..###");
            reveal_strlit("..#..");
        }
        (Class::Yeh, Form::Final) => {
            reveal_strlit("####..");
            reveal_strlit("...###");
            reveal_strlit("...#..");
        }
        (Class::Yeh, Form::Initial) => {
            reveal_strlit("###");
            reveal_strlit("..#");
        }
        (Class::Yeh, Form::Medial) => {
            reveal_strlit("###");
            reveal_strlit(".#.");
        }
        (Class::Jeem, Form::Isolated) => {
            reveal_strlit("#####");
            reveal_strlit("####.");
            reveal_strlit("#....");
        }
        (Class::Jeem, Form::Final) => {
            reveal_strlit("######");
            reveal_strlit("####..");
            reveal_strlit("#.....");
        }
        (Class::Jeem, Form::Initial) => {
            reveal_strlit("#####");
            reveal_strlit(".####");
            reveal_strlit(".#...");
        }
        (Class::Jeem, Form::Medial) => {
            reveal_strlit("######");
            reveal_strlit(".####.");
            reveal_strlit(".#....");
        }
        (Class::Dal, Form::Isolated) => {
            reveal_strlit("####");
            reveal_strlit("...#");
        }
        (Class::Dal, Form::Final) => {
            reveal_strlit("#####");
            reveal_strlit("...#.");
        }
        (Class::Dal, _) => {}
        (Class::Reh, Form::Isolated) => {
            reveal_strlit("####");
            reveal_strlit("...#");
        }
        (Class::Reh, Form::Final) => {
            reveal_strlit("####.");
            reveal_strlit("...##");
            reveal_strlit("...#.");
        }
        (Class::Reh, _) => {}
        (Class::Seen, Form::Isolated) => {
            reveal_strlit("#######");
            reveal_strlit("####...");
            reveal_strlit("#......");
            reveal_strlit("..#.#.#");
        }
        (Class::Seen, Form::Final) => {
            reveal_strlit("########");
            reveal_strlit("####....");
            reveal_strlit("#.......");
            reveal_strlit("..#.#.#.");
        }
        (Class::Seen, Form::Initial) => {
            reveal_strlit("######");
            reveal_strlit(".#.#.#");
        }
        (Class::Seen, Form::Medial) => {
            reveal_strlit("######");
            reveal_strlit(".#.#.#");
        }
        (Class::Sad, Form::Isolated) => {
            reveal_strlit("#####");
            reveal_strlit("..###");
            reveal_strlit("..#.#");
        }
        (Class::Sad, Form::Final) => {
            reveal_strlit("######");
            reveal_strlit("####..");
            reveal_strlit("#.....");
            reveal_strlit("..###.");
            reveal_strlit("..#.#.");
        }
        (Class::Sad, Form::Initial) => {
            reveal_strlit("#####");
            reveal_strlit("..###");
            reveal_strlit("..#.#");
        }
        (Class::Sad, Form::Medial) => {
            reveal_strlit("#####");
            reveal_strlit(".###.");
            reveal_strlit(".#.#.");
        }
        (Class::Tah, Form::Isolated) | (Class::Tah, Form::Initial) | (Class::Tah, Form::Medial) | (Class::Tah, Form::Final) => {
            reveal_strlit("#####");
            reveal_strlit(".###.");
            reveal_strlit(".#.#.");
            reveal_strlit(".#...");
        }
        (Class::Ain, Form::Isolated) => {
            reveal_strlit("####");
            reveal_strlit("###.");
            reveal_strlit("#...");
        }
        (Class::Ain, Form::Final) => {
            reveal_strlit("#####");
            reveal_strlit("####.");
            reveal_strlit("#....");
            reveal_strlit(".###.");
            reveal_strlit(".#.#.");
        }
        (Class::Ain, Form::Initial) => {
            reveal_strlit("####");
            reveal_strlit(".###");
            reveal_strlit(".#..");
        }
        (Class::Ain, Form::Medial) => {
            reveal_strlit("#####");
            reveal_strlit(".###.");
            reveal_strlit(".#.#.");
        }
        (Class::Feh, Form::Isolated) => {
            reveal_strlit("######");
            reveal_strlit("#..###");
            reveal_strlit("#..#.#");
            reveal_strlit("......");
            reveal_strlit("....o.");
        }
        (Class::Feh, Form::Final) => {
            reveal_strlit("#######");
            reveal_strlit("#..###.");
            reveal_strlit("#..#.#.");
            reveal_strlit(".......");
            reveal_strlit("....o..");
        }
        (Class::Feh, Form::Initial) => {
            reveal_strlit("####");
            reveal_strlit(".###");
            reveal_strlit(".#.#");
            reveal_strlit("....");
            reveal_strlit("..o.");
        }
        (Class::Feh, Form::Medial) => {
            reveal_strlit("#####");
            reveal_strlit(".###.");
            reveal_strlit(".#.#.");
            reveal_strlit(".....");
            reveal_strlit("..o..");
        }
        (Class::Qaf, Form::Isolated) => {
            reveal_strlit("######");
            reveal_strlit("#####.");
            reveal_strlit("#..###");
            reveal_strlit("#..#.#");
            reveal_strlit("#.....");
            reveal_strlit("......");
            reveal_strlit("....o.");
        }
        (Class::Qaf, Form::Final) => {
            reveal_strlit("######.");
            reveal_strlit("#..####");
            reveal_strlit("#..###.");
            reveal_strlit("#..#.#.");
            reveal_strlit("#......");
            reveal_strlit(".......");
            reveal_strlit("....o..");
        }
        (Class::Qaf, Form::Initial) => {
            reveal_strlit("####");
            reveal_strlit(".###");
            reveal_strlit(".#.#");
            reveal_strlit("....");
            reveal_strlit("..o.");
        }
        (Class::Qaf, Form::Medial) => {
            reveal_strlit("#####");
            reveal_strlit(".###.");
            reveal_strlit(".#.#.");
            reveal_strlit(".....");
            reveal_strlit("..o..");
        }
        (Class::Kaf, Form::Isolated) => {
            reveal_strlit("####");
            reveal_strlit("#...");
            reveal_strlit("...#");
        }
        (Class::Kaf, Form::Initial) => {
            reveal_strlit("#####");
            reveal_strlit(".####");
            reveal_strlit(".#...");
            reveal_strlit("....#");
        }
        (Class::Kaf, Form::Medial) => {
            reveal_strlit("######");
            reveal_strlit(".####.");
            reveal_strlit(".#....");
            reveal_strlit("....#.");
        }
        (Class::Kaf, Form::Final) => {
            reveal_strlit("#####");
            reveal_strlit("####.");
            reveal_strlit("#....");
            reveal_strlit("...#.");
        }
        (Class::Lam, Form::Isolated) => {
            reveal_strlit("####");
            reveal_strlit("...#");
        }
        (Class::Lam, Form::Initial) => {
            reveal_strlit("###");
            reveal_strlit("..#");
        }
        (Class::Lam, Form::Medial) => {
            reveal_strlit("####");
            reveal_strlit("..#.");
        }
        (Class::Lam, Form::Final) => {
            reveal_strlit("#####");
            reveal_strlit("...#.");
        }
        (Class::Meem, Form::Isolated) => {
            reveal_strlit("####");
            reveal_strlit("#...");
            reveal_strlit(".###");
            reveal_strlit(".#.#");
        }
        (Class::Meem, Form::Final) => {
            reveal_strlit("#####");
            reveal_strlit("#....");
            reveal_strlit(".###.");
            reveal_strlit(".#.#.");
        }
        (Class::Meem, Form::Initial) => {
            reveal_strlit("####");
            reveal_strlit(".###");
            reveal_strlit(".#.#");
        }
        (Class::Meem, Form::Medial) => {
            reveal_strlit("#####");
            reveal_strlit(".###.");
            reveal_strlit(".#.#.");
        }
        (Class::Heh, Form::Isolated) => {
            reveal_strlit("###");
            reveal_strlit("#.#");
        }
        (Class::Heh, Form::Final) => {
            reveal_strlit("####");
            reveal_strlit("###.");
            reveal_strlit("#.#.");
        }
        (Class::Heh, Form::Initial) => {
            reveal_strlit("####");
            reveal_strlit(".###");
            reveal_strlit(".#.#");
        }
        (Class::Heh, Form::Medial) => {
            reveal_strlit("#####");
            reveal_strlit(".###.");
            reveal_strlit(".#.#.");
        }
        (Class::Waw, Form::Isolated) => {
            reveal_strlit("####");
            reveal_strlit("##..");
            reveal_strlit("#...");
            reveal_strlit(".###");
            reveal_strlit(".#.#");
        }
        (Class::Waw, Form::Final) => {
            reveal_strlit("#####");
            reveal_strlit("##...");
            reveal_strlit("#....");
            reveal_strlit(".###.");
            reveal_strlit(".#.#.");
        }
        (Class::Waw, _) => {}
        (Class::Hamza, Form::Isolated) => {
            reveal_strlit("##.");
            reveal_strlit(".##");
            reveal_strlit("..#");
        }
        (Class::Hamza, _) => {}
        (Class::LamAlef, Form::Isolated) => {
            reveal_strlit("####");
            reveal_strlit("#..#");
        }
        (Class::LamAlef, Form::Final) => {
            reveal_strlit("#####");
            reveal_strlit("#..#.");
        }
        (Class::LamAlef, _) => {}
        (Class::Latin(i), Form::Isolated) => {
            lemma_latin_art_shape(i);
        }
        (Class::Latin(_), _) => {}
    }
}

/// The teacher draws exactly the forms the joining rules can produce:
/// a class has art for a form if and only if the form is possible for
/// it (right-joiners have no initial or medial form; hamza and Latin
/// only stand alone).
pub proof fn lemma_class_art_exists(class: Class, form: Form)
    ensures
        spec_class_art(class, form) is Some <==> form_possible(class, form),
{
}

// ---------------------------------------------------------------------
// Rendering
// ---------------------------------------------------------------------

/// A glyph's ink as a predicate over canvas cells.
pub type Ink = spec_fn(int, int) -> bool;

/// The ink of a glyph image.
pub open spec fn ink_of(img: GlyphImage) -> Ink {
    |x: int, y: int| img.at(x, y)
}

/// Kashida columns a glyph receives: Arabic forms that join the
/// previous letter stretch their baseline connection.
pub open spec fn kashida_cols(class: Class, form: Form, elong: nat) -> nat {
    if class is Latin {
        0
    } else if form.spec_joins_prev() {
        elong
    } else {
        0
    }
}

/// The art column a Latin letter repeats when elongated.
pub open spec fn stretch_col(class: Class, elong: nat) -> Option<usize> {
    match class {
        Class::Latin(i) => if elong > 0 {
            spec_latin_art(i).1
        } else {
            None
        },
        _ => None,
    }
}

/// An art row with column `col` repeated `n` more times.
pub open spec fn stretched(row: Seq<char>, col: Option<usize>, n: nat) -> Seq<char> {
    match col {
        Some(c) => row.subrange(0, c as int) + Seq::new(n, |_k: int| row[c as int]) + row.subrange(
            c as int,
            row.len() as int,
        ),
        None => row,
    }
}

/// Width of the (possibly stretched) art body, in cells.
pub open spec fn body_width(rows: Seq<Seq<char>>, class: Class, elong: nat) -> nat {
    rows[0].len() + if stretch_col(class, elong) is Some {
        elong
    } else {
        0
    }
}

/// Does the rendered glyph fit the canvas? (Body plus kashida at most
/// `GRID_W` cells.)
pub open spec fn render_fits(class: Class, form: Form, elong: nat) -> bool {
    match spec_class_art(class, form) {
        Some((_top, rows)) => body_width(rows, class, elong) + kashida_cols(class, form, elong)
            <= GRID_W,
        None => true,
    }
}

/// Last dot anchor (`o`) among the first `n` cells of a row.
pub open spec fn row_anchor(row: Seq<char>, n: int) -> Option<int>
    decreases n,
{
    if n <= 0 {
        None
    } else if row[n - 1] == 'o' {
        Some(n - 1)
    } else {
        row_anchor(row, n - 1)
    }
}

/// Last dot anchor, in row-major order, among the first `m` rows, as
/// (column, row) in art coordinates.
pub open spec fn art_anchor(rows: Seq<Seq<char>>, m: int) -> Option<(int, int)>
    decreases m,
{
    if m <= 0 {
        None
    } else {
        match row_anchor(rows[m - 1], rows[m - 1].len() as int) {
            Some(c) => Some((c, m - 1)),
            None => art_anchor(rows, m - 1),
        }
    }
}

/// Saturating decrement by `k`.
pub open spec fn sat_sub(a: int, k: int) -> int {
    if a >= k {
        a - k
    } else {
        0
    }
}

/// The cells of an `n`-dot group around column `c` on row `r`: one dot
/// at `c`; two straddling `c`; three add an apex two rows further out
/// (up for dots above, down for dots below).
pub open spec fn dot_group(n: int, c: int, r: int, above: bool) -> Seq<(int, int)> {
    if n == 1 {
        seq![(c, r)]
    } else if n == 2 {
        seq![(sat_sub(c, 1), r), (c + 1, r)]
    } else {
        seq![
            (sat_sub(c, 1), r),
            (c + 1, r),
            (
                c,
                if above {
                    sat_sub(r, 2)
                } else {
                    r + 2
                },
            ),
        ]
    }
}

/// Where a glyph wants its dots: at the form's anchor when it has one,
/// else centred two rows above or below the body (omitted when there is
/// no room).
pub open spec fn dot_cells(
    dots: Dots,
    x0: int,
    aw: int,
    top: int,
    bottom: int,
    anchor: Option<(int, int)>,
) -> Seq<(int, int)> {
    let n: int = if dots < 0 {
        -dots
    } else {
        dots as int
    };
    if dots == 0 {
        seq![]
    } else {
        match anchor {
            Some((ac, ar)) => dot_group(n, ac, ar, dots > 0),
            None => {
                let c = (x0 + x0 + aw - 1) / 2;
                if dots > 0 {
                    if top < 2 {
                        seq![]
                    } else {
                        dot_group(n, c, top - 2, true)
                    }
                } else {
                    if bottom + 2 >= GRID_H {
                        seq![]
                    } else {
                        dot_group(n, c, bottom + 2, false)
                    }
                }
            },
        }
    }
}

/// Ink on the canvas.
pub open spec fn inked(ink: Ink, x: int, y: int) -> bool {
    on_canvas(x, y) && ink(x, y)
}

/// A dot must not merge with the body: its cell and 4-neighbours must
/// be empty.
pub open spec fn spec_clear_around(ink: Ink, x: int, y: int) -> bool {
    !inked(ink, x, y) && !inked(ink, x + 1, y) && !inked(ink, x - 1, y) && !inked(ink, x, y + 1)
        && !inked(ink, x, y - 1)
}

/// Stamp one dot if it lands on the canvas clear of all ink.
pub open spec fn stamp_one(ink: Ink, p: (int, int)) -> Ink {
    if on_canvas(p.0, p.1) && spec_clear_around(ink, p.0, p.1) {
        |x: int, y: int| ink(x, y) || (x == p.0 && y == p.1)
    } else {
        ink
    }
}

/// Stamp dots in order.
pub open spec fn stamp_all(ink: Ink, pts: Seq<(int, int)>) -> Ink
    decreases pts.len(),
{
    if pts.len() == 0 {
        ink
    } else {
        stamp_all(stamp_one(ink, pts[0]), pts.drop_first())
    }
}

/// Body and kashida ink of a rendered glyph, before dots: the art,
/// stretched, right-aligned against the kashida, plus the kashida's
/// baseline cells at the right edge.
pub open spec fn body_ink(
    top: int,
    rows: Seq<Seq<char>>,
    x0: int,
    col: Option<usize>,
    elong: nat,
    kashida: nat,
) -> Ink {
    |x: int, y: int|
        {
            ||| (top <= y < top + rows.len() && 0 <= x - x0 < stretched(rows[y - top], col, elong).len()
                && stretched(rows[y - top], col, elong)[x - x0] == '#')
            ||| (y == BASELINE_ROW && GRID_W - kashida <= x < GRID_W)
        }
}

/// Left edge of the body on the canvas.
pub open spec fn body_x0(class: Class, form: Form, elong: nat) -> int {
    match spec_class_art(class, form) {
        Some((_top, rows)) => GRID_W - body_width(rows, class, elong) - kashida_cols(
            class,
            form,
            elong,
        ),
        None => 0,
    }
}

/// The undotted glyph: stretched art right-aligned against the kashida,
/// and the kashida's baseline cells.
pub open spec fn spec_render_body(class: Class, form: Form, elong: nat) -> Ink {
    match spec_class_art(class, form) {
        Some((top, rows)) => body_ink(
            top as int,
            rows,
            body_x0(class, form, elong),
            stretch_col(class, elong),
            elong,
            kashida_cols(class, form, elong),
        ),
        None => |x: int, y: int| false,
    }
}

/// The teacher's glyph: art right-aligned on the canvas, elongated per
/// the class's stretch behaviour, with i'jam dots stamped clear of the
/// body; and its advance (body width plus kashida).
pub open spec fn spec_render(class: Class, dots: Dots, form: Form, elong: nat) -> Option<
    (Ink, nat),
> {
    match spec_class_art(class, form) {
        None => None,
        Some((top, rows)) => {
            let col = stretch_col(class, elong);
            let kashida = kashida_cols(class, form, elong);
            let aw = body_width(rows, class, elong);
            let x0 = body_x0(class, form, elong);
            let base = spec_render_body(class, form, elong);
            let anchor = match art_anchor(rows, rows.len() as int) {
                Some((dx, dy)) => Some((x0 + dx, top + dy)),
                None => None,
            };
            let pts = dot_cells(dots, x0, aw as int, top as int, top + rows.len() - 1, anchor);
            Some((stamp_all(base, pts), aw + kashida))
        },
    }
}

/// The characters of one art row.
fn row_chars(r: &str) -> (v: Vec<char>)
    ensures
        v@ == r@,
{
    let mut v: Vec<char> = Vec::new();
    for c in it: r.chars()
        invariant
            v@ == it.seq().take(it.index() as int),
    {
        v.push(c);
    }
    v
}

/// A row with column `col` repeated `n` more times.
fn stretch_row(row: &Vec<char>, col: Option<usize>, n: usize) -> (r: Vec<char>)
    requires
        col matches Some(c) ==> c < row@.len(),
    ensures
        r@ == stretched(row@, col, n as nat),
{
    match col {
        None => row.clone(),
        Some(c) => {
            let mut r: Vec<char> = Vec::new();
            let mut i: usize = 0;
            while i < c
                invariant
                    c < row@.len(),
                    i <= c,
                    r@ == row@.subrange(0, i as int),
                decreases c - i,
            {
                r.push(row[i]);
                i = i + 1;
            }
            let v = row[c];
            let mut k: usize = 0;
            while k < n
                invariant
                    k <= n,
                    v == row@[c as int],
                    r@ == row@.subrange(0, c as int) + Seq::new(k as nat, |_k: int| row@[c as int]),
                decreases n - k,
            {
                r.push(v);
                k = k + 1;
                assert(r@ =~= row@.subrange(0, c as int) + Seq::new(k as nat, |_k: int| row@[c as int]));
            }
            let mut j: usize = c;
            while j < row.len()
                invariant
                    c <= j <= row@.len(),
                    r@ == row@.subrange(0, c as int) + Seq::new(n as nat, |_k: int| row@[c as int])
                        + row@.subrange(c as int, j as int),
                decreases row.len() - j,
            {
                r.push(row[j]);
                j = j + 1;
                assert(r@ =~= row@.subrange(0, c as int) + Seq::new(n as nat, |_k: int| row@[c as int])
                        + row@.subrange(c as int, j as int));
            }
            assert(r@ =~= stretched(row@, col, n as nat));
            r
        },
    }
}

/// A dot must not merge with the body: its cell and 4-neighbours must
/// be empty.
fn clear_around(img: &GlyphImage, x: usize, y: usize) -> (r: bool)
    requires
        img.wf(),
        x < GRID_W,
        y < GRID_H,
    ensures
        r == spec_clear_around(|a: int, b: int| img.at(a, b), x as int, y as int),
{
    let left = x == 0 || !img.get(x - 1, y);
    let up = y == 0 || !img.get(x, y - 1);
    !img.get(x, y) && !img.get(x + 1, y) && left && !img.get(x, y + 1) && up
}

/// The dot group of `dot_group` as concrete cells.
fn dot_group_cells(n: usize, c: usize, r: usize, above: bool) -> (v: Vec<(usize, usize)>)
    requires
        c < GRID_W,
        r < GRID_H + 2,
    ensures
        v@.len() == dot_group(n as int, c as int, r as int, above).len(),
        forall|k: int|
            0 <= k < v@.len() ==> (#[trigger] v@[k]).0 as int == dot_group(
                n as int,
                c as int,
                r as int,
                above,
            )[k].0 && v@[k].1 as int == dot_group(n as int, c as int, r as int, above)[k].1,
{
    let cm = if c >= 1 {
        c - 1
    } else {
        0
    };
    if n == 1 {
        vec![(c, r)]
    } else if n == 2 {
        vec![(cm, r), (c + 1, r)]
    } else {
        let apex = if above {
            if r >= 2 {
                r - 2
            } else {
                0
            }
        } else {
            r + 2
        };
        vec![(cm, r), (c + 1, r), (c, apex)]
    }
}

/// Stamp i'jam dots: at the form's explicit anchor when it has one,
/// else relative to the body bounding box; every dot is kept clear of
/// existing ink.
fn stamp_dots(
    img: &mut GlyphImage,
    dots: Dots,
    x0: usize,
    aw: usize,
    top: usize,
    bottom: usize,
    anchor: Option<(usize, usize)>,
)
    requires
        old(img).wf(),
        1 <= aw,
        x0 + aw <= GRID_W,
        top <= bottom < GRID_H,
        anchor matches Some((ac, ar)) ==> ac < GRID_W && ar < GRID_H,
    ensures
        final(img).wf(),
        final(img).advance == old(img).advance,
        forall|x: int, y: int|
            on_canvas(x, y) ==> #[trigger] final(img).at(x, y) == stamp_all(
                ink_of(*old(img)),
                dot_cells(
                    dots,
                    x0 as int,
                    aw as int,
                    top as int,
                    bottom as int,
                    match anchor {
                        Some((ac, ar)) => Some((ac as int, ar as int)),
                        None => None,
                    },
                ),
            )(x, y),
{
    let ghost start: Ink = ink_of(*old(img));
    let ghost anc = match anchor {
        Some((ac, ar)) => Some((ac as int, ar as int)),
        None => None,
    };
    let ghost want = dot_cells(dots, x0 as int, aw as int, top as int, bottom as int, anc);
    if dots == 0 {
        assert(want =~= Seq::<(int, int)>::empty());
        return;
    }
    let n: usize = if dots < 0 {
        (-(dots as i16)) as usize
    } else {
        dots as usize
    };
    let cells: Vec<(usize, usize)> = match anchor {
        Some((ac, ar)) => dot_group_cells(n, ac, ar, dots > 0),
        None => {
            let c = (x0 + x0 + aw - 1) / 2;
            if dots > 0 {
                if top < 2 {
                    assert(want =~= Seq::<(int, int)>::empty());
                    return;
                }
                dot_group_cells(n, c, top - 2, true)
            } else {
                if bottom + 2 >= GRID_H {
                    assert(want =~= Seq::<(int, int)>::empty());
                    return;
                }
                dot_group_cells(n, c, bottom + 2, false)
            }
        },
    };
    assert(cells@.len() == want.len());
    assert(forall|k: int| 0 <= k < cells@.len() ==> cells@[k].0 as int == want[k].0 && cells@[k].1 as int == want[k].1);
    let ghost mut cur: Ink = start;
    assert(want.skip(0) =~= want);
    let mut k: usize = 0;
    while k < cells.len()
        invariant
            img.wf(),
            img.advance == old(img).advance,
            k <= cells@.len(),
            cells@.len() == want.len(),
            forall|j: int| 0 <= j < cells@.len() ==> cells@[j].0 as int == want[j].0 && cells@[j].1 as int == want[j].1,
            forall|x: int, y: int| on_canvas(x, y) ==> #[trigger] img.at(x, y) == cur(x, y),
            forall|x: int, y: int|
                on_canvas(x, y) ==> #[trigger] stamp_all(cur, want.skip(k as int))(x, y)
                    == stamp_all(start, want)(x, y),
        decreases cells@.len() - k,
    {
        let (x, y) = cells[k];
        let ghost prev = cur;
        assert(want.skip(k as int).drop_first() =~= want.skip(k + 1));
        assert(want.skip(k as int)[0] == want[k as int]);
        proof {
            cur = stamp_one(prev, want[k as int]);
        }
        if y < GRID_H && x < GRID_W && clear_around(img, x, y) {
            assert(spec_clear_around(prev, x as int, y as int));
            img.set(x, y);
        } else {
            proof {
                if on_canvas(x as int, y as int) {
                    assert(!spec_clear_around(|a: int, b: int| img.at(a, b), x as int, y as int));
                    assert(!spec_clear_around(prev, x as int, y as int));
                }
            }
        }
        proof {
            assert forall|x: int, y: int| on_canvas(x, y) implies #[trigger] stamp_all(
                cur,
                want.skip(k + 1),
            )(x, y) == stamp_all(start, want)(x, y) by {
                assert(stamp_all(prev, want.skip(k as int)) == stamp_all(
                    stamp_one(prev, want.skip(k as int)[0]),
                    want.skip(k as int).drop_first(),
                ));
                assert(stamp_all(prev, want.skip(k as int))(x, y) == stamp_all(start, want)(x, y));
            }
        }
        k = k + 1;
    }
    assert(want.skip(k as int) =~= Seq::<(int, int)>::empty());
    assert(stamp_all(cur, want.skip(k as int)) == cur);
}

/// An anchor found in a row lies within it, on an `o`.
pub proof fn lemma_row_anchor_bounds(row: Seq<char>, n: int)
    ensures
        row_anchor(row, n) matches Some(c) ==> 0 <= c < n && row[c] == 'o',
    decreases n,
{
    if n > 0 {
        lemma_row_anchor_bounds(row, n - 1);
    }
}

/// An anchor found in the art lies within its rows.
pub proof fn lemma_art_anchor_bounds(rows: Seq<Seq<char>>, m: int)
    ensures
        art_anchor(rows, m) matches Some((c, r)) ==> 0 <= r < m && 0 <= c < rows[r].len(),
    decreases m,
{
    if m > 0 {
        lemma_row_anchor_bounds(rows[m - 1], rows[m - 1].len() as int);
        lemma_art_anchor_bounds(rows, m - 1);
    }
}

/// Render a glyph image from the teacher: class art, right-aligned on
/// the canvas, elongated per the class's stretch behaviour (Arabic:
/// kashida columns at the entry side; Latin: duplicated stretch
/// column), with i'jam dots stamped clear of the body.
pub fn render(class: Class, dots: Dots, form: Form, elong: usize) -> (r: Option<GlyphImage>)
    requires
        render_fits(class, form, elong as nat),
    ensures
        r is None <==> spec_class_art(class, form) is None,
        r matches Some(img) ==> {
            &&& img.wf()
            &&& spec_render(class, dots, form, elong as nat) matches Some((ink, adv)) && {
                &&& img.advance == adv
                &&& forall|x: int, y: int| on_canvas(x, y) ==> #[trigger] img.at(x, y) == ink(x, y)
            }
        },
{
    let art = match class_art(class, form) {
        Some(a) => a,
        None => return None,
    };
    proof {
        lemma_class_art_shape(class, form);
        if let Class::Latin(i) = class {
            lemma_latin_art_shape(i);
        }
    }
    let ghost top = art.top as int;
    let ghost rows = art.grid();
    let h = art.rows.len();
    let base_w = art.rows[0].unicode_len();
    let (kashida, stretch): (usize, Option<usize>) = match class {
        Class::Latin(i) => (0, if elong > 0 { latin_art(i).1 } else { None }),
        _ => if form.joins_prev() {
            (elong, None)
        } else {
            (0, None)
        },
    };
    let aw: usize = if stretch.is_some() { base_w + elong } else { base_w };
    assert(aw == body_width(rows, class, elong as nat));
    assert(kashida == kashida_cols(class, form, elong as nat));
    assert(stretch == stretch_col(class, elong as nat));
    let x0 = GRID_W - aw - kashida;
    let mut img = GlyphImage::empty();
    img.advance = aw + kashida;
    let mut anchor: Option<(usize, usize)> = None;
    let ghost base = body_ink(top, rows, x0 as int, stretch, elong as nat, kashida as nat);
    // Body, right-aligned and shifted left by any kashida columns.
    let mut dy: usize = 0;
    while dy < h
        invariant
            art.grid() == rows,
            art.top as int == top,
            art.top + h <= GRID_H,
            h == rows.len(),
            well_shaped(top as nat, rows, form),
            stretch matches Some(c) ==> c < rows[0].len(),
            aw == rows[0].len() + if stretch is Some { elong } else { 0 },
            x0 + aw + kashida == GRID_W,
            img.wf(),
            img.advance == aw + kashida,
            dy <= h,
            anchor == (match art_anchor(rows, dy as int) {
                Some((c, r)) => Some((c as usize, r as usize)),
                None => None::<(usize, usize)>,
            }),
            forall|x: int, y: int|
                on_canvas(x, y) ==> #[trigger] img.at(x, y) == (y < top + dy && top <= y < top
                    + rows.len() && 0 <= x - x0 < stretched(rows[y - top], stretch, elong as nat).len()
                    && stretched(rows[y - top], stretch, elong as nat)[x - x0] == '#'),
        decreases h - dy,
    {
        let row = row_chars(art.rows[dy]);
        assert(row@ == rows[dy as int]);
        let srow = stretch_row(&row, stretch, elong);
        assert(srow@.len() == aw);
        let mut dx: usize = 0;
        while dx < row.len()
            invariant
                row@ == rows[dy as int],
                dx <= row@.len(),
                anchor == (match row_anchor(row@, dx as int) {
                    Some(c) => Some((c as usize, dy)),
                    None => match art_anchor(rows, dy as int) {
                        Some((c, r)) => Some((c as usize, r as usize)),
                        None => None::<(usize, usize)>,
                    },
                }),
            decreases row@.len() - dx,
        {
            if row[dx] == 'o' {
                anchor = Some((dx, dy));
            }
            dx = dx + 1;
        }
        let mut dx: usize = 0;
        while dx < aw
            invariant
                srow@ == stretched(rows[dy as int], stretch, elong as nat),
                srow@.len() == aw,
                x0 + aw + kashida == GRID_W,
                top + dy < GRID_H,
                art.top as int == top,
                dy < h,
                h == rows.len(),
                img.wf(),
                img.advance == aw + kashida,
                dx <= aw,
                forall|x: int, y: int|
                    on_canvas(x, y) ==> #[trigger] img.at(x, y) == ((y < top + dy || (y == top + dy && x < x0 + dx)) && top <= y < top
                        + rows.len() && 0 <= x - x0 < stretched(rows[y - top], stretch, elong as nat).len()
                        && stretched(rows[y - top], stretch, elong as nat)[x - x0] == '#'),
            decreases aw - dx,
        {
            if srow[dx] == '#' {
                img.set(x0 + dx, art.top + dy);
            }
            dx = dx + 1;
        }
        dy = dy + 1;
    }
    // Kashida: extend the baseline through the elongation columns.
    let mut e: usize = 0;
    while e < kashida
        invariant
            x0 + aw + kashida == GRID_W,
            img.wf(),
            img.advance == aw + kashida,
            e <= kashida,
            forall|x: int, y: int|
                on_canvas(x, y) ==> #[trigger] img.at(x, y) == ((top <= y < top + rows.len() && 0
                    <= x - x0 < stretched(rows[y - top], stretch, elong as nat).len() && stretched(
                    rows[y - top],
                    stretch,
                    elong as nat,
                )[x - x0] == '#') || (y == BASELINE_ROW && GRID_W - e <= x < GRID_W)),
        decreases kashida - e,
    {
        img.set(GRID_W - 1 - e, BASELINE_ROW);
        e = e + 1;
    }
    assert(forall|x: int, y: int| on_canvas(x, y) ==> #[trigger] img.at(x, y) == base(x, y));
    proof {
        lemma_art_anchor_bounds(rows, h as int);
    }
    let anchor_abs = match anchor {
        Some((dx, dy)) => Some((x0 + dx, art.top + dy)),
        None => None,
    };
    let ghost before: Ink = ink_of(img);
    stamp_dots(&mut img, dots, x0, aw, art.top, art.top + h - 1, anchor_abs);
    let ghost pts_exec = dot_cells(dots, x0 as int, aw as int, art.top as int, (art.top + h - 1) as int,
        match anchor_abs { Some((ac, ar)) => Some((ac as int, ar as int)), None => None });
    assert(forall|x: int, y: int| on_canvas(x, y) ==> #[trigger] img.at(x, y) == stamp_all(before, pts_exec)(x, y));
    proof {
        lemma_stamp_all_ext(before, base, dot_cells(dots, x0 as int, aw as int, top, top + rows.len() - 1,
            match anchor_abs { Some((ac, ar)) => Some((ac as int, ar as int)), None => None }));
    }
    proof {
        let ghost anc_spec = match art_anchor(rows, rows.len() as int) {
            Some((dx, dy)) => Some((x0 + dx, top + dy)),
            None => None,
        };
        let ghost anc_exec = match anchor_abs {
            Some((ac, ar)) => Some((ac as int, ar as int)),
            None => None,
        };
        assert(anc_spec == anc_exec);
        let pts = dot_cells(dots, x0 as int, aw as int, top, top + rows.len() - 1, anc_spec);
        assert(spec_class_art(class, form) == Some((top as nat, rows)));
        assert(spec_render(class, dots, form, elong as nat) == Some((stamp_all(base, pts), (aw + kashida) as nat)));
        assert(pts == pts_exec);
        assert forall|x: int, y: int| on_canvas(x, y) implies #[trigger] img.at(x, y) == stamp_all(base, pts)(x, y) by {
            assert(img.at(x, y) == stamp_all(before, pts_exec)(x, y));
        }
    }
    Some(img)
}

/// Stamping depends only on the ink on the canvas.
pub proof fn lemma_stamp_all_ext(a: Ink, b: Ink, pts: Seq<(int, int)>)
    requires
        forall|x: int, y: int| on_canvas(x, y) ==> a(x, y) == b(x, y),
    ensures
        forall|x: int, y: int| on_canvas(x, y) ==> #[trigger] stamp_all(a, pts)(x, y) == stamp_all(b, pts)(x, y),
    decreases pts.len(),
{
    if pts.len() > 0 {
        let a1 = stamp_one(a, pts[0]);
        let b1 = stamp_one(b, pts[0]);
        assert(spec_clear_around(a, pts[0].0, pts[0].1) == spec_clear_around(b, pts[0].0, pts[0].1));
        assert forall|x: int, y: int| on_canvas(x, y) implies a1(x, y) == b1(x, y) by {}
        lemma_stamp_all_ext(a1, b1, pts.drop_first());
        assert(stamp_all(a, pts) == stamp_all(a1, pts.drop_first()));
        assert(stamp_all(b, pts) == stamp_all(b1, pts.drop_first()));
    }
}

/// Stamping only adds ink.
pub proof fn lemma_stamp_grows(ink: Ink, pts: Seq<(int, int)>)
    ensures
        forall|x: int, y: int| ink(x, y) ==> #[trigger] stamp_all(ink, pts)(x, y),
    decreases pts.len(),
{
    if pts.len() > 0 {
        let ink1 = stamp_one(ink, pts[0]);
        lemma_stamp_grows(ink1, pts.drop_first());
        assert(stamp_all(ink, pts) == stamp_all(ink1, pts.drop_first()));
    }
}

/// Every cell stamping adds is on the canvas and clear of the starting
/// ink: neither it nor any 4-neighbour was inked.
pub proof fn lemma_stamp_clear(ink: Ink, pts: Seq<(int, int)>)
    ensures
        forall|x: int, y: int|
            #[trigger] stamp_all(ink, pts)(x, y) && !ink(x, y) ==> on_canvas(x, y)
                && spec_clear_around(ink, x, y),
    decreases pts.len(),
{
    if pts.len() > 0 {
        let ink1 = stamp_one(ink, pts[0]);
        lemma_stamp_clear(ink1, pts.drop_first());
        assert(stamp_all(ink, pts) == stamp_all(ink1, pts.drop_first()));
        assert forall|x: int, y: int| #[trigger] stamp_all(ink, pts)(x, y) && !ink(x, y) implies on_canvas(x, y)
            && spec_clear_around(ink, x, y) by {
            if !ink1(x, y) {
                assert(spec_clear_around(ink1, x, y));
            }
        }
    }
}

/// Stamped dots stay apart: no 4-neighbour of a cell that stamping
/// added is inked in the result, neither starting ink nor another dot.
pub proof fn lemma_stamp_apart(ink: Ink, pts: Seq<(int, int)>)
    ensures
        forall|x: int, y: int|
            #[trigger] stamp_all(ink, pts)(x, y) && !ink(x, y) ==> !inked(stamp_all(ink, pts), x + 1, y)
                && !inked(stamp_all(ink, pts), x - 1, y) && !inked(stamp_all(ink, pts), x, y + 1)
                && !inked(stamp_all(ink, pts), x, y - 1),
    decreases pts.len(),
{
    if pts.len() > 0 {
        let ink1 = stamp_one(ink, pts[0]);
        let rest = pts.drop_first();
        let fin = stamp_all(ink1, rest);
        lemma_stamp_apart(ink1, rest);
        lemma_stamp_clear(ink1, rest);
        assert(stamp_all(ink, pts) == fin);
        assert forall|x: int, y: int| #[trigger] fin(x, y) && !ink(x, y) implies !inked(fin, x + 1, y)
            && !inked(fin, x - 1, y) && !inked(fin, x, y + 1) && !inked(fin, x, y - 1) by {
            if ink1(x, y) {
                // the dot stamped first: its neighbours were clear of `ink`, and
                // no later dot lands next to it
                assert(x == pts[0].0 && y == pts[0].1 && on_canvas(x, y) && spec_clear_around(ink, x, y));
                assert(inked(ink1, x, y));
                if fin(x + 1, y) && !ink1(x + 1, y) {
                    assert(spec_clear_around(ink1, x + 1, y));
                }
                if fin(x - 1, y) && !ink1(x - 1, y) {
                    assert(spec_clear_around(ink1, x - 1, y));
                }
                if fin(x, y + 1) && !ink1(x, y + 1) {
                    assert(spec_clear_around(ink1, x, y + 1));
                }
                if fin(x, y - 1) && !ink1(x, y - 1) {
                    assert(spec_clear_around(ink1, x, y - 1));
                }
            }
        }
    }
}

/// Dots never merge with the letter or with each other: every rendered
/// cell outside the body and kashida is on the canvas, neither it nor
/// any of its 4-neighbours belongs to the body, and no 4-neighbour of it
/// is inked at all; and the body itself is always drawn.
pub proof fn lemma_render_dots_clear(class: Class, dots: Dots, form: Form, elong: nat)
    requires
        render_fits(class, form, elong),
    ensures
        spec_render(class, dots, form, elong) matches Some((ink, _adv)) ==> {
            let body = spec_render_body(class, form, elong);
            &&& forall|x: int, y: int| body(x, y) ==> #[trigger] ink(x, y)
            &&& forall|x: int, y: int|
                #[trigger] ink(x, y) && !body(x, y) ==> on_canvas(x, y) && spec_clear_around(
                    body,
                    x,
                    y,
                ) && !inked(ink, x + 1, y) && !inked(ink, x - 1, y) && !inked(ink, x, y + 1)
                    && !inked(ink, x, y - 1)
        },
{
    if let Some((ink, _adv)) = spec_render(class, dots, form, elong) {
        let (top, rows) = spec_class_art(class, form).unwrap();
        let x0 = body_x0(class, form, elong);
        let aw = body_width(rows, class, elong);
        let anchor = match art_anchor(rows, rows.len() as int) {
            Some((dx, dy)) => Some((x0 + dx, top + dy)),
            None => None,
        };
        let pts = dot_cells(dots, x0, aw as int, top as int, top + rows.len() - 1, anchor);
        lemma_stamp_grows(spec_render_body(class, form, elong), pts);
        lemma_stamp_clear(spec_render_body(class, form, elong), pts);
        lemma_stamp_apart(spec_render_body(class, form, elong), pts);
    }
}

/// Joined letters connect on the baseline: a form that joins the
/// previous letter has ink at the canvas's right edge on the baseline
/// (its entry), and a form that joins the next letter has ink at the
/// left edge of its advance on the baseline (its exit).
pub proof fn lemma_render_connects(class: Class, dots: Dots, form: Form, elong: nat)
    requires
        render_fits(class, form, elong),
    ensures
        spec_render(class, dots, form, elong) matches Some((ink, adv)) ==> {
            &&& form.spec_joins_prev() ==> ink(GRID_W - 1, BASELINE_ROW as int)
            &&& form.spec_joins_next() ==> ink(GRID_W - adv, BASELINE_ROW as int)
        },
{
    lemma_class_art_shape(class, form);
    lemma_render_dots_clear(class, dots, form, elong);
    if let Some((ink, adv)) = spec_render(class, dots, form, elong) {
        let (top, rows) = spec_class_art(class, form).unwrap();
        let body = spec_render_body(class, form, elong);
        let row = rows[BASELINE_ROW - top];
        if form.spec_joins_prev() {
            assert(!(class is Latin));
            if elong == 0 {
                assert(body(GRID_W - 1, BASELINE_ROW as int));
            } else {
                assert(body(GRID_W - 1, BASELINE_ROW as int));
            }
        }
        if form.spec_joins_next() {
            assert(!(class is Latin));
            assert(stretched(row, stretch_col(class, elong), elong) == row);
            assert(body(GRID_W - adv, BASELINE_ROW as int));
        }
    }
}

/// Elongation widens a glyph by exactly `elong` cells when the glyph is
/// elongatable (kashida on joined Arabic forms, a stretch column on
/// Latin), and leaves its advance unchanged otherwise.
pub proof fn lemma_render_advance(class: Class, dots: Dots, form: Form, elong: nat)
    requires
        render_fits(class, form, elong),
    ensures
        spec_render(class, dots, form, elong) matches Some((_ink, adv)) ==> spec_render(
            class,
            dots,
            form,
            0,
        ) matches Some((_ink0, adv0)) && adv == adv0 + if spec_elongatable(class, form) {
            elong
        } else {
            0
        },
{
}

/// The alphabet's letters, as a membership test.
pub open spec fn in_alphabet(c: char) -> bool {
    exists|k: int| 0 <= k < spec_alphabet().len() && #[trigger] spec_alphabet()[k] == c
}

/// Latin letters sit at the end of the alphabet, in order.
proof fn lemma_alphabet_latin(c: char)
    requires
        'A' <= c <= 'Z',
    ensures
        spec_alphabet()[32 + (c as int - 65)] == c,
{
    assert(spec_alphabet().len() == 58);
    assert('A' as int == 65);
    let k = c as int - 65;
    assert(0 <= k < 26);
    assert(spec_alphabet()[32 + k] == ((65 + k) as char)) by {
        assert(spec_alphabet()[32] == 'A');
        assert(spec_alphabet()[57] == 'Z');
    }
}

/// Hamza carriers, presentation forms and lowercase Latin fold onto the
/// alphabet letter of the same class and dots; alphabet letters are
/// supported and are their own canonical form.
pub proof fn lemma_canonical_folds(c: char)
    ensures
        spec_letter_of_char(c) is Some ==> in_alphabet(spec_canonical_char(c))
            && spec_letter_of_char(spec_canonical_char(c)) == spec_letter_of_char(c),
        in_alphabet(c) ==> spec_canonical_char(c) == c && spec_letter_of_char(c) is Some,
{
    let a = spec_alphabet();
    if 'a' <= c <= 'z' {
        let u = spec_canonical_char(c);
        assert(u as int == c as int - 32);
        lemma_alphabet_latin(u);
    } else if 'A' <= c <= 'Z' {
        lemma_alphabet_latin(c);
    } else {
        assert(a[0] == 'ا');
        assert(a[1] == 'ب');
        assert(a[2] == 'ت');
        assert(a[3] == 'ث');
        assert(a[4] == 'ج');
        assert(a[5] == 'ح');
        assert(a[6] == 'خ');
        assert(a[7] == 'د');
        assert(a[8] == 'ذ');
        assert(a[9] == 'ر');
        assert(a[10] == 'ز');
        assert(a[11] == 'س');
        assert(a[12] == 'ش');
        assert(a[13] == 'ص');
        assert(a[14] == 'ض');
        assert(a[15] == 'ط');
        assert(a[16] == 'ظ');
        assert(a[17] == 'ع');
        assert(a[18] == 'غ');
        assert(a[19] == 'ف');
        assert(a[20] == 'ق');
        assert(a[21] == 'ك');
        assert(a[22] == 'ل');
        assert(a[23] == 'م');
        assert(a[24] == 'ن');
        assert(a[25] == 'ه');
        assert(a[26] == 'ة');
        assert(a[27] == 'و');
        assert(a[28] == 'ي');
        assert(a[29] == 'ى');
        assert(a[30] == 'ء');
        assert(a[31] == 'ﻻ');
    }
    if in_alphabet(c) {
        let k = choose|k: int| 0 <= k < a.len() && #[trigger] a[k] == c;
        if k >= 32 {
            assert(a[k] == ((65 + (k - 32)) as char)) by {
                assert(a[32] == 'A');
            }
        }
    }
}


/// How many elongations the teacher draws a (class, form) at: 0 to
/// `MAX_ELONG` where it can stretch, else only 0.
pub open spec fn elongation_count(class: Class, form: Form) -> nat {
    if spec_elongatable(class, form) {
        (MAX_ELONG + 1) as nat
    } else {
        1
    }
}

/// The drawable contexts of letter `li` (class `class`) in one form:
/// each elongation, when the class has that form.
pub open spec fn form_contexts(li: int, class: Class, form: Form) -> Seq<(int, Form, int)> {
    if spec_class_art(class, form) is Some {
        Seq::new(elongation_count(class, form), |e: int| (li, form, e))
    } else {
        seq![]
    }
}

/// The drawable contexts of alphabet letter `li`, form by form in index
/// order.
pub open spec fn letter_contexts(li: int) -> Seq<(int, Form, int)> {
    match spec_letter_of_char(spec_alphabet()[li]) {
        Some((class, _)) => form_contexts(li, class, Form::Isolated) + form_contexts(li, class, Form::Initial)
            + form_contexts(li, class, Form::Medial) + form_contexts(li, class, Form::Final),
        None => seq![],
    }
}

/// The drawable contexts of the first `k` alphabet letters.
pub open spec fn contexts_upto(k: int) -> Seq<(int, Form, int)>
    decreases k,
{
    if k <= 0 {
        seq![]
    } else {
        contexts_upto(k - 1) + letter_contexts(k - 1)
    }
}

/// The value of a list of contexts.
pub open spec fn contexts_view(v: Seq<(usize, Form, usize)>) -> Seq<(int, Form, int)> {
    v.map_values(|c: (usize, Form, usize)| (c.0 as int, c.1, c.2 as int))
}

fn push_form_contexts(out: &mut Vec<(usize, Form, usize)>, li: usize, class: Class, form: Form)
    ensures
        contexts_view(final(out)@) == contexts_view(old(out)@) + form_contexts(li as int, class, form),
{
    let ghost o0 = contexts_view(out@);
    if class_art(class, form).is_none() {
        assert(form_contexts(li as int, class, form) =~= Seq::<(int, Form, int)>::empty());
        assert(contexts_view(out@) =~= o0 + form_contexts(li as int, class, form));
        return;
    }
    let count: usize = if elongatable(class, form) {
        MAX_ELONG + 1
    } else {
        1
    };
    let mut e: usize = 0;
    while e < count
        invariant
            e <= count,
            count == elongation_count(class, form),
            spec_class_art(class, form) is Some,
            contexts_view(out@) == o0 + form_contexts(li as int, class, form).take(e as int),
        decreases count - e,
    {
        let ghost before = contexts_view(out@);
        out.push((li, form, e));
        assert(contexts_view(out@) =~= before.push((li as int, form, e as int)));
        assert(form_contexts(li as int, class, form).take(e + 1) =~= form_contexts(li as int, class, form).take(
            e as int,
        ).push((li as int, form, e as int)));
        e = e + 1;
    }
    assert(form_contexts(li as int, class, form).take(count as int) =~= form_contexts(li as int, class, form));
}

/// Every context the teacher can draw, as (alphabet index, form,
/// elongation): letters in alphabet order, forms in index order,
/// elongations rising.
pub fn teacher_contexts() -> (r: Vec<(usize, Form, usize)>)
    ensures
        contexts_view(r@) == contexts_upto(spec_alphabet().len() as int),
{
    let letters = alphabet();
    let mut out: Vec<(usize, Form, usize)> = Vec::new();
    let mut li: usize = 0;
    assert(contexts_view(out@) =~= Seq::<(int, Form, int)>::empty());
    while li < letters.len()
        invariant
            letters@ == spec_alphabet(),
            li <= letters@.len(),
            contexts_view(out@) == contexts_upto(li as int),
        decreases letters@.len() - li,
    {
        let ghost before = contexts_view(out@);
        match letter_of_char(letters[li]) {
            Some((class, _)) => {
                push_form_contexts(&mut out, li, class, Form::Isolated);
                push_form_contexts(&mut out, li, class, Form::Initial);
                push_form_contexts(&mut out, li, class, Form::Medial);
                push_form_contexts(&mut out, li, class, Form::Final);
                assert(contexts_view(out@) =~= before + letter_contexts(li as int));
            },
            None => {
                assert(letter_contexts(li as int) =~= Seq::<(int, Form, int)>::empty());
                assert(contexts_view(out@) =~= before + letter_contexts(li as int));
            },
        }
        li = li + 1;
    }
    out
}

} // verus!
