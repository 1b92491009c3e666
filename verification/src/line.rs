//! Line layout on the grid: pen positions and the composited bitmap.
//!
//! The pen runs right to left from the line's right edge. A space (or
//! an unsupported character) advances it `SPACE_ADV` cells; a glyph
//! advances it by its advance width, plus `LETTER_GAP` when it does not
//! connect to the next glyph; a letter the glyph source cannot draw
//! takes no room. All glyph bitmaps are then composited into one
//! line-wide grid, which is traced once so that connected letters
//! become one continuous contour.
use vstd::prelude::*;
use crate::art::{
    class_art,
    latin_art,
    lemma_class_art_shape,
    letter_of_char,
    render,
    render_fits,
    spec_letter_of_char,
    spec_render,
    Class,
};
use crate::{cell_at, on_canvas, Form, GlyphImage, GRID_H, GRID_W};

verus! {

/// Width of a word space, in cells.
pub const SPACE_ADV: usize = 3;

/// Gap between unconnected letters, in cells.
pub const LETTER_GAP: usize = 1;

/// Does the cluster after `i` connect back to it?
pub open spec fn next_connects(forms: Seq<Option<Form>>, i: int) -> bool {
    i + 1 < forms.len() && match forms[i + 1] {
        Some(f) => f.spec_joins_prev(),
        None => false,
    }
}

/// How far cluster `i` moves the pen: `forms[i]` is its joining form
/// (`None` for a space or unsupported character) and `advances[i]` the
/// advance of its glyph (`None` when the source drew none).
pub open spec fn pen_step(forms: Seq<Option<Form>>, advances: Seq<Option<usize>>, i: int) -> int {
    match forms[i] {
        None => SPACE_ADV as int,
        Some(_) => match advances[i] {
            None => 0,
            Some(a) => a + if !next_connects(forms, i) && i + 1 < forms.len() {
                LETTER_GAP as int
            } else {
                0
            },
        },
    }
}

/// How far the pen has moved left before cluster `i`.
pub open spec fn pen_dist(forms: Seq<Option<Form>>, advances: Seq<Option<usize>>, i: int) -> int
    decreases i,
{
    if i <= 0 {
        0
    } else {
        pen_dist(forms, advances, i - 1) + pen_step(forms, advances, i - 1)
    }
}

proof fn lemma_pen_dist_bound(forms: Seq<Option<Form>>, advances: Seq<Option<usize>>, i: int)
    requires
        0 <= i <= forms.len(),
        forms.len() == advances.len(),
    ensures
        0 <= pen_dist(forms, advances, i) <= i * 0x1_0000_0000_0000_0000,
    decreases i,
{
    if i > 0 {
        lemma_pen_dist_bound(forms, advances, i - 1);
    }
}

/// The pen never moves back: a later cluster sits at least as far left.
pub proof fn lemma_pen_moves_left(
    forms: Seq<Option<Form>>,
    advances: Seq<Option<usize>>,
    i: int,
    j: int,
)
    requires
        0 <= i <= j,
    ensures
        pen_dist(forms, advances, i) <= pen_dist(forms, advances, j),
    decreases j - i,
{
    if i < j {
        lemma_pen_moves_left(forms, advances, i, j - 1);
    }
}

/// The pen distance before each cluster, and the line width (the
/// distance after the last one).
pub fn pen_offsets(forms: &[Option<Form>], advances: &[Option<usize>]) -> (r: (Vec<u128>, u128))
    requires
        forms@.len() == advances@.len(),
    ensures
        r.0@.len() == forms@.len(),
        forall|i: int| 0 <= i < forms@.len() ==> #[trigger] r.0@[i] == pen_dist(forms@, advances@, i),
        r.1 == pen_dist(forms@, advances@, forms@.len() as int),
{
    let n = forms.len();
    let mut out: Vec<u128> = Vec::new();
    let mut dist: u128 = 0;
    let mut i: usize = 0;
    while i < n
        invariant
            n == forms@.len(),
            n == advances@.len(),
            i <= n,
            out@.len() == i,
            dist == pen_dist(forms@, advances@, i as int),
            forall|j: int| 0 <= j < i ==> #[trigger] out@[j] == pen_dist(forms@, advances@, j),
        decreases n - i,
    {
        proof {
            lemma_pen_dist_bound(forms@, advances@, i as int);
            assert(i * 0x1_0000_0000_0000_0000 <= 0xffff_ffff_ffff_ffff * 0x1_0000_0000_0000_0000)
                by (nonlinear_arith)
                requires
                    i <= 0xffff_ffff_ffff_ffff,
            ;
        }
        out.push(dist);
        let step: u128 = match forms[i] {
            None => SPACE_ADV as u128,
            Some(_) => match advances[i] {
                None => 0,
                Some(a) => {
                    let connects = i + 1 < n && match forms[i + 1] {
                        Some(f) => f.joins_prev(),
                        None => false,
                    };
                    a as u128 + if !connects && i + 1 < n {
                        LETTER_GAP as u128
                    } else {
                        0
                    }
                },
            },
        };
        dist = dist + step;
        i = i + 1;
    }
    (out, dist)
}

/// The grid column of a glyph canvas's left edge in a line `width`
/// cells wide, its right edge `dist` cells left of the line's right
/// edge.
pub open spec fn canvas_left(width: int, dist: int) -> int {
    width - dist - GRID_W
}

/// Is cell `(x, y)` of the line inked by one of the first `k` glyphs?
pub open spec fn inked(imgs: Seq<GlyphImage>, dists: Seq<u128>, width: int, k: int, x: int, y: int) -> bool
    decreases k,
{
    if k <= 0 {
        false
    } else {
        inked(imgs, dists, width, k - 1, x, y) || cell_at(
            imgs[k - 1].cells@,
            x - canvas_left(width, dists[k - 1] as int),
            y,
        )
    }
}

/// Composite placed glyphs into one line-wide grid, `max(width, 1)`
/// cells wide and `GRID_H` tall, row-major: glyph `k` has its canvas's
/// right edge `dists[k]` cells left of the line's right edge; ink that
/// falls outside the line is dropped.
pub fn composite_line(imgs: &[GlyphImage], dists: &[u128], width: u128) -> (r: (Vec<bool>, usize))
    requires
        imgs@.len() == dists@.len(),
        forall|k: int| 0 <= k < imgs@.len() ==> (#[trigger] imgs@[k]).wf(),
        forall|k: int| 0 <= k < dists@.len() ==> #[trigger] dists@[k] <= width,
        width * GRID_H <= usize::MAX,
    ensures
        r.1 == if width == 0 {
            1
        } else {
            width as int
        },
        r.0@.len() == r.1 * GRID_H,
        forall|x: int, y: int|
            0 <= x < r.1 && 0 <= y < GRID_H ==> #[trigger] r.0@[y * r.1 + x] == inked(
                imgs@,
                dists@,
                width as int,
                imgs@.len() as int,
                x,
                y,
            ),
{
    let w: usize = if width == 0 {
        1
    } else {
        width as usize
    };
    let total = w * GRID_H;
    let mut cells: Vec<bool> = Vec::new();
    let mut i: usize = 0;
    while i < total
        invariant
            i <= total,
            cells@.len() == i,
            forall|j: int| 0 <= j < i ==> !#[trigger] cells@[j],
        decreases total - i,
    {
        cells.push(false);
        i = i + 1;
    }
    let ghost wi = w as int;
    assert forall|x: int, y: int|
        0 <= x < wi && 0 <= y < GRID_H implies 0 <= #[trigger] (y * wi + x) < total by {
        assert(y * wi + x < GRID_H * wi) by (nonlinear_arith)
            requires
                0 <= x < wi,
                0 <= y < GRID_H,
        ;
        assert(0 <= y * wi) by (nonlinear_arith)
            requires
                0 <= y,
                0 <= wi,
        ;
    }
    let mut k: usize = 0;
    while k < imgs.len()
        invariant
            imgs@.len() == dists@.len(),
            forall|j: int| 0 <= j < imgs@.len() ==> (#[trigger] imgs@[j]).wf(),
            forall|j: int| 0 <= j < dists@.len() ==> #[trigger] dists@[j] <= width,
            width * GRID_H <= usize::MAX,
            wi == w,
            w == (if width == 0 {
                1
            } else {
                width as int
            }),
            total == w * GRID_H,
            cells@.len() == total,
            k <= imgs@.len(),
            forall|x: int, y: int|
                0 <= x < wi && 0 <= y < GRID_H ==> 0 <= #[trigger] (y * wi + x) < total,
            forall|x: int, y: int|
                0 <= x < wi && 0 <= y < GRID_H ==> #[trigger] cells@[y * wi + x] == inked(
                    imgs@,
                    dists@,
                    width as int,
                    k as int,
                    x,
                    y,
                ),
        decreases imgs@.len() - k,
    {
        let img = &imgs[k];
        let left: i128 = width as i128 - dists[k] as i128 - GRID_W as i128;
        let ghost before = cells@;
        let mut cy: usize = 0;
        while cy < GRID_H
            invariant
                img.wf(),
                wi == w,
                total == w * GRID_H,
                cells@.len() == total,
                cy <= GRID_H,
                left == canvas_left(width as int, dists@[k as int] as int),
                -(GRID_W as int) <= left <= width,
                width * GRID_H <= usize::MAX,
                *img == imgs@[k as int],
                forall|x: int, y: int|
                    0 <= x < wi && 0 <= y < GRID_H ==> 0 <= #[trigger] (y * wi + x) < total,
                forall|x: int, y: int|
                    0 <= x < wi && 0 <= y < GRID_H ==> #[trigger] cells@[y * wi + x] == (before[y
                        * wi + x] || (y < cy && cell_at(img.cells@, x - left, y))),
            decreases GRID_H - cy,
        {
            let mut cx: usize = 0;
            while cx < GRID_W
                invariant
                    img.wf(),
                    wi == w,
                    total == w * GRID_H,
                    cells@.len() == total,
                    cy < GRID_H,
                    cx <= GRID_W,
                    left == canvas_left(width as int, dists@[k as int] as int),
                    -(GRID_W as int) <= left <= width,
                    width * GRID_H <= usize::MAX,
                    forall|x: int, y: int|
                        0 <= x < wi && 0 <= y < GRID_H ==> 0 <= #[trigger] (y * wi + x) < total,
                    forall|x: int, y: int|
                        0 <= x < wi && 0 <= y < GRID_H ==> #[trigger] cells@[y * wi + x] == (
                        before[y * wi + x] || (y < cy && cell_at(img.cells@, x - left, y)) || (y
                            == cy && x - left < cx && 0 <= x - left && cell_at(
                            img.cells@,
                            x - left,
                            y,
                        ))),
                decreases GRID_W - cx,
            {
                if img.get(cx, cy) {
                    let lx: i128 = left + cx as i128;
                    if lx >= 0 && lx < w as i128 {
                        let ghost idx = cy * wi + lx;
                        assert(0 <= idx < total);
                        cells.set(cy * w + lx as usize, true);
                        assert forall|x: int, y: int|
                            0 <= x < wi && 0 <= y < GRID_H implies #[trigger] cells@[y * wi + x]
                            == (before[y * wi + x] || (y < cy && cell_at(img.cells@, x - left, y))
                            || (y == cy && x - left < cx + 1 && 0 <= x - left && cell_at(
                            img.cells@,
                            x - left,
                            y,
                        ))) by {
                            if y * wi + x == idx {
                                assert(y == cy && x == lx) by (nonlinear_arith)
                                    requires
                                        y * wi + x == cy * wi + lx,
                                        0 <= x < wi,
                                        0 <= lx < wi,
                                        0 <= y,
                                        0 <= cy,
                                ;
                            }
                        }
                    }
                }
                cx = cx + 1;
            }
            cy = cy + 1;
        }
        assert forall|x: int, y: int|
            0 <= x < wi && 0 <= y < GRID_H implies #[trigger] cells@[y * wi + x] == inked(
            imgs@,
            dists@,
            width as int,
            k + 1,
            x,
            y,
        ) by {
            assert(imgs@[k as int] == *img);
        }
        k = k + 1;
    }
    (cells, w)
}

/// Can the teacher draw class `class` in `form` at elongation `elong`
/// on the canvas? (The body and its kashida must fit `GRID_W` cells.)
pub fn fits_canvas(class: Class, form: Form, elong: usize) -> (r: bool)
    ensures
        r == render_fits(class, form, elong as nat),
{
    let art = match class_art(class, form) {
        Some(a) => a,
        None => return true,
    };
    proof {
        lemma_class_art_shape(class, form);
    }
    let base_w = art.rows[0].unicode_len();
    assert(base_w == art.grid()[0].len());
    let stretch: Option<usize> = match class {
        Class::Latin(i) => if elong > 0 {
            latin_art(i).1
        } else {
            None
        },
        _ => None,
    };
    let kashida: usize = match class {
        Class::Latin(_) => 0,
        _ => if form.joins_prev() {
            elong
        } else {
            0
        },
    };
    let extra: usize = if stretch.is_some() {
        elong
    } else {
        kashida
    };
    assert(stretch is Some ==> kashida == 0);
    extra <= GRID_W - base_w
}

/// The teacher as a glyph source: the art of the letter `c`, in `form`,
/// elongated by `elong` where it stretches; `None` for a character
/// without art.
pub fn teacher_glyph(c: char, form: Form, elong: usize) -> (r: Option<GlyphImage>)
    requires
        spec_letter_of_char(c) matches Some((class, _)) ==> render_fits(class, form, elong as nat),
    ensures
        match spec_letter_of_char(c) {
            None => r is None,
            Some((class, dots)) => match spec_render(class, dots, form, elong as nat) {
                None => r is None,
                Some((ink, adv)) => r matches Some(img) && img.wf() && img.advance == adv
                    && forall|x: int, y: int| on_canvas(x, y) ==> #[trigger] img.at(x, y) == ink(x, y),
            },
        },
{
    match letter_of_char(c) {
        None => None,
        Some((class, dots)) => render(class, dots, form, elong),
    }
}

/// How the pen moves past each cluster: a space (or unsupported
/// character) takes 3 cells; a letter the source drew takes its advance,
/// plus a 1-cell gap unless it is the last cluster or the next cluster is
/// a letter in medial or final form (one that joins back to it); a letter
/// the source could not draw takes no room.
pub proof fn lemma_pen_step_rules(forms: Seq<Option<Form>>, advances: Seq<Option<usize>>, i: int)
    requires
        0 <= i < forms.len(),
        forms.len() == advances.len(),
    ensures
        forms[i] is None ==> pen_dist(forms, advances, i + 1) - pen_dist(forms, advances, i) == 3,
        forms[i] is Some && advances[i] is None ==> pen_dist(forms, advances, i + 1) == pen_dist(
            forms,
            advances,
            i,
        ),
        forms[i] is Some && advances[i] is Some ==> pen_dist(forms, advances, i + 1) - pen_dist(
            forms,
            advances,
            i,
        ) == advances[i]->0 + if i + 1 < forms.len() && !(forms[i + 1] is Some && (
        forms[i + 1]->0 is Medial || forms[i + 1]->0 is Final)) {
            1int
        } else {
            0int
        },
{
}

} // verus!
