//! Pixel sheets for the comparison and cascade figures: panels copied
//! into a sheet, the comparison layout, and guarded RGBA writes.
use vstd::prelude::*;
use vstd::arithmetic::div_mod::{lemma_fundamental_div_mod, lemma_fundamental_div_mod_converse};

verus! {

/// Pixel `p` of a sheet `sw` wide lies in the `pw x ph` rectangle at
/// (`x0`, `y0`).
pub open spec fn in_rect(p: int, sw: int, x0: int, y0: int, pw: int, ph: int) -> bool {
    &&& x0 <= p % sw < x0 + pw
    &&& y0 <= p / sw < y0 + ph
}

/// Pixel `p` after copying the `pw x ph` panel to (`x0`, `y0`) of a
/// sheet `sw` wide: the panel's pixel inside the rectangle, the old one
/// elsewhere.
pub open spec fn blit_pixel(
    old: Seq<u8>,
    panel: Seq<u8>,
    sw: int,
    pw: int,
    ph: int,
    x0: int,
    y0: int,
    p: int,
) -> u8 {
    if in_rect(p, sw, x0, y0, pw, ph) {
        panel[(p / sw - y0) * pw + (p % sw - x0)]
    } else {
        old[p]
    }
}

proof fn lemma_cell(p: int, sw: int, x: int, y: int)
    requires
        sw > 0,
        0 <= x < sw,
        0 <= y,
        p == y * sw + x,
    ensures
        p / sw == y,
        p % sw == x,
{
    lemma_fundamental_div_mod_converse(p, sw, y, x);
}

proof fn lemma_same_cell(p: int, q: int, sw: int)
    requires
        sw > 0,
        p >= 0,
        q >= 0,
        p / sw == q / sw,
        p % sw == q % sw,
    ensures
        p == q,
{
    lemma_fundamental_div_mod(p, sw);
    lemma_fundamental_div_mod(q, sw);
}

proof fn lemma_panel_index(py: int, px: int, pw: int, ph: int)
    requires
        0 <= py < ph,
        0 <= px < pw,
    ensures
        0 <= py * pw + px < pw * ph,
{
    assert(0 <= py * pw + px < pw * ph) by (nonlinear_arith)
        requires
            0 <= py < ph,
            0 <= px < pw,
    ;
}

/// Copy the `pw x ph` panel (row-major) into the sheet `sw` wide with
/// its top-left pixel at (`x0`, `y0`).
pub fn blit(sheet: &mut Vec<u8>, sw: usize, panel: &[u8], pw: usize, ph: usize, x0: usize, y0: usize)
    requires
        panel@.len() == pw * ph,
        x0 + pw <= sw,
        (y0 + ph) * sw <= old(sheet)@.len(),
    ensures
        final(sheet)@.len() == old(sheet)@.len(),
        forall|p: int|
            0 <= p < old(sheet)@.len() ==> #[trigger] final(sheet)@[p] == blit_pixel(
                old(sheet)@,
                panel@,
                sw as int,
                pw as int,
                ph as int,
                x0 as int,
                y0 as int,
                p,
            ),
{
    let ghost s0 = sheet@;
    let total = sheet.len();
    let ghost n = s0.len();
    if pw == 0 || ph == 0 {
        return;
    }
    let mut py: usize = 0;
    while py < ph
        invariant
            panel@.len() == pw * ph,
            pw > 0,
            ph > 0,
            x0 + pw <= sw,
            (y0 + ph) * sw <= n,
            n == s0.len(),
            n == total,
            sheet@.len() == n,
            py <= ph,
            forall|p: int|
                0 <= p < n ==> #[trigger] sheet@[p] == if in_rect(p, sw as int, x0 as int, y0 as int, pw as int, py as int) {
                    blit_pixel(s0, panel@, sw as int, pw as int, ph as int, x0 as int, y0 as int, p)
                } else {
                    s0[p]
                },
        decreases ph - py,
    {
        let mut px: usize = 0;
        while px < pw
            invariant
                panel@.len() == pw * ph,
                pw > 0,
                x0 + pw <= sw,
                (y0 + ph) * sw <= n,
                n == s0.len(),
                n == total,
                sheet@.len() == n,
                py < ph,
                px <= pw,
                forall|p: int|
                    0 <= p < n ==> #[trigger] sheet@[p] == if in_rect(p, sw as int, x0 as int, y0 as int, pw as int, py as int)
                        || (p / (sw as int) == y0 + py && x0 <= p % (sw as int) < x0 + px) {
                        blit_pixel(s0, panel@, sw as int, pw as int, ph as int, x0 as int, y0 as int, p)
                    } else {
                        s0[p]
                    },
            decreases pw - px,
        {
            proof {
                assert((y0 + py) * sw + sw <= (y0 + ph) * sw) by (nonlinear_arith)
                    requires
                        py < ph,
                ;
                assert((y0 + py) * sw + x0 + px < total);
                assert(y0 + py <= (y0 + py) * sw) by (nonlinear_arith)
                    requires
                        sw >= 1,
                ;
                lemma_panel_index(py as int, px as int, pw as int, ph as int);
                assert(py * pw + px < panel.len());
            }
            let q = (y0 + py) * sw + x0 + px;
            let v = panel[py * pw + px];
            let ghost s1 = sheet@;
            sheet.set(q, v);
            proof {
                lemma_cell(q as int, sw as int, (x0 + px) as int, (y0 + py) as int);
                assert forall|p: int| 0 <= p < n implies #[trigger] sheet@[p] == if in_rect(
                    p,
                    sw as int,
                    x0 as int,
                    y0 as int,
                    pw as int,
                    py as int,
                ) || (p / (sw as int) == y0 + py && x0 <= p % (sw as int) < x0 + px + 1) {
                    blit_pixel(s0, panel@, sw as int, pw as int, ph as int, x0 as int, y0 as int, p)
                } else {
                    s0[p]
                } by {
                    if p == q {
                        assert(in_rect(p, sw as int, x0 as int, y0 as int, pw as int, ph as int));
                    } else {
                        assert(sheet@[p] == s1[p]);
                        if p / (sw as int) == y0 + py && p % (sw as int) == x0 + px {
                            lemma_same_cell(p, q as int, sw as int);
                        }
                    }
                }
            }
            px = px + 1;
        }
        proof {
            assert forall|p: int| 0 <= p < n implies #[trigger] sheet@[p] == if in_rect(
                p,
                sw as int,
                x0 as int,
                y0 as int,
                pw as int,
                py + 1,
            ) {
                blit_pixel(s0, panel@, sw as int, pw as int, ph as int, x0 as int, y0 as int, p)
            } else {
                s0[p]
            } by {}
        }
        py = py + 1;
    }
}


/// The width of comparison column `i`: the wider of its two panels
/// (`sizes` holds each column's top and bottom panel sizes in turn).
pub open spec fn column_width(sizes: Seq<(usize, usize)>, i: int) -> int {
    let a = sizes[2 * i].0 as int;
    let b = sizes[2 * i + 1].0 as int;
    if a >= b {
        a
    } else {
        b
    }
}

/// Where column `i` starts: one gap, then each earlier column and a gap.
pub open spec fn column_start(sizes: Seq<(usize, usize)>, gap: int, i: int) -> int
    decreases i,
{
    if i <= 0 {
        gap
    } else {
        column_start(sizes, gap, i - 1) + column_width(sizes, i - 1) + gap
    }
}

/// The tallest panel of row `row` (0 top, 1 bottom) among the first `i`
/// columns.
pub open spec fn row_height(sizes: Seq<(usize, usize)>, row: int, i: int) -> int
    decreases i,
{
    if i <= 0 {
        0
    } else {
        let h = sizes[2 * (i - 1) + row].1 as int;
        let m = row_height(sizes, row, i - 1);
        if h >= m {
            h
        } else {
            m
        }
    }
}

/// The layout of a comparison sheet.
pub struct CompareLayout {
    /// Left edge of each column.
    pub col_x: Vec<usize>,
    /// Top edge of the top and of the bottom row.
    pub top_y: usize,
    pub bottom_y: usize,
    pub width: usize,
    pub height: usize,
}

/// Lay out a comparison sheet: each column holds a top and a bottom
/// panel (`sizes` lists them in turn as width and height) and is as wide
/// as the wider; each row is as tall as its tallest panel; a gap
/// surrounds and separates everything.
pub fn compare_layout(sizes: &[(usize, usize)], gap: usize) -> (r: CompareLayout)
    requires
        sizes@.len() >= 2,
        sizes@.len() % 2 == 0,
        column_start(sizes@, gap as int, sizes@.len() as int / 2) <= usize::MAX,
        row_height(sizes@, 0, sizes@.len() as int / 2) + row_height(sizes@, 1, sizes@.len() as int / 2) + 3 * gap
            <= usize::MAX,
    ensures
        r.col_x@.len() == sizes@.len() / 2,
        forall|i: int| 0 <= i < r.col_x@.len() ==> #[trigger] r.col_x@[i] == column_start(sizes@, gap as int, i),
        r.top_y == gap,
        r.bottom_y == 2 * gap + row_height(sizes@, 0, sizes@.len() as int / 2),
        r.width == column_start(sizes@, gap as int, sizes@.len() as int / 2),
        r.height == row_height(sizes@, 0, sizes@.len() as int / 2) + row_height(sizes@, 1, sizes@.len() as int / 2) + 3 * gap,
{
    let len = sizes.len();
    let n = len / 2;
    let mut col_x: Vec<usize> = Vec::new();
    let mut x: usize = gap;
    let mut h0: usize = 0;
    let mut h1: usize = 0;
    let mut i: usize = 0;
    while i < n
        invariant
            n == sizes@.len() / 2,
            sizes@.len() == 2 * n,
            len == sizes@.len(),
            i <= n,
            column_start(sizes@, gap as int, n as int) <= usize::MAX,
            x == column_start(sizes@, gap as int, i as int),
            h0 == row_height(sizes@, 0, i as int),
            h1 == row_height(sizes@, 1, i as int),
            col_x@.len() == i,
            forall|k: int| 0 <= k < i ==> #[trigger] col_x@[k] == column_start(sizes@, gap as int, k),
        decreases n - i,
    {
        proof {
            lemma_column_start_grows(sizes@, gap as int, i as int + 1, n as int);
        }
        col_x.push(x);
        let a = sizes[2 * i].0;
        let b = sizes[2 * i + 1].0;
        let cw = if a >= b {
            a
        } else {
            b
        };
        x = x + cw + gap;
        let t0 = sizes[2 * i].1;
        let t1 = sizes[2 * i + 1].1;
        if t0 >= h0 {
            h0 = t0;
        }
        if t1 >= h1 {
            h1 = t1;
        }
        i = i + 1;
    }
    CompareLayout { col_x, top_y: gap, bottom_y: 2 * gap + h0, width: x, height: h0 + h1 + 3 * gap }
}

proof fn lemma_column_start_grows(sizes: Seq<(usize, usize)>, gap: int, i: int, n: int)
    requires
        0 <= i <= n,
        gap >= 0,
        2 * n <= sizes.len(),
    ensures
        column_start(sizes, gap, i) <= column_start(sizes, gap, n),
    decreases n - i,
{
    if i < n {
        lemma_column_start_grows(sizes, gap, i + 1, n);
    }
}

/// Byte `c` of RGBA pixel `p`.
pub open spec fn rgba_at(s: Seq<u8>, p: int, c: int) -> u8 {
    s[4 * p + c]
}

/// The RGBA colour of a grey comparison pixel `v` in row `y` of a sheet
/// whose bottom part starts at row `split`: ink (grey above, green
/// below) where `v` exceeds 128, transparent elsewhere.
pub open spec fn compare_colour(v: u8, y: int, split: int, c: int) -> u8 {
    if v <= 128 {
        0
    } else if c == 3 {
        255
    } else if y < split {
        110
    } else if c == 0 {
        42
    } else if c == 1 {
        163
    } else {
        95
    }
}

/// Colour a grey comparison sheet `sw` wide (see `compare_colour`).
pub fn compare_rgba(sheet: &[u8], sw: usize, split: usize) -> (r: Vec<u8>)
    requires
        sw > 0,
        4 * sheet@.len() <= usize::MAX,
    ensures
        r@.len() == 4 * sheet@.len(),
        forall|p: int, c: int|
            0 <= p < sheet@.len() && 0 <= c < 4 ==> #[trigger] rgba_at(r@, p, c) == compare_colour(
                sheet@[p],
                p / (sw as int),
                split as int,
                c,
            ),
{
    let mut out: Vec<u8> = Vec::new();
    let mut p: usize = 0;
    while p < sheet.len()
        invariant
            sw > 0,
            4 * sheet@.len() <= usize::MAX,
            p <= sheet@.len(),
            out@.len() == 4 * p,
            forall|q: int, c: int|
                0 <= q < p && 0 <= c < 4 ==> #[trigger] rgba_at(out@, q, c) == compare_colour(
                    sheet@[q],
                    q / (sw as int),
                    split as int,
                    c,
                ),
        decreases sheet@.len() - p,
    {
        let v = sheet[p];
        let (b0, b1, b2, b3): (u8, u8, u8, u8) = if v > 128 {
            if p / sw < split {
                (110, 110, 110, 255)
            } else {
                (42, 163, 95, 255)
            }
        } else {
            (0, 0, 0, 0)
        };
        let ghost o0 = out@;
        out.push(b0);
        out.push(b1);
        out.push(b2);
        out.push(b3);
        proof {
            assert(out@.len() == 4 * p + 4);
            assert(out@[4 * p] == b0 && out@[4 * p + 1] == b1 && out@[4 * p + 2] == b2 && out@[4 * p + 3] == b3);
            assert forall|q: int, c: int| 0 <= q < p + 1 && 0 <= c < 4 implies #[trigger] rgba_at(out@, q, c)
                == compare_colour(sheet@[q], q / (sw as int), split as int, c) by {
                if q < p {
                    assert(out@[4 * q + c] == o0[4 * q + c]);
                    assert(rgba_at(o0, q, c) == compare_colour(sheet@[q], q / (sw as int), split as int, c));
                }
            }
        }
        p = p + 1;
    }
    out
}

/// Paint RGBA pixel (`x`, `y`) of a `w x h` image `c`, when it lies on
/// the image; elsewhere nothing changes.
pub fn put_rgba(img: &mut Vec<u8>, w: usize, h: usize, x: i64, y: i64, c: [u8; 4])
    requires
        old(img)@.len() == 4 * w * h,
    ensures
        final(img)@.len() == old(img)@.len(),
        (0 <= x < w && 0 <= y < h) ==> forall|p: int, k: int|
            0 <= p < w * h && 0 <= k < 4 ==> #[trigger] rgba_at(final(img)@, p, k) == if p == y * w + x {
                c@[k]
            } else {
                rgba_at(old(img)@, p, k)
            },
        !(0 <= x < w && 0 <= y < h) ==> final(img)@ == old(img)@,
{
    if x < 0 || y < 0 {
        return;
    }
    let xu = x as u64;
    let yu = y as u64;
    if xu >= w as u64 || yu >= h as u64 {
        return;
    }
    let xs = xu as usize;
    let ys = yu as usize;
    let total = img.len();
    proof {
        assert(4 * w * h == 4 * (w * h)) by (nonlinear_arith);
        assert(w * h <= total);
        assert(ys * w + xs < w * h) by (nonlinear_arith)
            requires
                ys < h,
                xs < w,
        ;
        assert(4 * (w * h) == 4 * w * h) by (nonlinear_arith);
    }
    let i = ys * w + xs;
    let ghost o0 = img@;
    img.set(4 * i, c[0]);
    img.set(4 * i + 1, c[1]);
    img.set(4 * i + 2, c[2]);
    img.set(4 * i + 3, c[3]);
    proof {
        assert forall|p: int, k: int| 0 <= p < w * h && 0 <= k < 4 implies #[trigger] rgba_at(img@, p, k) == if p
            == y * w + x {
            c@[k]
        } else {
            rgba_at(o0, p, k)
        } by {
            if p != i {
                assert(4 * p + k != 4 * i && 4 * p + k != 4 * i + 1 && 4 * p + k != 4 * i + 2 && 4 * p + k != 4 * i
                    + 3);
            }
        }
    }
}


/// The offsets of a round dot of radius `r`, row by row: every
/// (`dx`, `dy`) with both within `r` and `dx² + dy² <= r²`.
pub open spec fn disk_row(r: int, dy: int, dx: int) -> Seq<(int, int)>
    decreases r + 1 - dx,
{
    if dx > r {
        seq![]
    } else if dx * dx + dy * dy <= r * r {
        seq![(dx, dy)] + disk_row(r, dy, dx + 1)
    } else {
        disk_row(r, dy, dx + 1)
    }
}

/// The rows of a dot of radius `r` from row `dy` down.
pub open spec fn disk_rows(r: int, dy: int) -> Seq<(int, int)>
    decreases r + 1 - dy,
{
    if dy > r {
        seq![]
    } else {
        disk_row(r, dy, -r) + disk_rows(r, dy + 1)
    }
}

/// The offsets of a round dot of radius `r`, top row first, each row
/// left to right.
pub fn disk_offsets(r: i64) -> (v: Vec<(i64, i64)>)
    requires
        0 <= r <= 1000,
    ensures
        v@.map_values(|p: (i64, i64)| (p.0 as int, p.1 as int)) == disk_rows(r as int, -r),
{
    let mut out: Vec<(i64, i64)> = Vec::new();
    let mut dy: i64 = -r;
    assert(out@.map_values(|p: (i64, i64)| (p.0 as int, p.1 as int)) =~= Seq::<(int, int)>::empty());
    while dy <= r
        invariant
            0 <= r <= 1000,
            -r <= dy <= r + 1,
            disk_rows(r as int, -r) == out@.map_values(|p: (i64, i64)| (p.0 as int, p.1 as int)) + disk_rows(
                r as int,
                dy as int,
            ),
        decreases r + 1 - dy,
    {
        let ghost row_start = out@.map_values(|p: (i64, i64)| (p.0 as int, p.1 as int));
        let mut dx: i64 = -r;
        while dx <= r
            invariant
                0 <= r <= 1000,
                -r <= dy <= r,
                -r <= dx <= r + 1,
                row_start + disk_row(r as int, dy as int, -r) == out@.map_values(
                    |p: (i64, i64)| (p.0 as int, p.1 as int),
                ) + disk_row(r as int, dy as int, dx as int),
            decreases r + 1 - dx,
        {
            let ghost before = out@.map_values(|p: (i64, i64)| (p.0 as int, p.1 as int));
            proof {
                assert(dx * dx <= 1000 * 1000) by (nonlinear_arith)
                    requires
                        -1000 <= dx <= 1000,
                ;
                assert(dy * dy <= 1000 * 1000) by (nonlinear_arith)
                    requires
                        -1000 <= dy <= 1000,
                ;
                assert(r * r <= 1000 * 1000) by (nonlinear_arith)
                    requires
                        0 <= r <= 1000,
                ;
                assert(dx * dx >= 0 && dy * dy >= 0) by (nonlinear_arith);
            }
            if dx * dx + dy * dy <= r * r {
                out.push((dx, dy));
                assert(out@.map_values(|p: (i64, i64)| (p.0 as int, p.1 as int)) =~= before.push(
                    (dx as int, dy as int),
                ));
                assert(before + disk_row(r as int, dy as int, dx as int) =~= before.push((dx as int, dy as int))
                    + disk_row(r as int, dy as int, dx + 1));
            }
            dx = dx + 1;
        }
        assert(disk_row(r as int, dy as int, dx as int) =~= Seq::<(int, int)>::empty());
        assert(out@.map_values(|p: (i64, i64)| (p.0 as int, p.1 as int)) + disk_rows(r as int, dy + 1)
            =~= row_start + (disk_row(r as int, dy as int, -r) + disk_rows(r as int, dy + 1)));
        dy = dy + 1;
    }
    assert(disk_rows(r as int, dy as int) =~= Seq::<(int, int)>::empty());
    assert(out@.map_values(|p: (i64, i64)| (p.0 as int, p.1 as int)) =~= disk_rows(r as int, -r));
    out
}

} // verus!
