//! Proof sheets: stored fields laid out on a grid, six to a row, with a
//! four-pixel gap after each field.
use vstd::prelude::*;

verus! {

/// Pixels between neighbouring fields on a sheet.
pub const SHEET_GAP: usize = 4;

/// Fields per sheet row.
pub const SHEET_COLS: usize = 6;

/// How many fields a sheet shows when none are named.
pub const SHEET_DEFAULT: usize = 24;

/// The pixel at (`x`, `y`) of a sheet `cols` fields wide showing the
/// `w x h` fields `ids` of `bin` (field `i` stored row-major at
/// `i * w * h`): the field's pixel inside a field's cell, 0 in the gaps
/// and past the last field.
pub open spec fn sheet_pixel(
    bin: Seq<u8>,
    w: int,
    h: int,
    ids: Seq<usize>,
    cols: int,
    x: int,
    y: int,
) -> u8 {
    let cx = x % (w + SHEET_GAP);
    let cy = y % (h + SHEET_GAP);
    let k = (y / (h + SHEET_GAP)) * cols + x / (w + SHEET_GAP);
    if cx < w && cy < h && k < ids.len() {
        bin[ids[k] * w * h + cy * w + cx]
    } else {
        0
    }
}

/// The fields a sheet shows: the named ones, or the first
/// `SHEET_DEFAULT` of the `n` stored when none are named.
pub open spec fn sheet_ids(n: int, ids: Seq<usize>) -> Seq<usize> {
    if ids.len() == 0 {
        Seq::new(
            (if n < SHEET_DEFAULT {
                n
            } else {
                SHEET_DEFAULT as int
            }) as nat,
            |i: int| i as usize,
        )
    } else {
        ids
    }
}

/// Lay out a proof sheet: the fields `ids` (or, when none are named, the
/// first ones of the `n` stored) of the `w x h` fields in `bin`. Returns
/// the pixels, row-major, and the sheet's width and height.
pub fn proof_sheet(bin: &[u8], w: usize, h: usize, n: usize, ids: &[usize]) -> (r: (
    Vec<u8>,
    usize,
    usize,
))
    requires
        sheet_ids(n as int, ids@).len() > 0,
        forall|k: int|
            0 <= k < sheet_ids(n as int, ids@).len() ==> (#[trigger] sheet_ids(n as int, ids@)[k]
                + 1) * w * h <= bin@.len(),
        (w + SHEET_GAP) * SHEET_COLS * (sheet_ids(n as int, ids@).len() + SHEET_COLS) * (h
            + SHEET_GAP) <= usize::MAX,
    ensures
        ({
            let sel = sheet_ids(n as int, ids@);
            let cols = if sel.len() < SHEET_COLS {
                sel.len() as int
            } else {
                SHEET_COLS as int
            };
            let rows = (sel.len() + cols - 1) / cols;
            &&& r.1 == cols * (w + SHEET_GAP)
            &&& r.2 == rows * (h + SHEET_GAP)
            &&& r.0@.len() == r.1 * r.2
            &&& forall|x: int, y: int|
                0 <= x < r.1 && 0 <= y < r.2 ==> #[trigger] r.0@[y * r.1 + x] == sheet_pixel(
                    bin@,
                    w as int,
                    h as int,
                    sel,
                    cols,
                    x,
                    y,
                )
        }),
{
    let blen = bin.len();
    let mut sel: Vec<usize> = Vec::new();
    if ids.len() == 0 {
        let m = if n < SHEET_DEFAULT {
            n
        } else {
            SHEET_DEFAULT
        };
        let mut i: usize = 0;
        while i < m
            invariant
                i <= m,
                m <= SHEET_DEFAULT,
                sel@.len() == i,
                forall|j: int| 0 <= j < i ==> #[trigger] sel@[j] == j as usize,
            decreases m - i,
        {
            sel.push(i);
            i = i + 1;
        }
    } else {
        let mut i: usize = 0;
        while i < ids.len()
            invariant
                i <= ids@.len(),
                sel@ == ids@.take(i as int),
            decreases ids@.len() - i,
        {
            sel.push(ids[i]);
            i = i + 1;
        }
        assert(ids@.take(ids@.len() as int) == ids@);
    }
    assert(sel@ == sheet_ids(n as int, ids@));
    let len = sel.len();
    let cols = if len < SHEET_COLS {
        len
    } else {
        SHEET_COLS
    };
    let ghost s = sel@;
    let ghost total = (w + SHEET_GAP) * SHEET_COLS * (len + SHEET_COLS) * (h + SHEET_GAP);
    proof {
        let a = (w + SHEET_GAP) as int;
        let b = (len + SHEET_COLS) as int;
        let c = (h + SHEET_GAP) as int;
        assert(a <= total && b <= total && c <= total && a * SHEET_COLS <= total) by (nonlinear_arith)
            requires
                total == a * SHEET_COLS * b * c,
                a >= 1,
                b >= 1,
                c >= 1,
        ;
        assert((len + cols - 1) / (cols as int) <= len + SHEET_COLS) by (nonlinear_arith)
            requires
                1 <= cols,
                0 < len,
        ;
        let rows_i = (len + cols - 1) / (cols as int);
        assert(cols * (w + SHEET_GAP) * (rows_i * (h + SHEET_GAP)) <= total && cols * (w
            + SHEET_GAP) <= total && rows_i * (h + SHEET_GAP) <= total) by (nonlinear_arith)
            requires
                1 <= cols <= SHEET_COLS,
                0 <= rows_i <= len + SHEET_COLS,
                total == (w + SHEET_GAP) * SHEET_COLS * (len + SHEET_COLS) * (h + SHEET_GAP),
                len >= 1,
        ;
    }
    let rows = (len + cols - 1) / cols;
    let sheet_w = cols * (w + SHEET_GAP);
    let sheet_h = rows * (h + SHEET_GAP);
    let mut out: Vec<u8> = Vec::new();
    let mut y: usize = 0;
    while y < sheet_h
        invariant
            s == sel@,
            s == sheet_ids(n as int, ids@),
            len == s.len(),
            len > 0,
            cols == (if len < SHEET_COLS {
                len
            } else {
                SHEET_COLS
            }),
            rows == (len + cols - 1) / (cols as int),
            sheet_w == cols * (w + SHEET_GAP),
            sheet_h == rows * (h + SHEET_GAP),
            sheet_w * sheet_h <= usize::MAX,
            w + SHEET_GAP <= usize::MAX,
            h + SHEET_GAP <= usize::MAX,
            blen == bin@.len(),
            forall|k: int| 0 <= k < len ==> (#[trigger] s[k] + 1) * w * h <= bin@.len(),
            y <= sheet_h,
            out@.len() == y * sheet_w,
            forall|xx: int, yy: int|
                0 <= xx < sheet_w && 0 <= yy < y ==> #[trigger] out@[yy * sheet_w + xx]
                    == sheet_pixel(bin@, w as int, h as int, s, cols as int, xx, yy),
        decreases sheet_h - y,
    {
        let mut x: usize = 0;
        while x < sheet_w
            invariant
                s == sel@,
                len == s.len(),
                len > 0,
                cols == (if len < SHEET_COLS {
                    len
                } else {
                    SHEET_COLS
                }),
                rows == (len + cols - 1) / (cols as int),
                sheet_w == cols * (w + SHEET_GAP),
                sheet_h == rows * (h + SHEET_GAP),
                sheet_w * sheet_h <= usize::MAX,
                w + SHEET_GAP <= usize::MAX,
                h + SHEET_GAP <= usize::MAX,
                blen == bin@.len(),
                forall|k: int| 0 <= k < len ==> (#[trigger] s[k] + 1) * w * h <= bin@.len(),
                y < sheet_h,
                x <= sheet_w,
                out@.len() == y * sheet_w + x,
                forall|xx: int, yy: int|
                    0 <= xx < sheet_w && 0 <= yy < y ==> #[trigger] out@[yy * sheet_w + xx]
                        == sheet_pixel(bin@, w as int, h as int, s, cols as int, xx, yy),
                forall|xx: int|
                    0 <= xx < x ==> #[trigger] out@[y * sheet_w + xx] == sheet_pixel(
                        bin@,
                        w as int,
                        h as int,
                        s,
                        cols as int,
                        xx,
                        y as int,
                    ),
            decreases sheet_w - x,
        {
            let cx = x % (w + SHEET_GAP);
            let cy = y % (h + SHEET_GAP);
            proof {
                assert((y as int) / (h + SHEET_GAP) < rows) by (nonlinear_arith)
                    requires
                        y < sheet_h,
                        sheet_h == rows * (h + SHEET_GAP),
                ;
                assert((x as int) / (w + SHEET_GAP) < cols) by (nonlinear_arith)
                    requires
                        x < sheet_w,
                        sheet_w == cols * (w + SHEET_GAP),
                ;
                let qy = (y as int) / (h + SHEET_GAP);
                let qx = (x as int) / (w + SHEET_GAP);
                assert(qy * cols + qx < rows * cols) by (nonlinear_arith)
                    requires
                        qy < rows,
                        qx < cols,
                        0 <= qy,
                        0 <= qx,
                ;
                assert(rows * cols <= sheet_w * sheet_h) by (nonlinear_arith)
                    requires
                        sheet_w == cols * (w + SHEET_GAP),
                        sheet_h == rows * (h + SHEET_GAP),
                        0 <= rows,
                        0 <= cols,
                ;
            }
            let k = (y / (h + SHEET_GAP)) * cols + x / (w + SHEET_GAP);
            let v: u8 = if cx < w && cy < h && k < len {
                let id = sel[k];
                proof {
                    assert((s[k as int] + 1) * w * h <= bin@.len());
                    assert(id * w * h + cy * w + cx < (id + 1) * w * h) by (nonlinear_arith)
                        requires
                            cx < w,
                            cy < h,
                            0 <= cx,
                            0 <= cy,
                            0 <= id,
                    ;
                    assert(0 <= id * w && id * w <= id * w * h && 0 <= cy * w) by (nonlinear_arith)
                        requires
                            0 <= cy < h,
                            0 <= id,
                    ;
                    assert(id * w * h + cy * w + cx < blen);
                }
                bin[id * w * h + cy * w + cx]
            } else {
                0
            };
            proof {
                assert(y * sheet_w + x < sheet_w * sheet_h) by (nonlinear_arith)
                    requires
                        x < sheet_w,
                        y < sheet_h,
                ;
            }
            out.push(v);
            proof {
                assert(out@[y * sheet_w + x] == v);
                assert forall|xx: int, yy: int|
                    0 <= xx < sheet_w && 0 <= yy < y implies #[trigger] out@[yy * sheet_w + xx]
                    == sheet_pixel(bin@, w as int, h as int, s, cols as int, xx, yy) by {
                    assert(yy * sheet_w + xx < y * sheet_w) by (nonlinear_arith)
                        requires
                            0 <= xx < sheet_w,
                            0 <= yy < y,
                    ;
                }
                assert forall|xx: int| 0 <= xx < x + 1 implies #[trigger] out@[y * sheet_w + xx]
                    == sheet_pixel(bin@, w as int, h as int, s, cols as int, xx, y as int) by {}
            }
            x = x + 1;
        }
        proof {
            assert forall|xx: int, yy: int|
                0 <= xx < sheet_w && 0 <= yy < y + 1 implies #[trigger] out@[yy * sheet_w + xx]
                == sheet_pixel(bin@, w as int, h as int, s, cols as int, xx, yy) by {
                if yy == y {
                    assert(out@[y * sheet_w + xx] == sheet_pixel(
                        bin@,
                        w as int,
                        h as int,
                        s,
                        cols as int,
                        xx,
                        y as int,
                    ));
                }
            }
            assert(out@.len() == (y + 1) * sheet_w) by (nonlinear_arith)
                requires
                    out@.len() == y * sheet_w + sheet_w,
            ;
        }
        y = y + 1;
    }
    assert(out@.len() == sheet_w * sheet_h) by (nonlinear_arith)
        requires
            out@.len() == sheet_h * sheet_w,
    ;
    (out, sheet_w, sheet_h)
}

} // verus!
