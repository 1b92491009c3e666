//! Trace an occupancy grid into rectilinear outline loops.
//!
//! Each filled cell contributes its exposed edges, oriented so the
//! filled region is on the left (y-down coordinates: outer contours run
//! clockwise on screen, holes counter-clockwise); edges are chained into
//! closed loops, and each loop is reduced to its corners. Coordinates
//! are in grid-cell units, cell `(x, y)` covering `[x, x+1] x [y, y+1]`.
use vstd::prelude::*;
use crate::chain::{loops_view, trace_loops, traces};
use crate::{GlyphImage, GRID_H, GRID_W};

verus! {

/// A grid vertex.
pub type Pt = (i32, i32);

/// A directed unit edge between grid vertices.
pub type Edge = (Pt, Pt);

/// Is cell `(x, y)` inside the `w x h` grid and filled?
pub open spec fn filled(cells: Seq<bool>, w: int, h: int, x: int, y: int) -> bool {
    0 <= x < w && 0 <= y < h && cells[y * w + x]
}

/// Is `e` an exposed cell edge, oriented with the filled cell on its
/// left? The four cases are the top edge of cell (ax, ay) heading right,
/// the bottom edge of cell (ax-1, ay-1) heading left, the left edge of
/// cell (ax, ay-1) heading up, and the right edge of cell (ax-1, ay)
/// heading down, where (ax, ay) is the edge's start.
pub open spec fn is_boundary(cells: Seq<bool>, w: int, h: int, e: Edge) -> bool {
    let ax = e.0.0 as int;
    let ay = e.0.1 as int;
    let bx = e.1.0 as int;
    let by = e.1.1 as int;
    ||| (bx == ax + 1 && by == ay && filled(cells, w, h, ax, ay) && !filled(cells, w, h, ax, ay - 1))
    ||| (bx == ax - 1 && by == ay && filled(cells, w, h, ax - 1, ay - 1) && !filled(
        cells,
        w,
        h,
        ax - 1,
        ay,
    ))
    ||| (bx == ax && by == ay - 1 && filled(cells, w, h, ax, ay - 1) && !filled(
        cells,
        w,
        h,
        ax - 1,
        ay - 1,
    ))
    ||| (bx == ax && by == ay + 1 && filled(cells, w, h, ax - 1, ay) && !filled(cells, w, h, ax, ay))
}

/// The cell an exposed edge belongs to (see `is_boundary`).
pub open spec fn owner(e: Edge) -> (int, int) {
    let ax = e.0.0 as int;
    let ay = e.0.1 as int;
    let bx = e.1.0 as int;
    let by = e.1.1 as int;
    if bx == ax + 1 {
        (ax, ay)
    } else if bx == ax - 1 {
        (ax - 1, ay - 1)
    } else if by == ay - 1 {
        (ax, ay - 1)
    } else {
        (ax - 1, ay)
    }
}

/// Cell `(ox, oy)` comes before cell `(x, y)` in row-major order.
pub open spec fn before(ox: int, oy: int, x: int, y: int) -> bool {
    oy < y || (oy == y && ox < x)
}

/// The grid description the tracer accepts: `cells` is row-major
/// `w x h`, and vertex coordinates fit `i32`.
pub open spec fn grid_ok(cells: Seq<bool>, w: int, h: int) -> bool {
    &&& 0 <= w < 0x7fff_ffff
    &&& 0 <= h < 0x7fff_ffff
    &&& cells.len() == w * h
}

proof fn lemma_index(w: int, h: int, x: int, y: int)
    requires
        0 <= x < w,
        0 <= y < h,
    ensures
        0 <= y * w + x < w * h,
{
    assert(y * w + x < w * h) by (nonlinear_arith)
        requires
            0 <= x < w,
            0 <= y < h,
    ;
    assert(0 <= y * w) by (nonlinear_arith)
        requires
            0 <= x < w,
            0 <= y < h,
    ;
}

/// Is the cell at `(x, y)` (possibly off the grid) filled?
fn cell_filled(cells: &[bool], w: usize, h: usize, x: i64, y: i64) -> (r: bool)
    requires
        grid_ok(cells@, w as int, h as int),
    ensures
        r == filled(cells@, w as int, h as int, x as int, y as int),
{
    if x < 0 || y < 0 || x >= w as i64 || y >= h as i64 {
        return false;
    }
    proof {
        lemma_index(w as int, h as int, x as int, y as int);
    }
    let n = cells.len();
    assert(n == cells@.len());
    let row = (y as usize) * w;
    cells[row + (x as usize)]
}

/// The exposed edges of one cell, each with the cell on its left.
fn cell_edges(cells: &[bool], w: usize, h: usize, x: usize, y: usize) -> (r: Vec<Edge>)
    requires
        grid_ok(cells@, w as int, h as int),
        x < w,
        y < h,
    ensures
        r@.no_duplicates(),
        forall|e: Edge|
            #![trigger r@.contains(e)]
            #![trigger is_boundary(cells@, w as int, h as int, e)]
            r@.contains(e) <==> (is_boundary(cells@, w as int, h as int, e) && owner(e) == (
            x as int,
            y as int,
        )),
{
    let ghost c = cells@;
    let ghost wi = w as int;
    let ghost hi = h as int;
    let mut edges: Vec<Edge> = Vec::new();
    let xi = x as i64;
    let yi = y as i64;
    if !cell_filled(cells, w, h, xi, yi) {
        assert forall|e: Edge| is_boundary(c, wi, hi, e) implies owner(e) != (x as int, y as int) by {}
        return edges;
    }
    let (x0, y0, x1, y1) = (x as i32, y as i32, (x + 1) as i32, (y + 1) as i32);
    let up = !cell_filled(cells, w, h, xi, yi - 1);
    let down = !cell_filled(cells, w, h, xi, yi + 1);
    let left = !cell_filled(cells, w, h, xi - 1, yi);
    let right = !cell_filled(cells, w, h, xi + 1, yi);
    if up {
        edges.push(((x0, y0), (x1, y0)));
    }
    if down {
        edges.push(((x1, y1), (x0, y1)));
    }
    if left {
        edges.push(((x0, y1), (x0, y0)));
    }
    if right {
        edges.push(((x1, y0), (x1, y1)));
    }
    proof {
        assert forall|e: Edge|
            is_boundary(c, wi, hi, e) && owner(e) == (x as int, y as int) implies edges@.contains(e) by {
            let k = if e.1.0 as int == e.0.0 as int + 1 {
                0
            } else if e.1.0 as int == e.0.0 as int - 1 {
                if up {
                    1int
                } else {
                    0
                }
            } else if e.1.1 as int == e.0.1 as int - 1 {
                (if up {
                    1int
                } else {
                    0
                }) + (if down {
                    1int
                } else {
                    0
                })
            } else {
                (if up {
                    1int
                } else {
                    0
                }) + (if down {
                    1int
                } else {
                    0
                }) + (if left {
                    1int
                } else {
                    0
                })
            };
            assert(edges@[k] == e);
        }
    }
    edges
}

/// Concatenating duplicate-free sequences with disjoint contents.
proof fn lemma_concat_distinct(a: Seq<Edge>, b: Seq<Edge>)
    requires
        a.no_duplicates(),
        b.no_duplicates(),
        forall|e: Edge| a.contains(e) ==> !b.contains(e),
    ensures
        (a + b).no_duplicates(),
        forall|e: Edge| (a + b).contains(e) <==> (a.contains(e) || b.contains(e)),
{
    let s = a + b;
    assert forall|i: int, j: int| 0 <= i < j < s.len() implies s[i] != s[j] by {
        if i < a.len() && j >= a.len() {
            assert(a.contains(s[i]));
            assert(b.contains(s[j]));
        }
        if i >= a.len() {
            assert(b[i - a.len()] == s[i]);
            assert(b[j - a.len()] == s[j]);
        }
    }
    assert forall|e: Edge| s.contains(e) <==> (a.contains(e) || b.contains(e)) by {
        if s.contains(e) {
            let i = choose|i: int| 0 <= i < s.len() && s[i] == e;
            if i < a.len() {
                assert(a[i] == e);
            } else {
                assert(b[i - a.len()] == e);
            }
        }
        if a.contains(e) {
            let i = choose|i: int| 0 <= i < a.len() && a[i] == e;
            assert(s[i] == e);
        }
        if b.contains(e) {
            let i = choose|i: int| 0 <= i < b.len() && b[i] == e;
            assert(s[a.len() + i] == e);
        }
    }
}

/// All exposed cell edges, each once, in row-major cell order (per cell:
/// top, bottom, left, right).
pub fn boundary_edges(w: usize, h: usize, cells: &[bool]) -> (r: Vec<Edge>)
    requires
        grid_ok(cells@, w as int, h as int),
    ensures
        r@.no_duplicates(),
        forall|e: Edge| r@.contains(e) <==> is_boundary(cells@, w as int, h as int, e),
{
    let ghost c = cells@;
    let ghost wi = w as int;
    let ghost hi = h as int;
    let mut edges: Vec<Edge> = Vec::new();
    let mut y: usize = 0;
    while y < h
        invariant
            c == cells@,
            wi == w,
            hi == h,
            grid_ok(c, wi, hi),
            y <= h,
            edges@.no_duplicates(),
            forall|e: Edge|
                edges@.contains(e) <==> (is_boundary(c, wi, hi, e) && before(
                    owner(e).0,
                    owner(e).1,
                    0,
                    y as int,
                )),
        decreases h - y,
    {
        let mut x: usize = 0;
        while x < w
            invariant
                c == cells@,
                wi == w,
                hi == h,
                grid_ok(c, wi, hi),
                y < h,
                x <= w,
                edges@.no_duplicates(),
                forall|e: Edge|
                    edges@.contains(e) <==> (is_boundary(c, wi, hi, e) && before(
                        owner(e).0,
                        owner(e).1,
                        x as int,
                        y as int,
                    )),
            decreases w - x,
        {
            let mut new = cell_edges(cells, w, h, x, y);
            let ghost a = edges@;
            let ghost b = new@;
            proof {
                lemma_concat_distinct(a, b);
            }
            edges.append(&mut new);
            assert(edges@ == a + b);
            assert forall|e: Edge|
                edges@.contains(e) <==> (is_boundary(c, wi, hi, e) && before(
                    owner(e).0,
                    owner(e).1,
                    x + 1,
                    y as int,
                )) by {
                assert(a.contains(e) <==> (is_boundary(c, wi, hi, e) && before(owner(e).0, owner(e).1, x as int, y as int)));
                assert(b.contains(e) <==> (is_boundary(c, wi, hi, e) && owner(e) == (x as int, y as int)));
            }
            x = x + 1;
        }
        assert forall|e: Edge|
            edges@.contains(e) <==> (is_boundary(c, wi, hi, e) && before(
                owner(e).0,
                owner(e).1,
                0,
                y + 1,
            )) by {
            if is_boundary(c, wi, hi, e) && owner(e).1 == y as int {
                assert(owner(e).0 < w);
            }
        }
        y = y + 1;
    }
    edges
}

/// The vertex before `i` on a closed loop of `n` vertices.
pub open spec fn before_ix(i: int, n: int) -> int {
    if i == 0 {
        n - 1
    } else {
        i - 1
    }
}

/// The vertex after `i` on a closed loop of `n` vertices.
pub open spec fn after_ix(i: int, n: int) -> int {
    if i + 1 == n {
        0
    } else {
        i + 1
    }
}

/// Does the loop `p` change direction at vertex `i`?
pub open spec fn is_corner(p: Seq<Pt>, i: int) -> bool {
    let n = p.len() as int;
    let a = p[before_ix(i, n)];
    let c = p[i];
    let b = p[after_ix(i, n)];
    (c.0 - a.0) * (b.1 - c.1) - (c.1 - a.1) * (b.0 - c.0) != 0
}

/// The corners among the first `k` vertices of `p`, in order.
pub open spec fn corners(p: Seq<Pt>, k: int) -> Seq<Pt>
    decreases k,
{
    if k <= 0 {
        Seq::empty()
    } else if is_corner(p, k - 1) {
        corners(p, k - 1).push(p[k - 1])
    } else {
        corners(p, k - 1)
    }
}

/// The polygon a traced loop becomes: its corners, or nothing for a
/// loop of fewer than four vertices or corners.
pub open spec fn polygon(p: Seq<Pt>) -> Option<Seq<Pt>> {
    if p.len() < 4 {
        None
    } else if corners(p, p.len() as int).len() < 4 {
        None
    } else {
        Some(corners(p, p.len() as int))
    }
}

/// The polygons of a list of loops, skipping the loops that give none.
pub open spec fn polygons(ls: Seq<Seq<Pt>>) -> Seq<Seq<Pt>>
    decreases ls.len(),
{
    if ls.len() == 0 {
        Seq::empty()
    } else {
        match polygon(ls.last()) {
            Some(q) => polygons(ls.drop_last()).push(q),
            None => polygons(ls.drop_last()),
        }
    }
}

/// Merge the collinear runs of a closed loop into its corners; a loop
/// of fewer than four vertices or four corners gives no polygon.
pub fn loop_polygon(pts: &[Pt]) -> (r: Option<Vec<Pt>>)
    ensures
        match polygon(pts@) {
            Some(q) => r is Some && r->0@ == q,
            None => r is None,
        },
{
    let n = pts.len();
    if n < 4 {
        return None;
    }
    let mut out: Vec<Pt> = Vec::new();
    let mut i: usize = 0;
    while i < n
        invariant
            n == pts@.len(),
            4 <= n,
            i <= n,
            out@ == corners(pts@, i as int),
        decreases n - i,
    {
        let prev = pts[if i == 0 {
            n - 1
        } else {
            i - 1
        }];
        let next = pts[if i + 1 == n {
            0
        } else {
            i + 1
        }];
        let c = pts[i];
        let ax = c.0 as i128 - prev.0 as i128;
        let ay = c.1 as i128 - prev.1 as i128;
        let bx = next.0 as i128 - c.0 as i128;
        let by = next.1 as i128 - c.1 as i128;
        assert(-0x1_0000_0000 <= ax <= 0x1_0000_0000);
        assert(-0x1_0000_0000 <= ay <= 0x1_0000_0000);
        assert(-0x1_0000_0000 <= bx <= 0x1_0000_0000);
        assert(-0x1_0000_0000 <= by <= 0x1_0000_0000);
        assert(-0x1_0000_0000_0000_0000 <= ax * by <= 0x1_0000_0000_0000_0000) by (nonlinear_arith)
            requires
                -0x1_0000_0000 <= ax <= 0x1_0000_0000,
                -0x1_0000_0000 <= by <= 0x1_0000_0000,
        ;
        assert(-0x1_0000_0000_0000_0000 <= ay * bx <= 0x1_0000_0000_0000_0000) by (nonlinear_arith)
            requires
                -0x1_0000_0000 <= ay <= 0x1_0000_0000,
                -0x1_0000_0000 <= bx <= 0x1_0000_0000,
        ;
        if ax * by - ay * bx != 0 {
            out.push(c);
        }
        i = i + 1;
    }
    if out.len() < 4 {
        return None;
    }
    Some(out)
}

/// Trace a bitmap, such as a whole composited line (so that connected
/// letters become one continuous contour), into corner polygons: the
/// `w x h` grid `cells` is row-major. Each polygon runs with the filled
/// region on its left: outer contours clockwise on screen, holes
/// counter-clockwise, so nonzero filling draws the bitmap.
pub fn trace_bitmap(w: usize, h: usize, cells: &[bool]) -> (r: Vec<Vec<Pt>>)
    requires
        grid_ok(cells@, w as int, h as int),
    ensures
        exists|ls: Seq<Seq<Pt>>|
            traces(cells@, w as int, h as int, ls) && loops_view(r@) == polygons(ls),
{
    let loops = trace_loops(w, h, cells);
    let ghost ls = loops_view(loops@);
    let mut out: Vec<Vec<Pt>> = Vec::new();
    let mut k: usize = 0;
    while k < loops.len()
        invariant
            ls == loops_view(loops@),
            k <= loops.len(),
            loops_view(out@) == polygons(ls.take(k as int)),
        decreases loops.len() - k,
    {
        let q = loop_polygon(loops[k].as_slice());
        proof {
            assert(ls.take(k + 1).drop_last() == ls.take(k as int));
            assert(ls.take(k + 1).last() == loops@[k as int]@);
        }
        match q {
            Some(poly) => {
                out.push(poly);
                proof {
                    assert(loops_view(out@) == loops_view(out@).drop_last().push(poly@));
                }
            },
            None => {},
        }
        k = k + 1;
    }
    assert(ls.take(loops.len() as int) == ls);
    out
}

/// Trace a glyph image into corner polygons (see `trace_bitmap`).
pub fn trace_outline(img: &GlyphImage) -> (r: Vec<Vec<Pt>>)
    requires
        img.wf(),
    ensures
        exists|ls: Seq<Seq<Pt>>|
            traces(img.cells@, GRID_W as int, GRID_H as int, ls) && loops_view(r@) == polygons(ls),
{
    trace_bitmap(GRID_W, GRID_H, img.cells.as_slice())
}

/// The indices of the corners among the first `k` vertices of `p`.
pub open spec fn corner_indices(p: Seq<Pt>, k: int) -> Seq<int>
    decreases k,
{
    if k <= 0 {
        Seq::empty()
    } else if is_corner(p, k - 1) {
        corner_indices(p, k - 1).push(k - 1)
    } else {
        corner_indices(p, k - 1)
    }
}

proof fn lemma_corner_indices(p: Seq<Pt>, k: int)
    requires
        0 <= k <= p.len(),
    ensures
        ({
            let ix = corner_indices(p, k);
            &&& ix.len() == corners(p, k).len()
            &&& forall|j: int| 0 <= j < ix.len() ==> 0 <= #[trigger] ix[j] < k && is_corner(p, ix[j])
                && corners(p, k)[j] == p[ix[j]]
            &&& forall|j1: int, j2: int| 0 <= j1 < j2 < ix.len() ==> ix[j1] < ix[j2]
            &&& forall|i: int| 0 <= i < k && is_corner(p, i) ==> exists|j: int| 0 <= j < ix.len() && ix[j] == i
        }),
    decreases k,
{
    if k > 0 {
        lemma_corner_indices(p, k - 1);
        let ix0 = corner_indices(p, k - 1);
        let ix = corner_indices(p, k);
        assert forall|i: int| 0 <= i < k && is_corner(p, i) implies exists|j: int| 0 <= j < ix.len() && ix[j] == i by {
            if i < k - 1 {
                let j = choose|j: int| 0 <= j < ix0.len() && ix0[j] == i;
                assert(ix[j] == i);
            } else {
                assert(ix[ix.len() - 1] == i);
            }
        }
    }
}

/// A traced loop's polygon is exactly its corners, however many: there
/// is a rising list of vertex indices holding every vertex at which the
/// direction changes and no other, and the polygon is those vertices in
/// order; there is a polygon exactly when the loop has at least four
/// vertices and at least four corners.
pub proof fn lemma_polygon_is_corners(p: Seq<Pt>)
    ensures
        exists|ix: Seq<int>|
            {
                &&& forall|j: int| 0 <= j < ix.len() ==> 0 <= #[trigger] ix[j] < p.len() && is_corner(p, ix[j])
                &&& forall|j1: int, j2: int| 0 <= j1 < j2 < ix.len() ==> ix[j1] < ix[j2]
                &&& forall|i: int|
                    0 <= i < p.len() && is_corner(p, i) ==> exists|j: int| 0 <= j < ix.len() && ix[j] == i
                &&& (polygon(p) is None <==> (p.len() < 4 || ix.len() < 4))
                &&& (polygon(p) matches Some(q) ==> q.len() == ix.len() && forall|j: int|
                    0 <= j < ix.len() ==> q[j] == p[#[trigger] ix[j]])
            },
{
    lemma_corner_indices(p, p.len() as int);
    let ix = corner_indices(p, p.len() as int);
    assert(forall|j: int| 0 <= j < ix.len() ==> 0 <= #[trigger] ix[j] < p.len() && is_corner(p, ix[j]));
}

} // verus!
