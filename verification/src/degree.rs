//! Vertex degrees of the traced edge set.
//!
//! Every grid vertex has as many exposed edges leaving it as entering
//! it: going round the four cells that meet at a vertex, the edges
//! leaving it are the empty-to-filled steps and the edges entering it
//! the filled-to-empty steps, and a cyclic sequence rises as often as
//! it falls. This is what lets the tracer close every loop it starts.
use vstd::prelude::*;
use crate::trace::{Edge, Pt, filled, is_boundary, grid_ok};

verus! {

/// 1 for true, 0 for false.
pub open spec fn bit(b: bool) -> int {
    if b {
        1
    } else {
        0
    }
}

/// The end of `e` that `outward` selects: its start when leaving a
/// vertex, its end when entering one.
pub open spec fn end_of(e: Edge, outward: bool) -> Pt {
    if outward {
        e.0
    } else {
        e.1
    }
}

/// Among the first `n` edges of `es`, how many are selected by `m` and
/// leave (`outward`) or enter (`!outward`) the vertex `v`.
pub open spec fn degree(es: Seq<Edge>, m: Seq<bool>, v: Pt, outward: bool, n: int) -> int
    decreases n,
{
    if n <= 0 {
        0
    } else {
        degree(es, m, v, outward, n - 1) + bit(m[n - 1] && end_of(es[n - 1], outward) == v)
    }
}

/// The mask that selects every edge.
pub open spec fn everything(n: nat) -> Seq<bool> {
    Seq::new(n, |i: int| true)
}

/// Selecting one more edge raises the degree at its end.
pub proof fn lemma_degree_select(
    es: Seq<Edge>,
    m: Seq<bool>,
    i: int,
    v: Pt,
    outward: bool,
    n: int,
)
    requires
        0 <= i < m.len(),
        !m[i],
        n <= m.len(),
    ensures
        degree(es, m.update(i, true), v, outward, n) == degree(es, m, v, outward, n) + bit(
            i < n && end_of(es[i], outward) == v,
        ),
    decreases n,
{
    if n > 0 {
        lemma_degree_select(es, m, i, v, outward, n - 1);
    }
}

/// A smaller selection has no larger degree, and a strictly smaller one
/// misses an edge at `v`.
pub proof fn lemma_degree_sub(
    es: Seq<Edge>,
    m1: Seq<bool>,
    m2: Seq<bool>,
    v: Pt,
    outward: bool,
    n: int,
)
    requires
        0 <= n <= m1.len(),
        n <= m2.len(),
        forall|i: int| 0 <= i < n && m1[i] ==> m2[i],
    ensures
        degree(es, m1, v, outward, n) <= degree(es, m2, v, outward, n),
        degree(es, m1, v, outward, n) < degree(es, m2, v, outward, n) ==> exists|i: int|
            0 <= i < n && m2[i] && !m1[i] && end_of(es[i], outward) == v,
    decreases n,
{
    if n > 0 {
        lemma_degree_sub(es, m1, m2, v, outward, n - 1);
        if degree(es, m1, v, outward, n) < degree(es, m2, v, outward, n) && !(
        degree(es, m1, v, outward, n - 1) < degree(es, m2, v, outward, n - 1)) {
            assert(m2[n - 1] && !m1[n - 1] && end_of(es[n - 1], outward) == v);
        }
    }
}

/// The four edges that could leave vertex `v`: right, left, up, down.
pub open spec fn out_cand(v: Pt, k: int) -> Edge {
    let x = v.0 as int;
    let y = v.1 as int;
    if k == 0 {
        (v, ((x + 1) as i32, v.1))
    } else if k == 1 {
        (v, ((x - 1) as i32, v.1))
    } else if k == 2 {
        (v, (v.0, (y - 1) as i32))
    } else {
        (v, (v.0, (y + 1) as i32))
    }
}

/// The four edges that could enter vertex `v`: from the left, from the
/// right, from below, from above.
pub open spec fn in_cand(v: Pt, k: int) -> Edge {
    let x = v.0 as int;
    let y = v.1 as int;
    if k == 0 {
        (((x - 1) as i32, v.1), v)
    } else if k == 1 {
        (((x + 1) as i32, v.1), v)
    } else if k == 2 {
        ((v.0, (y + 1) as i32), v)
    } else {
        ((v.0, (y - 1) as i32), v)
    }
}

/// Candidate edge `k` at `v`: leaving it when `outward`, else arriving.
pub open spec fn cand(v: Pt, outward: bool, k: int) -> Edge {
    if outward {
        out_cand(v, k)
    } else {
        in_cand(v, k)
    }
}

/// How many of the four candidates at `v` occur in `s`.
pub open spec fn cand_count(s: Seq<Edge>, v: Pt, outward: bool) -> int {
    bit(s.contains(cand(v, outward, 0))) + bit(s.contains(cand(v, outward, 1))) + bit(
        s.contains(cand(v, outward, 2)),
    ) + bit(s.contains(cand(v, outward, 3)))
}

/// A vertex whose neighbours have coordinates that fit `i32`.
pub open spec fn inner_vertex(v: Pt) -> bool {
    -0x7fff_ffff < v.0 < 0x7fff_ffff && -0x7fff_ffff < v.1 < 0x7fff_ffff
}

/// An exposed edge is a unit step.
pub open spec fn unit_step(e: Edge) -> bool {
    let ax = e.0.0 as int;
    let ay = e.0.1 as int;
    let bx = e.1.0 as int;
    let by = e.1.1 as int;
    ||| (bx == ax + 1 && by == ay)
    ||| (bx == ax - 1 && by == ay)
    ||| (bx == ax && by == ay - 1)
    ||| (bx == ax && by == ay + 1)
}

/// A unit step at `v` is exactly one of the four candidates there.
proof fn lemma_step_is_cand(e: Edge, v: Pt, outward: bool)
    requires
        unit_step(e),
        inner_vertex(v),
    ensures
        bit(e == cand(v, outward, 0)) + bit(e == cand(v, outward, 1)) + bit(
            e == cand(v, outward, 2),
        ) + bit(e == cand(v, outward, 3)) == bit(end_of(e, outward) == v),
{
}

/// In a duplicate-free list of unit steps, the degree at an inner
/// vertex counts the candidates present.
proof fn lemma_degree_cand(es: Seq<Edge>, v: Pt, outward: bool, n: int)
    requires
        es.no_duplicates(),
        forall|i: int| 0 <= i < es.len() ==> unit_step(#[trigger] es[i]),
        inner_vertex(v),
        0 <= n <= es.len(),
    ensures
        degree(es, everything(es.len()), v, outward, n) == cand_count(es.take(n), v, outward),
    decreases n,
{
    if n == 0 {
        assert forall|k: int| !es.take(0).contains(cand(v, outward, k)) by {}
    } else {
        lemma_degree_cand(es, v, outward, n - 1);
        let a = es.take(n - 1);
        let b = es.take(n);
        let last = es[n - 1];
        assert(b == a.push(last));
        assert(!a.contains(last)) by {
            if a.contains(last) {
                let j = choose|j: int| 0 <= j < a.len() && a[j] == last;
                assert(es[j] == es[n - 1]);
            }
        }
        assert forall|c: Edge| b.contains(c) <==> (a.contains(c) || c == last) by {
            if b.contains(c) && c != last {
                let j = choose|j: int| 0 <= j < b.len() && b[j] == c;
                assert(a[j] == c);
            }
            if a.contains(c) {
                let j = choose|j: int| 0 <= j < a.len() && a[j] == c;
                assert(b[j] == c);
            }
            if c == last {
                assert(b[n - 1] == c);
            }
        }
        lemma_step_is_cand(last, v, outward);
    }
}

/// Exposed edges end on grid vertices and are unit steps.
pub proof fn lemma_boundary_shape(cells: Seq<bool>, w: int, h: int, e: Edge)
    requires
        is_boundary(cells, w, h, e),
    ensures
        unit_step(e),
        0 <= e.0.0 <= w,
        0 <= e.0.1 <= h,
        0 <= e.1.0 <= w,
        0 <= e.1.1 <= h,
{
}

/// Round a vertex inside the grid, as many exposed edges leave it as
/// enter it.
pub proof fn lemma_balanced(cells: Seq<bool>, w: int, h: int, es: Seq<Edge>, v: Pt)
    requires
        grid_ok(cells, w, h),
        es.no_duplicates(),
        forall|e: Edge| es.contains(e) <==> is_boundary(cells, w, h, e),
        0 <= v.0 <= w,
        0 <= v.1 <= h,
    ensures
        degree(es, everything(es.len()), v, true, es.len() as int) == degree(
            es,
            everything(es.len()),
            v,
            false,
            es.len() as int,
        ),
{
    assert forall|i: int| 0 <= i < es.len() implies unit_step(#[trigger] es[i]) by {
        assert(es.contains(es[i]));
        lemma_boundary_shape(cells, w, h, es[i]);
    }
    lemma_degree_cand(es, v, true, es.len() as int);
    lemma_degree_cand(es, v, false, es.len() as int);
    assert(es.take(es.len() as int) == es);
    let x = v.0 as int;
    let y = v.1 as int;
    // the four cells round v, clockwise from the upper left
    let a = filled(cells, w, h, x - 1, y - 1);
    let b = filled(cells, w, h, x, y - 1);
    let d = filled(cells, w, h, x, y);
    let c = filled(cells, w, h, x - 1, y);
    assert(is_boundary(cells, w, h, out_cand(v, 0)) == (d && !b));
    assert(is_boundary(cells, w, h, out_cand(v, 1)) == (a && !c));
    assert(is_boundary(cells, w, h, out_cand(v, 2)) == (b && !a));
    assert(is_boundary(cells, w, h, out_cand(v, 3)) == (c && !d));
    assert(is_boundary(cells, w, h, in_cand(v, 0)) == (c && !a));
    assert(is_boundary(cells, w, h, in_cand(v, 1)) == (b && !d));
    assert(is_boundary(cells, w, h, in_cand(v, 2)) == (d && !c));
    assert(is_boundary(cells, w, h, in_cand(v, 3)) == (a && !b));
}

} // verus!
