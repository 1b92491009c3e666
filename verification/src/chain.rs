//! Chain the exposed edges of a grid into closed loops.
//!
//! A loop starts at the first edge (in `boundary_edges` order) that no
//! earlier loop took, and follows unused edges until it is back at its
//! start. Where two unused edges leave the same vertex (checkerboard
//! corners), it takes the sharpest right turn, so that regions touching
//! only at a corner stay separate loops.
use vstd::prelude::*;
use crate::degree::{
    bit,
    degree,
    end_of,
    everything,
    lemma_balanced,
    lemma_boundary_shape,
    lemma_degree_select,
    lemma_degree_sub,
    unit_step,
};
use vstd::arithmetic::div_mod::{lemma_mod_self_0, lemma_small_mod};
use crate::trace::{Edge, Pt, boundary_edges, grid_ok, is_boundary};

verus! {

/// The closing edges of a loop given by its vertices: each vertex to
/// the next, and the last back to the first.
pub open spec fn loop_edges(p: Seq<Pt>) -> Seq<Edge> {
    Seq::new(p.len(), |i: int| (p[i], p[(i + 1) % (p.len() as int)]))
}

/// The edges of a list of loops, loop after loop.
pub open spec fn all_edges(ls: Seq<Seq<Pt>>) -> Seq<Edge>
    decreases ls.len(),
{
    if ls.len() == 0 {
        Seq::empty()
    } else {
        all_edges(ls.drop_last()) + loop_edges(ls.last())
    }
}

/// The loops of a `Vec` of point lists.
pub open spec fn loops_view(ls: Seq<Vec<Pt>>) -> Seq<Seq<Pt>> {
    ls.map_values(|p: Vec<Pt>| p@)
}

/// How far leaving `c` along `f` turns right (y-down screen
/// coordinates) after arriving along `a -> c`: the cross product of the
/// two directions.
pub open spec fn turn(a: Pt, c: Pt, f: Edge) -> int {
    turn_from((c.0 - a.0, c.1 - a.1), f)
}

/// How far leaving along `f` turns right from the direction `d`.
pub open spec fn turn_from(d: (int, int), f: Edge) -> int {
    d.0 * (f.1.1 - f.0.1) - d.1 * (f.1.0 - f.0.0)
}

/// The edges traced before step `i` of loop `k`.
pub open spec fn traced_before(ls: Seq<Seq<Pt>>, k: int, i: int) -> Seq<Edge> {
    all_edges(ls.take(k)) + loop_edges(ls[k]).take(i)
}

/// At every vertex after the first of a loop, the edge taken turns
/// right at least as sharply as any exposed edge still untraced there.
pub open spec fn sharpest_turns(cells: Seq<bool>, w: int, h: int, ls: Seq<Seq<Pt>>) -> bool {
    forall|k: int, i: int, f: Edge|
        #![trigger traced_before(ls, k, i).contains(f)]
        0 <= k < ls.len() && 1 <= i < ls[k].len() && is_boundary(cells, w, h, f) && f.0
            == ls[k][i] && !traced_before(ls, k, i).contains(f) ==> turn(ls[k][i - 1], ls[k][i], f)
            <= turn(ls[k][i - 1], ls[k][i], loop_edges(ls[k])[i])
}

/// `ls` is a tracing of the grid: nonempty closed loops that together
/// run along every exposed edge exactly once, turning as sharply right
/// as they can.
pub open spec fn traces(cells: Seq<bool>, w: int, h: int, ls: Seq<Seq<Pt>>) -> bool {
    &&& forall|k: int| 0 <= k < ls.len() ==> #[trigger] ls[k].len() > 0
    &&& all_edges(ls).no_duplicates()
    &&& forall|e: Edge| all_edges(ls).contains(e) <==> is_boundary(cells, w, h, e)
    &&& sharpest_turns(cells, w, h, ls)
}

/// How many edges `m` selects among the first `n`.
pub open spec fn selected(m: Seq<bool>, n: int) -> int
    decreases n,
{
    if n <= 0 {
        0
    } else {
        selected(m, n - 1) + bit(m[n - 1])
    }
}

/// Selecting one more edge raises the count by one when it is among
/// the first `n`.
pub proof fn lemma_selected(m: Seq<bool>, i: int, n: int)
    requires
        0 <= i < m.len(),
        !m[i],
        0 <= n <= m.len(),
    ensures
        selected(m.update(i, true), n) == selected(m, n) + bit(i < n),
        selected(m, n) <= n,
    decreases n,
{
    if n > 0 {
        lemma_selected(m, i, n - 1);
    }
}

proof fn lemma_all_edges_push(ls: Seq<Seq<Pt>>, p: Seq<Pt>)
    ensures
        all_edges(ls.push(p)) == all_edges(ls) + loop_edges(p),
{
    assert(ls.push(p).drop_last() == ls);
}

/// Appending an edge that is not yet there keeps a list duplicate-free.
pub proof fn lemma_push_distinct(s: Seq<Edge>, e: Edge)
    requires
        s.no_duplicates(),
        !s.contains(e),
    ensures
        s.push(e).no_duplicates(),
        forall|f: Edge| s.push(e).contains(f) <==> (s.contains(f) || f == e),
{
    let t = s.push(e);
    assert forall|i: int, j: int| 0 <= i < j < t.len() implies t[i] != t[j] by {
        if j == s.len() {
            assert(s.contains(t[i]));
        }
    }
    assert forall|f: Edge| t.contains(f) <==> (s.contains(f) || f == e) by {
        if t.contains(f) && f != e {
            let i = choose|i: int| 0 <= i < t.len() && t[i] == f;
            assert(s[i] == f);
        }
        if s.contains(f) {
            let i = choose|i: int| 0 <= i < s.len() && s[i] == f;
            assert(t[i] == f);
        }
        if f == e {
            assert(t[s.len() as int] == f);
        }
    }
}

/// The exit from `cur` the tracer takes: among the unused edges leaving
/// `cur`, the one turning right most sharply from `dir`, the last of
/// them on a tie.
fn sharpest_exit(edges: &Vec<Edge>, used: &Vec<bool>, cur: Pt, dir: (i32, i32)) -> (j: usize)
    requires
        edges.len() == used.len(),
        forall|i: int| 0 <= i < edges.len() ==> unit_step(#[trigger] edges@[i]),
        -1 <= dir.0 <= 1,
        -1 <= dir.1 <= 1,
        exists|i: int| 0 <= i < used.len() && !used@[i] && edges@[i].0 == cur,
    ensures
        j < used.len(),
        !used@[j as int],
        edges@[j as int].0 == cur,
        forall|i: int|
            0 <= i < used.len() && !used@[i] && edges@[i].0 == cur ==> turn_from(
                (dir.0 as int, dir.1 as int),
                #[trigger] edges@[i],
            ) <= turn_from((dir.0 as int, dir.1 as int), edges@[j as int]),
        forall|i: int|
            j < i < used.len() && !used@[i] && edges@[i].0 == cur ==> turn_from(
                (dir.0 as int, dir.1 as int),
                #[trigger] edges@[i],
            ) < turn_from((dir.0 as int, dir.1 as int), edges@[j as int]),
{
    let ghost d: (int, int) = (dir.0 as int, dir.1 as int);
    let n = edges.len();
    let mut best: usize = n;
    let mut best_turn: i32 = 0;
    let mut k: usize = 0;
    while k < n
        invariant
            n == edges.len(),
            n == used.len(),
            forall|i: int| 0 <= i < edges.len() ==> unit_step(#[trigger] edges@[i]),
            -1 <= dir.0 <= 1,
            -1 <= dir.1 <= 1,
            d == (dir.0 as int, dir.1 as int),
            k <= n,
            best == n || (best < k && !used@[best as int] && edges@[best as int].0 == cur
                && best_turn == turn_from(d, edges@[best as int])),
            best == n ==> forall|i: int|
                0 <= i < k ==> !(!used@[i] && #[trigger] edges@[i].0 == cur),
            best < n ==> forall|i: int|
                0 <= i < k && !used@[i] && edges@[i].0 == cur ==> turn_from(d, #[trigger] edges@[i]) <= best_turn,
            best < n ==> forall|i: int|
                best < i < k && !used@[i] && edges@[i].0 == cur ==> turn_from(d, #[trigger] edges@[i]) < best_turn,
        decreases n - k,
    {
        let e = edges[k];
        if !used[k] && e.0.0 == cur.0 && e.0.1 == cur.1 {
            assert(unit_step(edges@[k as int]));
            let dx = e.1.0 - e.0.0;
            let dy = e.1.1 - e.0.1;
            let a: i32 = if dy == 1 {
                dir.0
            } else if dy == -1 {
                -dir.0
            } else {
                0
            };
            let b: i32 = if dx == 1 {
                dir.1
            } else if dx == -1 {
                -dir.1
            } else {
                0
            };
            let t = a - b;
            assert(t == turn_from(d, e)) by (nonlinear_arith)
                requires
                    d == (dir.0 as int, dir.1 as int),
                    dx == e.1.0 - e.0.0,
                    dy == e.1.1 - e.0.1,
                    -1 <= dx <= 1,
                    -1 <= dy <= 1,
                    a == (if dy == 1 {
                        dir.0 as int
                    } else if dy == -1 {
                        -dir.0
                    } else {
                        0
                    }),
                    b == (if dx == 1 {
                        dir.1 as int
                    } else if dx == -1 {
                        -dir.1
                    } else {
                        0
                    }),
                    t == a - b,
            ;
            if best == n || t >= best_turn {
                best = k;
                best_turn = t;
            }
        }
        k = k + 1;
    }
    best
}

/// Trace the grid into closed loops of vertices: every exposed edge
/// (filled cell on its left) is traced exactly once.
pub fn trace_loops(w: usize, h: usize, cells: &[bool]) -> (r: Vec<Vec<Pt>>)
    requires
        grid_ok(cells@, w as int, h as int),
    ensures
        traces(cells@, w as int, h as int, loops_view(r@)),
{
    let ghost c = cells@;
    let ghost wi = w as int;
    let ghost hi = h as int;
    let edges = boundary_edges(w, h, cells);
    let n = edges.len();
    let ghost es = edges@;
    proof {
        assert forall|i: int| 0 <= i < n implies unit_step(#[trigger] es[i]) && 0 <= es[i].0.0 <= wi
            && 0 <= es[i].0.1 <= hi && 0 <= es[i].1.0 <= wi && 0 <= es[i].1.1 <= hi
            && is_boundary(c, wi, hi, es[i]) by {
            assert(es.contains(es[i]));
            lemma_boundary_shape(c, wi, hi, es[i]);
        }
    }
    let mut used: Vec<bool> = Vec::new();
    let mut i: usize = 0;
    while i < n
        invariant
            i <= n,
            used.len() == i,
            forall|j: int| 0 <= j < i ==> !used@[j],
        decreases n - i,
    {
        used.push(false);
        i = i + 1;
    }
    proof {
        assert forall|v: Pt|
            degree(es, used@, v, true, n as int) == 0 && degree(es, used@, v, false, n as int)
                == 0 by {
            lemma_zero_degree(es, used@, v, true, n as int);
            lemma_zero_degree(es, used@, v, false, n as int);
        }
    }
    let mut loops: Vec<Vec<Pt>> = Vec::new();
    assert(loops_view(loops@) =~= Seq::<Seq<Pt>>::empty());
    let mut s: usize = 0;
    while s < n
        invariant
            c == cells@,
            wi == w,
            hi == h,
            grid_ok(c, wi, hi),
            es == edges@,
            n == es.len(),
            es.no_duplicates(),
            forall|e: Edge| es.contains(e) <==> is_boundary(c, wi, hi, e),
            forall|i: int|
                0 <= i < n ==> unit_step(#[trigger] es[i]) && 0 <= es[i].0.0 <= wi && 0
                    <= es[i].0.1 <= hi && 0 <= es[i].1.0 <= wi && 0 <= es[i].1.1 <= hi,
            used.len() == n,
            s <= n,
            forall|i: int| 0 <= i < s ==> used@[i],
            forall|k: int|
                0 <= k < loops_view(loops@).len() ==> #[trigger] loops_view(loops@)[k].len() > 0,
            all_edges(loops_view(loops@)).no_duplicates(),
            forall|j: int|
                0 <= j < n ==> (used@[j] <==> all_edges(loops_view(loops@)).contains(
                    #[trigger] es[j],
                )),
            forall|e: Edge| all_edges(loops_view(loops@)).contains(e) ==> es.contains(e),
            forall|v: Pt|
                degree(es, used@, v, true, n as int) == #[trigger] degree(
                    es,
                    used@,
                    v,
                    false,
                    n as int,
                ),
            sharpest_turns(c, wi, hi, loops_view(loops@)),
        decreases n - selected(used@, n as int), n - s,
    {
        proof {
            lemma_selected_bound(used@, n as int);
        }
        if used[s] {
            s = s + 1;
        } else {
            let ghost ls = loops_view(loops@);
            let ghost prev = all_edges(ls);
            let ghost sel0 = selected(used@, n as int);
            let start = edges[s].0;
            let mut pts: Vec<Pt> = Vec::new();
            pts.push(start);
            let mut cur = start;
            let mut dir: (i32, i32) = (0, 0);
            let ghost mut path: Seq<Edge> = Seq::empty();
            assert(prev + path == prev);
            loop
                invariant_except_break
                    pts@.len() == path.len() + 1,
                    pts@.last() == cur,
                    path.len() > 0 ==> cur != start,
                    path.len() == 0 ==> cur == start && !used@[s as int],
                    path.len() == 0 ==> dir == (0i32, 0i32),
                    path.len() > 0 ==> (dir.0 == cur.0 - pts@[path.len() - 1].0 && dir.1 == cur.1
                        - pts@[path.len() - 1].1),
                    forall|i: int|
                        0 <= i < path.len() ==> #[trigger] path[i] == (pts@[i], pts@[i + 1]),
                    forall|v: Pt|
                        degree(es, used@, v, true, n as int) - #[trigger] degree(
                            es,
                            used@,
                            v,
                            false,
                            n as int,
                        ) == bit(v == start) - bit(v == cur),
                    forall|i: int, f: Edge|
                        #![trigger (prev + path.take(i)).contains(f)]
                        1 <= i < path.len() && is_boundary(c, wi, hi, f) && f.0 == pts@[i] && !(prev
                            + path.take(i)).contains(f) ==> turn(pts@[i - 1], pts@[i], f) <= turn(
                            pts@[i - 1],
                            pts@[i],
                            path[i],
                        ),
                invariant
                    c == cells@,
                    wi == w,
                    hi == h,
                    grid_ok(c, wi, hi),
                    es == edges@,
                    n == es.len(),
                    es.no_duplicates(),
                    forall|e: Edge| es.contains(e) <==> is_boundary(c, wi, hi, e),
                    forall|i: int|
                        0 <= i < n ==> unit_step(#[trigger] es[i]) && 0 <= es[i].0.0 <= wi && 0
                            <= es[i].0.1 <= hi && 0 <= es[i].1.0 <= wi && 0 <= es[i].1.1 <= hi,
                    used.len() == n,
                    s < n,
                    forall|i: int| 0 <= i < s ==> used@[i],
                    ls == loops_view(loops@),
                    prev == all_edges(ls),
                    forall|k: int| 0 <= k < ls.len() ==> #[trigger] ls[k].len() > 0,
                    sharpest_turns(c, wi, hi, ls),
                    pts@.len() > 0,
                    pts@[0] == start,
                    start == es[s as int].0,
                    0 <= cur.0 <= wi,
                    0 <= cur.1 <= hi,
                    -1 <= dir.0 <= 1,
                    -1 <= dir.1 <= 1,
                    (prev + path).no_duplicates(),
                    forall|j: int|
                        0 <= j < n ==> (used@[j] <==> (prev + path).contains(#[trigger] es[j])),
                    forall|e: Edge| (prev + path).contains(e) ==> es.contains(e),
                    selected(used@, n as int) == sel0 + path.len(),
                    selected(used@, n as int) <= n,
                ensures
                    cur == start,
                    path == loop_edges(pts@),
                    path.len() > 0,
                    forall|v: Pt|
                        degree(es, used@, v, true, n as int) == #[trigger] degree(
                            es,
                            used@,
                            v,
                            false,
                            n as int,
                        ),
                    forall|i: int, f: Edge|
                        #![trigger (prev + path.take(i)).contains(f)]
                        1 <= i < path.len() && is_boundary(c, wi, hi, f) && f.0 == pts@[i] && !(prev
                            + path.take(i)).contains(f) ==> turn(pts@[i - 1], pts@[i], f) <= turn(
                            pts@[i - 1],
                            pts@[i],
                            path[i],
                        ),
                decreases n - selected(used@, n as int),
            {
                proof {
                    if path.len() > 0 {
                        // Entering `cur` left it one edge short: an unused
                        // edge leaves it.
                        lemma_balanced(c, wi, hi, es, cur);
                        lemma_degree_sub(es, used@, everything(n as nat), cur, false, n as int);
                        lemma_degree_sub(es, used@, everything(n as nat), cur, true, n as int);
                        assert(degree(es, used@, cur, true, n as int) - degree(
                            es,
                            used@,
                            cur,
                            false,
                            n as int,
                        ) == bit(cur == start) - bit(cur == cur));
                        let i = choose|i: int|
                            0 <= i < n && everything(n as nat)[i] && !used@[i] && end_of(
                                es[i],
                                true,
                            ) == cur;
                        assert(!used@[i] && es[i].0 == cur);
                    } else {
                        assert(!used@[s as int] && es[s as int].0 == cur);
                    }
                }
                let j = sharpest_exit(&edges, &used, cur, dir);
                let ghost old_used = used@;
                let ghost old_path = path;
                let ghost old_cur = cur;
                let ghost e = es[j as int];
                proof {
                    assert(!(prev + path).contains(e));
                    lemma_push_distinct(prev + path, e);
                    lemma_selected(used@, j as int, n as int);
                    assert forall|v: Pt|
                        degree(es, old_used.update(j as int, true), v, true, n as int) == degree(
                            es,
                            old_used,
                            v,
                            true,
                            n as int,
                        ) + bit(v == old_cur) && degree(
                            es,
                            old_used.update(j as int, true),
                            v,
                            false,
                            n as int,
                        ) == degree(es, old_used, v, false, n as int) + bit(v == e.1) by {
                        lemma_degree_select(es, old_used, j as int, v, true, n as int);
                        lemma_degree_select(es, old_used, j as int, v, false, n as int);
                    }
                }
                used.set(j, true);
                let next = edges[j].1;
                proof {
                    lemma_selected_bound(used@, n as int);
                    path = path.push(e);
                    assert(prev + path == (prev + old_path).push(e));
                    assert forall|jj: int|
                        0 <= jj < n implies (used@[jj] <==> (prev + path).contains(
                            #[trigger] es[jj],
                        )) by {
                        if jj != j {
                            assert(es[jj] != e);
                        }
                    }
                    assert forall|i: int, f: Edge|
                        #![trigger (prev + path.take(i)).contains(f)]
                        1 <= i < path.len() && is_boundary(c, wi, hi, f) && f.0 == pts@[i] && !(prev
                            + path.take(i)).contains(f) implies turn(pts@[i - 1], pts@[i], f)
                        <= turn(pts@[i - 1], pts@[i], path[i]) by {
                        if i < old_path.len() {
                            assert(path.take(i) == old_path.take(i));
                            assert(path[i] == old_path[i]);
                        } else {
                            assert(path.take(i) == old_path);
                            assert(es.contains(f));
                            let m = choose|m: int| 0 <= m < n && es[m] == f;
                            assert(!old_used[m]);
                            assert(path[i] == es[j as int]);
                        }
                    }
                }
                dir = (next.0 - cur.0, next.1 - cur.1);
                cur = next;
                if cur.0 == start.0 && cur.1 == start.1 {
                    proof {
                        let len = pts@.len() as int;
                        assert forall|i: int| 0 <= i < len implies #[trigger] path[i] == loop_edges(
                            pts@,
                        )[i] by {
                            if i + 1 < len {
                                lemma_small_mod((i + 1) as nat, len as nat);
                            } else {
                                lemma_mod_self_0(len);
                            }
                        }
                        assert(path =~= loop_edges(pts@));
                    }
                    break ;
                }
                pts.push(cur);
            }
            proof {
                let p = pts@;
                let ls2 = loops_view(loops@.push(pts));
                assert(ls2 == ls.push(p));
                lemma_all_edges_push(ls, p);
                assert(all_edges(ls2) == prev + path);
                assert forall|k: int, i: int, f: Edge|
                    #![trigger traced_before(ls2, k, i).contains(f)]
                    0 <= k < ls2.len() && 1 <= i < ls2[k].len() && is_boundary(c, wi, hi, f) && f.0
                        == ls2[k][i] && !traced_before(ls2, k, i).contains(f) implies turn(
                    ls2[k][i - 1],
                    ls2[k][i],
                    f,
                ) <= turn(ls2[k][i - 1], ls2[k][i], loop_edges(ls2[k])[i]) by {
                    if k < ls.len() {
                        assert(ls2.take(k) == ls.take(k));
                        assert(ls2[k] == ls[k]);
                        assert(traced_before(ls2, k, i) == traced_before(ls, k, i));
                    } else {
                        assert(ls2.take(k) == ls);
                        assert(ls2[k] == p);
                        assert(traced_before(ls2, k, i) == prev + path.take(i));
                    }
                }
            }
            loops.push(pts);
        }
    }
    proof {
        assert forall|e: Edge|
            all_edges(loops_view(loops@)).contains(e) <==> is_boundary(c, wi, hi, e) by {
            if is_boundary(c, wi, hi, e) {
                assert(es.contains(e));
                let j = choose|j: int| 0 <= j < n && es[j] == e;
                assert(used@[j]);
                assert(all_edges(loops_view(loops@)).contains(es[j]));
            }
            if all_edges(loops_view(loops@)).contains(e) {
                assert(es.contains(e));
            }
        }
    }
    loops
}

/// At most `n` of the first `n` edges are selected.
pub proof fn lemma_selected_bound(m: Seq<bool>, n: int)
    requires
        0 <= n <= m.len(),
    ensures
        0 <= selected(m, n) <= n,
    decreases n,
{
    if n > 0 {
        lemma_selected_bound(m, n - 1);
    }
}

proof fn lemma_zero_degree(es: Seq<Edge>, m: Seq<bool>, v: Pt, outward: bool, n: int)
    requires
        0 <= n <= m.len(),
        forall|i: int| 0 <= i < n ==> !m[i],
    ensures
        degree(es, m, v, outward, n) == 0,
    decreases n,
{
    if n > 0 {
        lemma_zero_degree(es, m, v, outward, n - 1);
    }
}

} // verus!
