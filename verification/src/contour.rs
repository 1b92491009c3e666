//! Iso-contours of a sampled field (marching squares): which crossings
//! each grid cell joins, and how the crossing segments chain into
//! paths.
//!
//! A cell's corners, clockwise from the top left, are numbered 0 to 3;
//! side `i` runs from corner `i` to corner `i + 1` (top, right, bottom,
//! left). A corner is inside when its sample is at least 0. The
//! segments of a cell run from one crossed side to another with the
//! inside on their left (y-down coordinates).
use vstd::prelude::*;
use crate::chain::{lemma_selected, lemma_selected_bound, selected};
use crate::degree::bit;

verus! {

/// The crossing segments of a cell, as (from side, to side), given which
/// corners are inside; `center_in` decides the two saddle cases.
pub open spec fn cell_case_segments(inside: Seq<bool>, center_in: bool) -> Seq<(int, int)> {
    let case = bit(inside[0]) + 2 * bit(inside[1]) + 4 * bit(inside[2]) + 8 * bit(inside[3]);
    if case == 1 {
        seq![(0, 3)]
    } else if case == 2 {
        seq![(1, 0)]
    } else if case == 3 {
        seq![(1, 3)]
    } else if case == 4 {
        seq![(2, 1)]
    } else if case == 5 {
        if center_in {
            seq![(0, 1), (2, 3)]
        } else {
            seq![(0, 3), (2, 1)]
        }
    } else if case == 6 {
        seq![(2, 0)]
    } else if case == 7 {
        seq![(2, 3)]
    } else if case == 8 {
        seq![(3, 2)]
    } else if case == 9 {
        seq![(0, 2)]
    } else if case == 10 {
        if center_in {
            seq![(1, 2), (3, 0)]
        } else {
            seq![(1, 0), (3, 2)]
        }
    } else if case == 11 {
        seq![(1, 2)]
    } else if case == 12 {
        seq![(3, 1)]
    } else if case == 13 {
        seq![(0, 1)]
    } else if case == 14 {
        seq![(3, 0)]
    } else {
        seq![]
    }
}

/// The crossing segments of a cell whose corners (top left, top right,
/// bottom right, bottom left) are inside or not.
pub fn cell_segments(tl: bool, tr: bool, br: bool, bl: bool, center_in: bool) -> (r: Vec<
    (u8, u8),
>)
    ensures
        r@.map_values(|p: (u8, u8)| (p.0 as int, p.1 as int)) == cell_case_segments(
            seq![tl, tr, br, bl],
            center_in,
        ),
{
    let case: u8 = (if tl {
        1
    } else {
        0
    }) + (if tr {
        2
    } else {
        0
    }) + (if br {
        4
    } else {
        0
    }) + (if bl {
        8
    } else {
        0
    });
    let mut r: Vec<(u8, u8)> = Vec::new();
    if case == 1 {
        r.push((0, 3));
    } else if case == 2 {
        r.push((1, 0));
    } else if case == 3 {
        r.push((1, 3));
    } else if case == 4 {
        r.push((2, 1));
    } else if case == 5 {
        if center_in {
            r.push((0, 1));
            r.push((2, 3));
        } else {
            r.push((0, 3));
            r.push((2, 1));
        }
    } else if case == 6 {
        r.push((2, 0));
    } else if case == 7 {
        r.push((2, 3));
    } else if case == 8 {
        r.push((3, 2));
    } else if case == 9 {
        r.push((0, 2));
    } else if case == 10 {
        if center_in {
            r.push((1, 2));
            r.push((3, 0));
        } else {
            r.push((1, 0));
            r.push((3, 2));
        }
    } else if case == 11 {
        r.push((1, 2));
    } else if case == 12 {
        r.push((3, 1));
    } else if case == 13 {
        r.push((0, 1));
    } else if case == 14 {
        r.push((3, 0));
    }
    assert(r@.map_values(|p: (u8, u8)| (p.0 as int, p.1 as int)) =~= cell_case_segments(
        seq![tl, tr, br, bl],
        center_in,
    ));
    r
}

/// A side whose clockwise start corner is inside and end corner is not:
/// a contour leaves the inside there, so a segment starts on it.
pub open spec fn leaves(inside: Seq<bool>, s: int) -> bool {
    inside[s] && !inside[(s + 1) % 4]
}

/// A side whose clockwise start corner is outside and end corner is
/// inside: a segment ends on it.
pub open spec fn enters(inside: Seq<bool>, s: int) -> bool {
    !inside[s] && inside[(s + 1) % 4]
}

/// Every segment of a cell starts on a side the contour crosses with the
/// inside on its left and ends on one it crosses the same way; every
/// crossed side is the start of exactly one segment or the end of
/// exactly one, so the contours of neighbouring cells meet.
pub proof fn lemma_cell_segments_consistent(inside: Seq<bool>, center_in: bool)
    requires
        inside.len() == 4,
    ensures
        forall|i: int|
            0 <= i < cell_case_segments(inside, center_in).len() ==> leaves(
                inside,
                (#[trigger] cell_case_segments(inside, center_in)[i]).0,
            ) && enters(inside, cell_case_segments(inside, center_in)[i].1),
        forall|s: int|
            0 <= s < 4 && leaves(inside, s) ==> exists|i: int|
                0 <= i < cell_case_segments(inside, center_in).len() && (#[trigger] cell_case_segments(
                    inside,
                    center_in,
                )[i]).0 == s,
        forall|s: int|
            0 <= s < 4 && enters(inside, s) ==> exists|i: int|
                0 <= i < cell_case_segments(inside, center_in).len() && (#[trigger] cell_case_segments(
                    inside,
                    center_in,
                )[i]).1 == s,
        forall|i: int, j: int|
            0 <= i < j < cell_case_segments(inside, center_in).len() ==> (
            #[trigger] cell_case_segments(inside, center_in)[i]).0 != (
            #[trigger] cell_case_segments(inside, center_in)[j]).0 && cell_case_segments(
                inside,
                center_in,
            )[i].1 != cell_case_segments(inside, center_in)[j].1,
{
    let segs = cell_case_segments(inside, center_in);
    assert(inside =~= seq![inside[0], inside[1], inside[2], inside[3]]);
    if segs.len() == 2 {
        assert(segs[0].0 != segs[1].0 && segs[0].1 != segs[1].1);
    }
    assert forall|s: int| 0 <= s < 4 && leaves(inside, s) implies exists|i: int|
        0 <= i < segs.len() && (#[trigger] segs[i]).0 == s by {
        if segs.len() > 0 && segs[0].0 == s {
            assert(segs[0].0 == s);
        } else {
            assert(segs[1].0 == s);
        }
    }
    assert forall|s: int| 0 <= s < 4 && enters(inside, s) implies exists|i: int|
        0 <= i < segs.len() && (#[trigger] segs[i]).1 == s by {
        if segs.len() > 0 && segs[0].1 == s {
            assert(segs[0].1 == s);
        } else {
            assert(segs[1].1 == s);
        }
    }
}

/// How many segments one path may continue through before it is cut.
pub const CHAIN_STEPS: usize = 1_000_000;

/// A segment endpoint, quantized so that endpoints that meet compare
/// equal.
pub type Key = (i64, i64);

/// The segment indices of a list of paths, path after path.
pub open spec fn flat(ls: Seq<Seq<usize>>) -> Seq<usize>
    decreases ls.len(),
{
    if ls.len() == 0 {
        Seq::empty()
    } else {
        flat(ls.drop_last()) + ls.last()
    }
}

/// The segments taken before step `j` of path `k`.
pub open spec fn taken_before(ls: Seq<Seq<usize>>, k: int, j: int) -> Seq<usize> {
    flat(ls.take(k)) + ls[k].take(j)
}

/// Is segment `i` the last one (in input order) that starts at `key` and
/// is not in `used`?
pub open spec fn last_free(starts: Seq<Key>, used: Seq<usize>, key: Key, i: int) -> bool {
    &&& 0 <= i < starts.len()
    &&& !used.contains(i as usize)
    &&& starts[i] == key
    &&& forall|m: int| i < m < starts.len() && starts[m] == key ==> used.contains(m as usize)
}

/// `ls` (with `draw`) chains the segments given by their start and end
/// keys into paths: every segment once; each path starts at the key of
/// the first segment no earlier path took, with the last free segment
/// there, and goes on with the last free segment starting where it
/// stands, until it is back at its start (closed), finds no free segment
/// (a dead end, whose last point is drawn: `draw`), or has continued
/// `CHAIN_STEPS` times.
pub open spec fn chains(starts: Seq<Key>, ends: Seq<Key>, ls: Seq<Seq<usize>>, draw: Seq<bool>) -> bool {
    &&& chains_so_far(starts, ends, ls, draw)
    &&& forall|i: usize| flat(ls).contains(i) <==> i < starts.len()
}

/// The paths so far follow the chaining rules (see `chains`), without
/// yet covering every segment.
pub open spec fn chains_so_far(starts: Seq<Key>, ends: Seq<Key>, ls: Seq<Seq<usize>>, draw: Seq<bool>) -> bool {
    &&& ls.len() == draw.len()
    &&& flat(ls).no_duplicates()
    &&& paths_link(starts, ends, ls)
    &&& paths_begin(starts, ls)
    &&& paths_step(starts, ends, ls)
    &&& paths_stop(starts, ends, ls, draw)
}

/// Every path is nonempty, and each of its segments starts where the
/// one before it ended, before the path is back at its start.
#[verifier::opaque]
pub open spec fn paths_link(starts: Seq<Key>, ends: Seq<Key>, ls: Seq<Seq<usize>>) -> bool {
    &&& forall|k: int| 0 <= k < ls.len() ==> (#[trigger] ls[k]).len() > 0
    &&& forall|k: int, j: int|
        0 <= k < ls.len() && 0 <= j < ls[k].len() - 1 ==> starts[#[trigger] ls[k][j + 1] as int]
            == ends[ls[k][j] as int] && ends[ls[k][j] as int] != starts[ls[k][0] as int]
}

/// Each path begins at the key of the first segment no earlier path
/// took, with the last free segment there.
#[verifier::opaque]
pub open spec fn paths_begin(starts: Seq<Key>, ls: Seq<Seq<usize>>) -> bool {
    forall|k: int| 0 <= k < ls.len() ==> begin_ok(starts, flat(ls.take(k)), (#[trigger] ls[k])[0] as int)
}

/// Is `f` the first segment not in `taken`?
pub open spec fn first_free(taken: Seq<usize>, f: int, n: int) -> bool {
    &&& 0 <= f < n
    &&& !taken.contains(f as usize)
    &&& forall|m: int| 0 <= m < f ==> #[trigger] taken.contains(m as usize)
}

/// A path after the segments `taken` may begin with segment `s0`: the
/// last free segment at the key of the first free one.
pub open spec fn begin_ok(starts: Seq<Key>, taken: Seq<usize>, s0: int) -> bool {
    exists|f: int|
        #[trigger] first_free(taken, f, starts.len() as int) && starts[f] == starts[s0] && last_free(
            starts,
            taken,
            starts[f],
            s0,
        )
}

/// Each later step of a path takes the last free segment starting where
/// the path stands.
#[verifier::opaque]
pub open spec fn paths_step(starts: Seq<Key>, ends: Seq<Key>, ls: Seq<Seq<usize>>) -> bool {
    forall|k: int, j: int|
        0 <= k < ls.len() && 0 < j < ls[k].len() ==> last_free(
            starts,
            taken_before(ls, k, j),
            ends[ls[k][j - 1] as int],
            #[trigger] ls[k][j] as int,
        )
}

/// A path stops when it is back at its start, at a dead end (its last
/// point then drawn), or after `CHAIN_STEPS` continuations.
#[verifier::opaque]
pub open spec fn paths_stop(starts: Seq<Key>, ends: Seq<Key>, ls: Seq<Seq<usize>>, draw: Seq<bool>) -> bool {
    forall|k: int|
        0 <= k < ls.len() ==> {
            let p = #[trigger] ls[k];
            let e = ends[p[p.len() - 1] as int];
            &&& draw[k] == (e != starts[p[0] as int] && p.len() - 1 < CHAIN_STEPS)
            &&& draw[k] ==> forall|m: int|
                0 <= m < starts.len() && starts[m] == e ==> taken_before(ls, k, p.len() as int).contains(
                    m as usize,
                )
            &&& e != starts[p[0] as int] && !draw[k] ==> p.len() - 1 == CHAIN_STEPS
        }
}

/// The last segment (in input order) starting at `key` that the mask
/// leaves free.
fn last_free_index(starts: &[Key], used: &Vec<bool>, key: Key) -> (r: Option<usize>)
    requires
        starts@.len() == used@.len(),
    ensures
        match r {
            Some(i) => i < starts@.len() && !used@[i as int] && starts@[i as int] == key && forall|
                m: int,
            |
                i < m < starts@.len() && starts@[m] == key ==> used@[m],
            None => forall|m: int| 0 <= m < starts@.len() && starts@[m] == key ==> used@[m],
        },
{
    let mut k = starts.len();
    while k > 0
        invariant
            k <= starts@.len(),
            starts@.len() == used@.len(),
            forall|m: int| k <= m < starts@.len() && starts@[m] == key ==> used@[m],
        decreases k,
    {
        let s = starts[k - 1];
        if !used[k - 1] && s.0 == key.0 && s.1 == key.1 {
            return Some(k - 1);
        }
        k = k - 1;
    }
    None
}

/// Appending an index that is not yet there keeps a list duplicate-free.
proof fn lemma_push_new(s: Seq<usize>, e: usize)
    requires
        s.no_duplicates(),
        !s.contains(e),
    ensures
        s.push(e).no_duplicates(),
        forall|f: usize| s.push(e).contains(f) <==> (s.contains(f) || f == e),
{
    let t = s.push(e);
    assert forall|i: int, j: int| 0 <= i < j < t.len() implies t[i] != t[j] by {
        if j == s.len() {
            assert(s.contains(t[i]));
        }
    }
    assert forall|f: usize| t.contains(f) <==> (s.contains(f) || f == e) by {
        if t.contains(f) && f != e {
            let i = choose|i: int| 0 <= i < t.len() && t[i] == f;
            assert(s[i] == f);
        }
        if s.contains(f) {
            let i = choose|i: int| 0 <= i < s.len() && s[i] == f;
            assert(t[i] == f);
        }
        if f == e {
            assert(t[s.len() as int] == f);
        }
    }
}

proof fn lemma_flat_push(ls: Seq<Seq<usize>>, p: Seq<usize>)
    ensures
        flat(ls.push(p)) == flat(ls) + p,
{
    assert(ls.push(p).drop_last() == ls);
}

/// A finished path extends paths that follow the chaining rules.
proof fn lemma_chains_push(
    starts: Seq<Key>,
    ends: Seq<Key>,
    ls: Seq<Seq<usize>>,
    draw: Seq<bool>,
    p: Seq<usize>,
    d: bool,
    f: int,
)
    requires
        chains_so_far(starts, ends, ls, draw),
        (flat(ls) + p).no_duplicates(),
        p.len() > 0,
        forall|j: int|
            0 <= j < p.len() - 1 ==> starts[#[trigger] p[j + 1] as int] == ends[p[j] as int]
                && ends[p[j] as int] != starts[p[0] as int],
        0 <= f < starts.len(),
        !flat(ls).contains(f as usize),
        forall|m: int| 0 <= m < f ==> #[trigger] flat(ls).contains(m as usize),
        starts[f] == starts[p[0] as int],
        last_free(starts, flat(ls), starts[f], p[0] as int),
        forall|j: int|
            0 < j < p.len() ==> last_free(
                starts,
                flat(ls) + p.take(j),
                ends[p[j - 1] as int],
                #[trigger] p[j] as int,
            ),
        d == (ends[p[p.len() - 1] as int] != starts[p[0] as int] && p.len() - 1 < CHAIN_STEPS),
        d ==> forall|m: int|
            0 <= m < starts.len() && starts[m] == ends[p[p.len() - 1] as int] ==> (flat(ls)
                + p).contains(m as usize),
        ends[p[p.len() - 1] as int] != starts[p[0] as int] && !d ==> p.len() - 1 == CHAIN_STEPS,
    ensures
        chains_so_far(starts, ends, ls.push(p), draw.push(d)),
{
    lemma_flat_push(ls, p);
    lemma_link_push(starts, ends, ls, draw, p, d, f);
    lemma_begin_push(starts, ends, ls, draw, p, d, f);
    lemma_step_push(starts, ends, ls, draw, p, d, f);
    lemma_stop_push(starts, ends, ls, draw, p, d, f);
}

proof fn lemma_link_push(
    starts: Seq<Key>,
    ends: Seq<Key>,
    ls: Seq<Seq<usize>>,
    draw: Seq<bool>,
    p: Seq<usize>,
    d: bool,
    f: int,
)
    requires
        chains_so_far(starts, ends, ls, draw),
        (flat(ls) + p).no_duplicates(),
        p.len() > 0,
        forall|j: int|
            0 <= j < p.len() - 1 ==> starts[#[trigger] p[j + 1] as int] == ends[p[j] as int]
                && ends[p[j] as int] != starts[p[0] as int],
        0 <= f < starts.len(),
        !flat(ls).contains(f as usize),
        forall|m: int| 0 <= m < f ==> #[trigger] flat(ls).contains(m as usize),
        starts[f] == starts[p[0] as int],
        last_free(starts, flat(ls), starts[f], p[0] as int),
        forall|j: int|
            0 < j < p.len() ==> last_free(
                starts,
                flat(ls) + p.take(j),
                ends[p[j - 1] as int],
                #[trigger] p[j] as int,
            ),
        d == (ends[p[p.len() - 1] as int] != starts[p[0] as int] && p.len() - 1 < CHAIN_STEPS),
        d ==> forall|m: int|
            0 <= m < starts.len() && starts[m] == ends[p[p.len() - 1] as int] ==> (flat(ls)
                + p).contains(m as usize),
        ends[p[p.len() - 1] as int] != starts[p[0] as int] && !d ==> p.len() - 1 == CHAIN_STEPS,
    ensures
        paths_link(starts, ends, ls.push(p)),
{
    reveal(paths_link);
    let ls2 = ls.push(p);
    assert forall|k: int| 0 <= k < ls2.len() implies (#[trigger] ls2[k]).len() > 0 by {}
    assert forall|k: int, j: int|
        0 <= k < ls2.len() && 0 <= j < ls2[k].len() - 1 implies starts[#[trigger] ls2[k][j
        + 1] as int] == ends[ls2[k][j] as int] && ends[ls2[k][j] as int] != starts[ls2[k][0] as int] by {
        if k < ls.len() {
            assert(ls2[k] == ls[k]);
        }
    }
}

proof fn lemma_begin_push(
    starts: Seq<Key>,
    ends: Seq<Key>,
    ls: Seq<Seq<usize>>,
    draw: Seq<bool>,
    p: Seq<usize>,
    d: bool,
    f: int,
)
    requires
        chains_so_far(starts, ends, ls, draw),
        (flat(ls) + p).no_duplicates(),
        p.len() > 0,
        forall|j: int|
            0 <= j < p.len() - 1 ==> starts[#[trigger] p[j + 1] as int] == ends[p[j] as int]
                && ends[p[j] as int] != starts[p[0] as int],
        0 <= f < starts.len(),
        !flat(ls).contains(f as usize),
        forall|m: int| 0 <= m < f ==> #[trigger] flat(ls).contains(m as usize),
        starts[f] == starts[p[0] as int],
        last_free(starts, flat(ls), starts[f], p[0] as int),
        forall|j: int|
            0 < j < p.len() ==> last_free(
                starts,
                flat(ls) + p.take(j),
                ends[p[j - 1] as int],
                #[trigger] p[j] as int,
            ),
        d == (ends[p[p.len() - 1] as int] != starts[p[0] as int] && p.len() - 1 < CHAIN_STEPS),
        d ==> forall|m: int|
            0 <= m < starts.len() && starts[m] == ends[p[p.len() - 1] as int] ==> (flat(ls)
                + p).contains(m as usize),
        ends[p[p.len() - 1] as int] != starts[p[0] as int] && !d ==> p.len() - 1 == CHAIN_STEPS,
    ensures
        paths_begin(starts, ls.push(p)),
{
    reveal(paths_begin);
    let ls2 = ls.push(p);
    assert(ls2.take(ls.len() as int) == ls);
    assert forall|k: int| 0 <= k < ls2.len() implies begin_ok(
        starts,
        flat(ls2.take(k)),
        (#[trigger] ls2[k])[0] as int,
    ) by {
        if k < ls.len() {
            assert(ls2[k] == ls[k]);
            assert(ls2.take(k) == ls.take(k));
        } else {
            assert(ls2.take(k) == ls);
            assert(ls2[k] == p);
            assert(first_free(flat(ls), f, starts.len() as int));
        }
    }
}

proof fn lemma_step_push(
    starts: Seq<Key>,
    ends: Seq<Key>,
    ls: Seq<Seq<usize>>,
    draw: Seq<bool>,
    p: Seq<usize>,
    d: bool,
    f: int,
)
    requires
        chains_so_far(starts, ends, ls, draw),
        (flat(ls) + p).no_duplicates(),
        p.len() > 0,
        forall|j: int|
            0 <= j < p.len() - 1 ==> starts[#[trigger] p[j + 1] as int] == ends[p[j] as int]
                && ends[p[j] as int] != starts[p[0] as int],
        0 <= f < starts.len(),
        !flat(ls).contains(f as usize),
        forall|m: int| 0 <= m < f ==> #[trigger] flat(ls).contains(m as usize),
        starts[f] == starts[p[0] as int],
        last_free(starts, flat(ls), starts[f], p[0] as int),
        forall|j: int|
            0 < j < p.len() ==> last_free(
                starts,
                flat(ls) + p.take(j),
                ends[p[j - 1] as int],
                #[trigger] p[j] as int,
            ),
        d == (ends[p[p.len() - 1] as int] != starts[p[0] as int] && p.len() - 1 < CHAIN_STEPS),
        d ==> forall|m: int|
            0 <= m < starts.len() && starts[m] == ends[p[p.len() - 1] as int] ==> (flat(ls)
                + p).contains(m as usize),
        ends[p[p.len() - 1] as int] != starts[p[0] as int] && !d ==> p.len() - 1 == CHAIN_STEPS,
    ensures
        paths_step(starts, ends, ls.push(p)),
{
    reveal(paths_step);
    let ls2 = ls.push(p);
    lemma_flat_push(ls, p);
    assert(ls2.take(ls.len() as int) == ls);
    assert forall|k: int, j: int|
        0 <= k < ls2.len() && 0 < j < ls2[k].len() implies last_free(
        starts,
        taken_before(ls2, k, j),
        ends[ls2[k][j - 1] as int],
        #[trigger] ls2[k][j] as int,
    ) by {
        if k < ls.len() {
            assert(ls2[k] == ls[k]);
            assert(ls2.take(k) == ls.take(k));
            assert(taken_before(ls2, k, j) == taken_before(ls, k, j));
        } else {
            assert(ls2[k] == p);
            assert(taken_before(ls2, k, j) == flat(ls) + p.take(j));
        }
    }
}

proof fn lemma_stop_push(
    starts: Seq<Key>,
    ends: Seq<Key>,
    ls: Seq<Seq<usize>>,
    draw: Seq<bool>,
    p: Seq<usize>,
    d: bool,
    f: int,
)
    requires
        chains_so_far(starts, ends, ls, draw),
        (flat(ls) + p).no_duplicates(),
        p.len() > 0,
        forall|j: int|
            0 <= j < p.len() - 1 ==> starts[#[trigger] p[j + 1] as int] == ends[p[j] as int]
                && ends[p[j] as int] != starts[p[0] as int],
        0 <= f < starts.len(),
        !flat(ls).contains(f as usize),
        forall|m: int| 0 <= m < f ==> #[trigger] flat(ls).contains(m as usize),
        starts[f] == starts[p[0] as int],
        last_free(starts, flat(ls), starts[f], p[0] as int),
        forall|j: int|
            0 < j < p.len() ==> last_free(
                starts,
                flat(ls) + p.take(j),
                ends[p[j - 1] as int],
                #[trigger] p[j] as int,
            ),
        d == (ends[p[p.len() - 1] as int] != starts[p[0] as int] && p.len() - 1 < CHAIN_STEPS),
        d ==> forall|m: int|
            0 <= m < starts.len() && starts[m] == ends[p[p.len() - 1] as int] ==> (flat(ls)
                + p).contains(m as usize),
        ends[p[p.len() - 1] as int] != starts[p[0] as int] && !d ==> p.len() - 1 == CHAIN_STEPS,
    ensures
        paths_stop(starts, ends, ls.push(p), draw.push(d)),
{
    reveal(paths_stop);
    let ls2 = ls.push(p);
    assert(ls2.take(ls.len() as int) == ls);
    assert(p.take(p.len() as int) == p);
    assert forall|k: int| 0 <= k < ls2.len() implies {
        let q = #[trigger] ls2[k];
        let e = ends[q[q.len() - 1] as int];
        &&& draw.push(d)[k] == (e != starts[q[0] as int] && q.len() - 1 < CHAIN_STEPS)
        &&& draw.push(d)[k] ==> forall|m: int|
            0 <= m < starts.len() && starts[m] == e ==> taken_before(ls2, k, q.len() as int).contains(
                m as usize,
            )
        &&& e != starts[q[0] as int] && !draw.push(d)[k] ==> q.len() - 1 == CHAIN_STEPS
    } by {
        if k < ls.len() {
            assert(ls2[k] == ls[k]);
            assert(ls2.take(k) == ls.take(k));
            assert(taken_before(ls2, k, ls[k].len() as int) == taken_before(ls, k, ls[k].len() as int));
        } else {
            assert(ls2[k] == p);
            assert(taken_before(ls2, k, p.len() as int) == flat(ls) + p);
        }
    }
}

/// The paths of a `Vec` of index lists.
pub open spec fn paths_view(v: Seq<Vec<usize>>) -> Seq<Seq<usize>> {
    v.map_values(|p: Vec<usize>| p@)
}

/// Chain crossing segments, given by the keys of their start and end
/// points, into paths (see `chains`). Returns the segment indices of
/// each path and whether its last point is drawn.
pub fn chain_segments(starts: &[Key], ends: &[Key]) -> (r: (Vec<Vec<usize>>, Vec<bool>))
    requires
        starts@.len() == ends@.len(),
    ensures
        chains(starts@, ends@, paths_view(r.0@), r.1@),
{
    let n = starts.len();
    let mut used: Vec<bool> = Vec::new();
    let mut i: usize = 0;
    while i < n
        invariant
            i <= n,
            used@.len() == i,
            forall|j: int| 0 <= j < i ==> !used@[j],
        decreases n - i,
    {
        used.push(false);
        i = i + 1;
    }
    let mut paths: Vec<Vec<usize>> = Vec::new();
    let mut draws: Vec<bool> = Vec::new();
    assert(paths_view(paths@) =~= Seq::<Seq<usize>>::empty());
    assert(flat(paths_view(paths@)) =~= Seq::<usize>::empty());
    proof {
        reveal(paths_link);
        reveal(paths_begin);
        reveal(paths_step);
        reveal(paths_stop);
    }
    let mut f: usize = 0;
    while f < n
        invariant
            n == starts@.len(),
            n == ends@.len(),
            used@.len() == n,
            f <= n,
            forall|j: int| 0 <= j < f ==> used@[j],
            forall|j: int| 0 <= j < n ==> (used@[j] <==> flat(paths_view(paths@)).contains(j as usize)),
            forall|x: usize| flat(paths_view(paths@)).contains(x) ==> x < n,
            flat(paths_view(paths@)).no_duplicates(),
            paths@.len() == draws@.len(),
            chains_so_far(starts@, ends@, paths_view(paths@), draws@),
        decreases n - selected(used@, n as int), n - f,
    {
        proof {
            lemma_selected_bound(used@, n as int);
        }
        if used[f] {
            f = f + 1;
        } else {
            let ghost ls = paths_view(paths@);
            let ghost prev = flat(ls);
            let ghost sel0 = selected(used@, n as int);
            let key = starts[f];
            let first = match last_free_index(starts, &used, key) {
                Some(i) => i,
                None => {
                    assert(false);
                    0
                },
            };
            proof {
                assert forall|j: int| 0 <= j < f implies #[trigger] prev.contains(j as usize) by {
                    assert(used@[j]);
                }
                assert(last_free(starts@, prev, key, first as int));
                assert(!prev.contains(first));
                lemma_push_new(prev, first);
                lemma_selected(used@, first as int, n as int);
            }
            used.set(first, true);
            let mut path: Vec<usize> = Vec::new();
            path.push(first);
            let mut cur = ends[first];
            let mut steps: usize = 0;
            let mut draw = false;
            proof {
                lemma_selected_bound(used@, n as int);
                assert(prev + path@ == prev.push(first));
                assert forall|x: usize| (prev + path@).contains(x) implies x < n by {
                    if x != first {
                        assert(prev.contains(x));
                    }
                }
            }
            while !(cur.0 == key.0 && cur.1 == key.1) && steps < CHAIN_STEPS
                invariant_except_break
                    !draw,
                invariant
                    n == starts@.len(),
                    n == ends@.len(),
                    used@.len() == n,
                    f < n,
                    forall|j: int| 0 <= j < f ==> used@[j],
                    ls == paths_view(paths@),
                    prev == flat(ls),
                    paths@.len() == draws@.len(),
                    chains_so_far(starts@, ends@, ls, draws@),
                    forall|x: usize| prev.contains(x) ==> x < n,
                    !prev.contains(f),
                    forall|j: int| 0 <= j < f ==> #[trigger] prev.contains(j as usize),
                    key == starts@[f as int],
                    path@.len() >= 1,
                    path@[0] == first,
                    last_free(starts@, prev, key, first as int),
                    forall|j: int| 0 <= j < n ==> (used@[j] <==> (prev + path@).contains(j as usize)),
                    forall|x: usize| (prev + path@).contains(x) ==> x < n,
                    (prev + path@).no_duplicates(),
                    cur == ends@[path@[path@.len() - 1] as int],
                    steps == path@.len() - 1,
                    steps <= CHAIN_STEPS,
                    forall|j: int|
                        0 <= j < path@.len() - 1 ==> starts@[#[trigger] path@[j + 1] as int]
                            == ends@[path@[j] as int] && ends@[path@[j] as int] != key,
                    forall|j: int|
                        0 < j < path@.len() ==> last_free(
                            starts@,
                            prev + path@.take(j),
                            ends@[path@[j - 1] as int],
                            #[trigger] path@[j] as int,
                        ),
                    selected(used@, n as int) == sel0 + path@.len(),
                    selected(used@, n as int) <= n,
                ensures
                    draw ==> cur != key && steps < CHAIN_STEPS && forall|m: int|
                        0 <= m < n && starts@[m] == cur ==> (prev + path@).contains(m as usize),
                    !draw ==> cur == key || steps == CHAIN_STEPS,
                decreases n - selected(used@, n as int),
            {
                match last_free_index(starts, &used, cur) {
                    None => {
                        draw = true;
                        break ;
                    },
                    Some(nx) => {
                        let ghost old_path = path@;
                        proof {
                            assert(!(prev + old_path).contains(nx));
                            lemma_push_new(prev + old_path, nx);
                            lemma_selected(used@, nx as int, n as int);
                            assert(last_free(starts@, prev + old_path, cur, nx as int));
                        }
                        used.set(nx, true);
                        path.push(nx);
                        proof {
                            lemma_selected_bound(used@, n as int);
                            assert(prev + path@ == (prev + old_path).push(nx));
                            assert forall|x: usize| (prev + path@).contains(x) implies x < n by {
                                if x != nx {
                                    assert((prev + old_path).contains(x));
                                }
                            }
                            assert(path@.take(old_path.len() as int) == old_path);
                            assert forall|j: int|
                                0 < j < path@.len() implies last_free(
                                starts@,
                                prev + path@.take(j),
                                ends@[path@[j - 1] as int],
                                #[trigger] path@[j] as int,
                            ) by {
                                if j < old_path.len() {
                                    assert(path@.take(j) == old_path.take(j));
                                }
                            }
                        }
                        cur = ends[nx];
                        steps = steps + 1;
                    },
                }
            }
            proof {
                let p = path@;
                let ls2 = paths_view(paths@.push(path));
                assert(ls2 == ls.push(p));
                lemma_flat_push(ls, p);
                assert(p.take(p.len() as int) == p);
                assert(ls2.take(ls.len() as int) == ls);
                assert forall|k: int| 0 <= k < ls.len() implies ls2.take(k) == ls.take(k) && ls2[k]
                    == ls[k] by {}
                lemma_chains_push(starts@, ends@, ls, draws@, p, draw, f as int);
            }
            paths.push(path);
            draws.push(draw);
        }
    }
    proof {
        assert forall|x: usize| flat(paths_view(paths@)).contains(x) <==> x < starts@.len() by {
            if x < n {
                assert(used@[x as int]);
            }
        }
    }
    (paths, draws)
}

} // verus!
