//! Caret bookkeeping for laid-out text: which characters each word and
//! each cluster covers, which clusters a selection touches, where the
//! ink of a composed word lies, and which caret slots borrow their
//! position from a neighbour.
use vstd::prelude::*;

verus! {

/// The positions of the spaces among the first `n` characters.
pub open spec fn space_positions(s: Seq<char>, n: int) -> Seq<int>
    decreases n,
{
    if n <= 0 {
        Seq::empty()
    } else if s[n - 1] == ' ' {
        space_positions(s, n - 1).push(n - 1)
    } else {
        space_positions(s, n - 1)
    }
}

/// The pieces of `s` between single spaces, as (first character, number
/// of characters): one more piece than there are spaces, empty pieces
/// included.
pub open spec fn space_pieces(s: Seq<char>) -> Seq<(int, int)> {
    let sp = space_positions(s, s.len() as int);
    Seq::new(
        sp.len() + 1,
        |k: int|
            {
                let start = if k == 0 {
                    0
                } else {
                    sp[k - 1] + 1
                };
                let end = if k < sp.len() {
                    sp[k]
                } else {
                    s.len() as int
                };
                (start, end - start)
            },
    )
}

proof fn lemma_space_positions(s: Seq<char>, n: int)
    requires
        0 <= n <= s.len(),
    ensures
        forall|i: int|
            0 <= i < space_positions(s, n).len() ==> 0 <= #[trigger] space_positions(s, n)[i] < n,
        forall|i: int, j: int|
            0 <= i < j < space_positions(s, n).len() ==> space_positions(s, n)[i] < space_positions(
                s,
                n,
            )[j],
    decreases n,
{
    if n > 0 {
        lemma_space_positions(s, n - 1);
        let p = space_positions(s, n - 1);
        let q = space_positions(s, n);
        if s[n - 1] == ' ' {
            assert(q == p.push(n - 1));
            assert forall|i: int| 0 <= i < q.len() implies 0 <= #[trigger] q[i] < n by {
                if i < p.len() {
                    assert(q[i] == p[i]);
                }
            }
            assert forall|i: int, j: int| 0 <= i < j < q.len() implies q[i] < q[j] by {
                assert(q[i] == p[i]);
                if j < p.len() {
                    assert(q[j] == p[j]);
                }
            }
        }
    }
}

/// Split a line's characters at each space into words: each word's first
/// character index and length. Consecutive spaces give empty words.
pub fn word_spans(text: &[char]) -> (r: Vec<(usize, usize)>)
    ensures
        r@.len() == space_pieces(text@).len(),
        forall|k: int|
            0 <= k < r@.len() ==> (#[trigger] r@[k]).0 == space_pieces(text@)[k].0 && r@[k].1
                == space_pieces(text@)[k].1,
{
    let n = text.len();
    let mut out: Vec<(usize, usize)> = Vec::new();
    let mut start: usize = 0;
    let mut i: usize = 0;
    let ghost s = text@;
    while i < n
        invariant
            s == text@,
            n == s.len(),
            i <= n,
            start <= i,
            out@.len() == space_positions(s, i as int).len(),
            start == if out@.len() == 0 {
                0
            } else {
                space_positions(s, i as int)[out@.len() - 1] + 1
            },
            forall|k: int|
                0 <= k < out@.len() ==> (#[trigger] out@[k]).0 == (if k == 0 {
                    0
                } else {
                    space_positions(s, i as int)[k - 1] + 1
                }) && out@[k].0 + out@[k].1 == space_positions(s, i as int)[k],
        decreases n - i,
    {
        proof {
            lemma_space_positions(s, i as int);
        }
        if text[i] == ' ' {
            out.push((start, i - start));
            start = i + 1;
        }
        proof {
            let p = space_positions(s, i as int);
            let q = space_positions(s, i + 1);
            assert(forall|k: int| 0 <= k < p.len() ==> q[k] == p[k]);
        }
        i = i + 1;
    }
    out.push((start, n - start));
    proof {
        let sp = space_positions(s, n as int);
        assert forall|k: int|
            0 <= k < out@.len() implies (#[trigger] out@[k]).0 == space_pieces(s)[k].0 && out@[k].1
            == space_pieces(s)[k].1 by {}
    }
    out
}

/// The caret index where cluster `k` starts: `base` plus the lengths of
/// the clusters before it.
pub open spec fn cluster_start(base: int, lens: Seq<usize>, k: int) -> int
    decreases k,
{
    if k <= 0 {
        base
    } else {
        cluster_start(base, lens, k - 1) + lens[k - 1]
    }
}

/// The caret index where each cluster of a word starting at `base`
/// starts, given each cluster's length in characters.
pub fn cluster_starts(base: usize, lens: &[usize]) -> (r: Vec<usize>)
    requires
        cluster_start(base as int, lens@, lens@.len() as int) <= usize::MAX,
    ensures
        r@.len() == lens@.len(),
        forall|k: int| 0 <= k < lens@.len() ==> #[trigger] r@[k] == cluster_start(base as int, lens@, k),
{
    let n = lens.len();
    let mut out: Vec<usize> = Vec::new();
    let mut cs: usize = base;
    let mut k: usize = 0;
    while k < n
        invariant
            n == lens@.len(),
            k <= n,
            cluster_start(base as int, lens@, n as int) <= usize::MAX,
            cs == cluster_start(base as int, lens@, k as int),
            out@.len() == k,
            forall|j: int| 0 <= j < k ==> #[trigger] out@[j] == cluster_start(base as int, lens@, j),
        decreases n - k,
    {
        proof {
            lemma_cluster_start_mono(base as int, lens@, k + 1, n as int);
        }
        out.push(cs);
        cs = cs + lens[k];
        k = k + 1;
    }
    out
}

proof fn lemma_cluster_start_mono(base: int, lens: Seq<usize>, j: int, k: int)
    requires
        0 <= j <= k,
    ensures
        cluster_start(base, lens, j) <= cluster_start(base, lens, k),
    decreases k - j,
{
    if j < k {
        lemma_cluster_start_mono(base, lens, j, k - 1);
    }
}

/// Does the selection of caret indices `[start, end)` reach into the
/// word of `n_chars` characters starting at `base`?
pub fn selection_touches(base: usize, n_chars: usize, start: usize, end: usize) -> (r: bool)
    requires
        base + n_chars <= usize::MAX,
    ensures
        r == ((if start > base {
            start as int
        } else {
            base as int
        }) < (if end < base + n_chars {
            end as int
        } else {
            base + n_chars
        })),
{
    let a = if start > base {
        start
    } else {
        base
    };
    let b = if end < base + n_chars {
        end
    } else {
        base + n_chars
    };
    a < b
}

/// Which clusters of a word (starting at caret index `base`, cluster
/// lengths `lens`) the selection `[start, end)` touches.
pub fn selection_mask(base: usize, lens: &[usize], start: usize, end: usize) -> (r: Vec<bool>)
    requires
        cluster_start(base as int, lens@, lens@.len() as int) <= usize::MAX,
    ensures
        r@.len() == lens@.len(),
        forall|k: int|
            0 <= k < lens@.len() ==> #[trigger] r@[k] == (cluster_start(base as int, lens@, k) < end
                && cluster_start(base as int, lens@, k) + lens@[k] > start),
{
    let starts = cluster_starts(base, lens);
    let n = lens.len();
    let mut out: Vec<bool> = Vec::new();
    let mut k: usize = 0;
    while k < n
        invariant
            n == lens@.len(),
            starts@.len() == n,
            forall|j: int| 0 <= j < n ==> #[trigger] starts@[j] == cluster_start(base as int, lens@, j),
            cluster_start(base as int, lens@, n as int) <= usize::MAX,
            k <= n,
            out@.len() == k,
            forall|j: int|
                0 <= j < k ==> #[trigger] out@[j] == (cluster_start(base as int, lens@, j) < end
                    && cluster_start(base as int, lens@, j) + lens@[j] > start),
        decreases n - k,
    {
        proof {
            lemma_cluster_start_mono(base as int, lens@, k + 1, n as int);
        }
        let cs = starts[k];
        out.push(cs < end && cs + lens[k] > start);
        k = k + 1;
    }
    out
}

/// For each caret slot, the slot it takes its position from: itself when
/// placed, else the nearest placed slot before it, else the nearest after
/// it, else none.
pub fn fill_gaps(known: &[bool]) -> (r: Vec<Option<usize>>)
    ensures
        r@.len() == known@.len(),
        forall|i: int|
            0 <= i < known@.len() ==> match #[trigger] r@[i] {
                Some(j) => 0 <= j < known@.len() && known@[j as int] && (j <= i ==> forall|m: int|
                    j < m <= i ==> !known@[m]) && (j > i ==> forall|m: int|
                    0 <= m < j ==> !known@[m]),
                None => forall|m: int| 0 <= m < known@.len() ==> !known@[m],
            },
{
    let n = known.len();
    // forward: the last placed slot so far
    let mut fwd: Vec<Option<usize>> = Vec::new();
    let mut last: Option<usize> = None;
    let mut i: usize = 0;
    while i < n
        invariant
            n == known@.len(),
            i <= n,
            fwd@.len() == i,
            match last {
                Some(j) => j < i && known@[j as int] && forall|m: int| j < m < i ==> !known@[m],
                None => forall|m: int| 0 <= m < i ==> !known@[m],
            },
            forall|k: int|
                0 <= k < i ==> match #[trigger] fwd@[k] {
                    Some(j) => j <= k && known@[j as int] && forall|m: int| j < m <= k ==> !known@[m],
                    None => forall|m: int| 0 <= m <= k ==> !known@[m],
                },
        decreases n - i,
    {
        if known[i] {
            last = Some(i);
        }
        fwd.push(last);
        i = i + 1;
    }
    // the first placed slot fills everything before it
    let mut first: Option<usize> = None;
    let mut k: usize = 0;
    while k < n && first.is_none()
        invariant
            n == known@.len(),
            k <= n,
            match first {
                Some(j) => j < n && known@[j as int] && forall|m: int| 0 <= m < j ==> !known@[m],
                None => forall|m: int| 0 <= m < k ==> !known@[m],
            },
        decreases n - k,
    {
        if known[k] {
            first = Some(k);
        }
        k = k + 1;
    }
    let mut out: Vec<Option<usize>> = Vec::new();
    let mut i: usize = 0;
    while i < n
        invariant
            n == known@.len(),
            fwd@.len() == n,
            i <= n,
            out@.len() == i,
            forall|k: int|
                0 <= k < n ==> match #[trigger] fwd@[k] {
                    Some(j) => j <= k && known@[j as int] && forall|m: int| j < m <= k ==> !known@[m],
                    None => forall|m: int| 0 <= m <= k ==> !known@[m],
                },
            match first {
                Some(j) => j < n && known@[j as int] && forall|m: int| 0 <= m < j ==> !known@[m],
                None => forall|m: int| 0 <= m < n ==> !known@[m],
            },
            forall|k: int|
                0 <= k < i ==> match #[trigger] out@[k] {
                    Some(j) => 0 <= j < n && known@[j as int] && (j <= k ==> forall|m: int|
                        j < m <= k ==> !known@[m]) && (j > k ==> forall|m: int|
                        0 <= m < j ==> !known@[m]),
                    None => forall|m: int| 0 <= m < n ==> !known@[m],
                },
        decreases n - i,
    {
        let v = match fwd[i] {
            Some(j) => Some(j),
            None => first,
        };
        proof {
            if fwd@[i as int] is None {
                if let Some(j) = first {
                    if j <= i {
                        assert(!known@[j as int]);
                    }
                }
            }
        }
        out.push(v);
        i = i + 1;
    }
    out
}

/// Is cell `(x, y)` of a row-major grid `w` wide inked?
pub open spec fn ink_at(cells: Seq<bool>, w: int, x: int, y: int) -> bool {
    cells[y * w + x]
}

/// The ink bounding box of a row-major `w x h` grid: leftmost and
/// rightmost inked columns, top and bottom inked rows.
pub open spec fn ink_box(cells: Seq<bool>, w: int, h: int, b: (usize, usize, usize, usize)) -> bool {
    &&& forall|x: int, y: int|
        0 <= x < w && 0 <= y < h && #[trigger] ink_at(cells, w, x, y) ==> b.0 <= x <= b.1 && b.2
            <= y <= b.3
    &&& b.1 < w && b.3 < h
    &&& exists|y: int| 0 <= y < h && #[trigger] ink_at(cells, w, b.0 as int, y)
    &&& exists|y: int| 0 <= y < h && #[trigger] ink_at(cells, w, b.1 as int, y)
    &&& exists|x: int| 0 <= x < w && #[trigger] ink_at(cells, w, x, b.2 as int)
    &&& exists|x: int| 0 <= x < w && #[trigger] ink_at(cells, w, x, b.3 as int)
}

/// The ink bounding box of a composed word's mask (`None` when nothing is
/// inked).
pub fn ink_bounds(w: usize, h: usize, cells: &[bool]) -> (r: Option<(usize, usize, usize, usize)>)
    requires
        cells@.len() == w * h,
    ensures
        match r {
            Some(b) => ink_box(cells@, w as int, h as int, b),
            None => forall|x: int, y: int|
                0 <= x < w && 0 <= y < h ==> !#[trigger] ink_at(cells@, w as int, x, y),
        },
{
    let ghost c = cells@;
    let ghost wi = w as int;
    let total = cells.len();
    assert(w * h <= usize::MAX);
    let mut found = false;
    let mut x0: usize = 0;
    let mut x1: usize = 0;
    let mut y0: usize = 0;
    let mut y1: usize = 0;
    let mut y: usize = 0;
    while y < h
        invariant
            c == cells@,
            wi == w,
            c.len() == w * h,
            w * h <= usize::MAX,
            y <= h,
            !found ==> forall|a: int, b: int|
                0 <= a < w && 0 <= b < y ==> !#[trigger] ink_at(c, wi, a, b),
            found ==> {
                &&& forall|a: int, b: int|
                    0 <= a < w && 0 <= b < y && #[trigger] ink_at(c, wi, a, b) ==> x0 <= a <= x1
                        && y0 <= b <= y1
                &&& y0 <= y1 < y
                &&& x0 <= x1 < w
                &&& exists|b: int| 0 <= b < h && #[trigger] ink_at(c, wi, x0 as int, b)
                &&& exists|b: int| 0 <= b < h && #[trigger] ink_at(c, wi, x1 as int, b)
                &&& exists|a: int| 0 <= a < w && #[trigger] ink_at(c, wi, a, y0 as int)
                &&& exists|a: int| 0 <= a < w && #[trigger] ink_at(c, wi, a, y1 as int)
            },
        decreases h - y,
    {
        let mut x: usize = 0;
        while x < w
            invariant
                c == cells@,
                wi == w,
                c.len() == w * h,
                w * h <= usize::MAX,
                y < h,
                x <= w,
                !found ==> forall|a: int, b: int|
                    0 <= a < w && 0 <= b < h && (b < y || (b == y && a < x)) ==> !#[trigger] ink_at(
                        c,
                        wi,
                        a,
                        b,
                    ),
                found ==> {
                    &&& forall|a: int, b: int|
                        0 <= a < w && 0 <= b < h && (b < y || (b == y && a < x)) && #[trigger] ink_at(
                            c,
                            wi,
                            a,
                            b,
                        ) ==> x0 <= a <= x1 && y0 <= b <= y1
                    &&& y0 <= y1 <= y
                    &&& x0 <= x1 < w
                    &&& exists|b: int| 0 <= b < h && #[trigger] ink_at(c, wi, x0 as int, b)
                    &&& exists|b: int| 0 <= b < h && #[trigger] ink_at(c, wi, x1 as int, b)
                    &&& exists|a: int| 0 <= a < w && #[trigger] ink_at(c, wi, a, y0 as int)
                    &&& exists|a: int| 0 <= a < w && #[trigger] ink_at(c, wi, a, y1 as int)
                },
            decreases w - x,
        {
            proof {
                assert(0 <= y * wi && y * wi + x < w * h) by (nonlinear_arith)
                    requires
                        0 <= x < w,
                        0 <= y < h,
                        wi == w,
                ;
            }
            if cells[y * w + x] {
                assert(ink_at(c, wi, x as int, y as int));
                if !found {
                    found = true;
                    x0 = x;
                    x1 = x;
                    y0 = y;
                    y1 = y;
                } else {
                    if x < x0 {
                        x0 = x;
                    }
                    if x > x1 {
                        x1 = x;
                    }
                    y1 = y;
                }
            }
            x = x + 1;
        }
        y = y + 1;
    }
    if found {
        let r = (x0, x1, y0, y1);
        assert(forall|x: int, y: int|
            0 <= x < w && 0 <= y < h && #[trigger] ink_at(c, wi, x, y) ==> r.0 <= x <= r.1 && r.2
                <= y <= r.3);
        assert(r.1 < w && r.3 < h);
        assert(exists|b: int| 0 <= b < h && #[trigger] ink_at(c, wi, r.0 as int, b));
        assert(exists|b: int| 0 <= b < h && #[trigger] ink_at(c, wi, r.1 as int, b));
        assert(exists|a: int| 0 <= a < w && #[trigger] ink_at(c, wi, a, r.2 as int));
        assert(exists|a: int| 0 <= a < w && #[trigger] ink_at(c, wi, a, r.3 as int));
        assert(ink_box(cells@, w as int, h as int, r));
        Some(r)
    } else {
        None
    }
}

} // verus!
