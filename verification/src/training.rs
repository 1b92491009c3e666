//! Data preparation for the trainers: the deterministic shuffle, the
//! hold-out split, length ordering, batch padding and the causal mask.
use vstd::prelude::*;
use vstd::seq_lib::to_multiset_update;

verus! {

/// The trainers' shuffle seed.
pub const SHUFFLE_SEED: u64 = 0x9e37_79b9_7f4a_7c15;

/// One step of the xorshift64 generator (shifts 13, 7, 17).
pub open spec fn xorshift(s: u64) -> u64 {
    let a = s ^ (s << 13u64);
    let b = a ^ (a >> 7u64);
    b ^ (b << 17u64)
}

/// Advance the generator one step.
pub fn next_state(s: u64) -> (r: u64)
    ensures
        r == xorshift(s),
{
    let a = s ^ (s << 13u64);
    let b = a ^ (a >> 7u64);
    b ^ (b << 17u64)
}

/// The Fisher–Yates pass over positions `i` down to 1: each position
/// swaps with one drawn at or below it from the next generator state.
/// Returns the sequence and the final state.
pub open spec fn shuffle_pass(s: Seq<usize>, rng: u64, i: int) -> (Seq<usize>, u64)
    decreases i,
{
    if i < 1 || i >= s.len() {
        (s, rng)
    } else {
        let r = xorshift(rng);
        let j = (r as usize) as int % (i + 1);
        shuffle_pass(s.update(i, s[j]).update(j, s[i]), r, i - 1)
    }
}

/// The shuffle of a whole sequence from state `rng`.
pub open spec fn spec_shuffle(s: Seq<usize>, rng: u64) -> (Seq<usize>, u64) {
    shuffle_pass(s, rng, s.len() - 1)
}

/// Shuffle `v` in place with the xorshift Fisher–Yates pass, advancing
/// the generator state `rng` once per position.
pub fn shuffle(v: &mut Vec<usize>, rng: &mut u64)
    ensures
        (final(v)@, *final(rng)) == spec_shuffle(old(v)@, *old(rng)),
{
    let n = v.len();
    if n == 0 {
        return;
    }
    let mut i: usize = n - 1;
    while i >= 1
        invariant
            v@.len() == n,
            i < n,
            spec_shuffle(old(v)@, *old(rng)) == shuffle_pass(v@, *rng, i as int),
        decreases i,
    {
        let r = next_state(*rng);
        let j = (r as usize) % (i + 1);
        let a = v[i];
        let b = v[j];
        v.set(i, b);
        v.set(j, a);
        *rng = r;
        i = i - 1;
    }
}

/// Shuffling only reorders: the result holds the same items, each as
/// often, as the input.
pub proof fn lemma_shuffle_permutes(s: Seq<usize>, rng: u64, i: int)
    ensures
        shuffle_pass(s, rng, i).0.len() == s.len(),
        shuffle_pass(s, rng, i).0.to_multiset() == s.to_multiset(),
    decreases i,
{
    if i < 1 || i >= s.len() {
    } else {
        let r = xorshift(rng);
        let j = (r as usize) as int % (i + 1);
        let u = s.update(i, s[j]);
        let t = u.update(j, s[i]);
        lemma_shuffle_permutes(t, r, i - 1);
        broadcast use vstd::multiset::group_multiset_axioms;
        to_multiset_update(s, i, s[j]);
        to_multiset_update(u, j, s[i]);
        vstd::seq_lib::to_multiset_contains(s, s[i]);
        vstd::seq_lib::to_multiset_contains(s, s[j]);
        assert(u[j] == s[j]);
        let m = s.to_multiset();
        assert(m.count(s[i]) > 0);
        assert(t.to_multiset() =~= m.insert(s[j]).remove(s[i]).insert(s[i]).remove(s[j]));
        assert(t.to_multiset() =~= m);
    }
}

/// The trainers hold out every `HOLDOUT`-th row for validation.
pub const HOLDOUT: usize = 20;

/// Split a row order into (validation, training): the rows at
/// positions divisible by `HOLDOUT` validate, the others train, each
/// part keeping the order.
pub open spec fn spec_holdout(s: Seq<usize>) -> (Seq<usize>, Seq<usize>)
    decreases s.len(),
{
    if s.len() == 0 {
        (seq![], seq![])
    } else {
        let (v, t) = spec_holdout(s.drop_last());
        if (s.len() - 1) % (HOLDOUT as int) == 0 {
            (v.push(s.last()), t)
        } else {
            (v, t.push(s.last()))
        }
    }
}

/// Split a row order into validation and training rows.
pub fn holdout(order: &[usize]) -> (r: (Vec<usize>, Vec<usize>))
    ensures
        (r.0@, r.1@) == spec_holdout(order@),
{
    let mut val: Vec<usize> = Vec::new();
    let mut train: Vec<usize> = Vec::new();
    let mut k: usize = 0;
    assert(order@.take(0) =~= Seq::<usize>::empty());
    while k < order.len()
        invariant
            k <= order@.len(),
            (val@, train@) == spec_holdout(order@.take(k as int)),
        decreases order@.len() - k,
    {
        assert(order@.take(k as int + 1).drop_last() =~= order@.take(k as int));
        if k % HOLDOUT == 0 {
            val.push(order[k]);
        } else {
            train.push(order[k]);
        }
        k = k + 1;
    }
    assert(order@.take(k as int) =~= order@);
    (val, train)
}

/// The hold-out split loses and duplicates nothing, and validates one
/// row in `HOLDOUT`, rounding up.
pub proof fn lemma_holdout_partition(s: Seq<usize>)
    ensures
        spec_holdout(s).0.to_multiset().add(spec_holdout(s).1.to_multiset()) == s.to_multiset(),
        spec_holdout(s).0.len() == (s.len() + HOLDOUT - 1) / (HOLDOUT as int),
        spec_holdout(s).0.len() + spec_holdout(s).1.len() == s.len(),
    decreases s.len(),
{
    broadcast use vstd::multiset::group_multiset_axioms;
    broadcast use vstd::seq_lib::group_to_multiset_ensures;
    if s.len() == 0 {
        assert(s.to_multiset() =~= vstd::multiset::Multiset::empty());
        assert(spec_holdout(s).0.to_multiset().add(spec_holdout(s).1.to_multiset()) =~= vstd::multiset::Multiset::empty());
    } else {
        let p = s.drop_last();
        lemma_holdout_partition(p);
        assert(p.push(s.last()) =~= s);
        let (v, t) = spec_holdout(p);
        if (s.len() - 1) % (HOLDOUT as int) == 0 {
            assert(v.push(s.last()).to_multiset() == v.to_multiset().insert(s.last()));
            assert(v.push(s.last()).to_multiset().add(t.to_multiset()) =~= s.to_multiset());
        } else {
            assert(t.push(s.last()).to_multiset() == t.to_multiset().insert(s.last()));
            assert(v.to_multiset().add(t.push(s.last()).to_multiset()) =~= s.to_multiset());
        }
    }
}

/// Row `a` comes before row `b` when ordering rows of lengths `lens`:
/// shorter first, rows of equal length in index order.
pub open spec fn len_before(lens: Seq<usize>, a: usize, b: usize) -> bool {
    lens[a as int] < lens[b as int] || (lens[a as int] == lens[b as int] && a < b)
}

/// `r` lists row indices below `n`, strictly ordered by `len_before`.
pub open spec fn length_sorted(lens: Seq<usize>, r: Seq<usize>, n: int) -> bool {
    &&& forall|k: int| 0 <= k < r.len() ==> #[trigger] r[k] < n
    &&& forall|i: int, j: int| 0 <= i < j < r.len() ==> len_before(lens, #[trigger] r[i], #[trigger] r[j])
}

/// The row indices `0..lens.len()` stably sorted by length, so that
/// batches of neighbouring rows pad little.
pub fn length_order(lens: &[usize]) -> (r: Vec<usize>)
    ensures
        r@.len() == lens@.len(),
        length_sorted(lens@, r@, lens@.len() as int),
        forall|x: usize| x < lens@.len() ==> #[trigger] r@.contains(x),
{
    let n = lens.len();
    let mut keys: Vec<Vec<u64>> = Vec::new();
    let mut i: usize = 0;
    while i < n
        invariant
            n == lens@.len(),
            i <= n,
            keys@.len() == i,
            forall|k: int| 0 <= k < i ==> (#[trigger] keys@[k])@ == seq![lens@[k] as u64],
        decreases n - i,
    {
        let mut k: Vec<u64> = Vec::new();
        k.push(lens[i] as u64);
        keys.push(k);
        i = i + 1;
    }
    let ghost kv = keys_view(keys@);
    proof {
        assert forall|k: int| 0 <= k < kv.len() implies (#[trigger] kv[k]).len() == 1 by {
            assert(kv[k] == keys@[k]@);
        }
        if n > 0 {
            assert(kv[0] == keys@[0]@);
        }
    }
    let r = sort_rows(&keys);
    proof {
        assert forall|i: int, j: int| 0 <= i < j < r@.len() implies len_before(
            lens@,
            #[trigger] r@[i],
            #[trigger] r@[j],
        ) by {
            let a = r@[i];
            let b = r@[j];
            assert(row_before(kv, a, b));
            assert(kv[a as int] == seq![lens@[a as int] as u64]);
            assert(kv[b as int] == seq![lens@[b as int] as u64]);
            reveal_with_fuel(lex_lt, 2);
            assert(kv[a as int].drop_first() =~= Seq::<u64>::empty());
            assert(kv[b as int].drop_first() =~= Seq::<u64>::empty());
        }
    }
    r
}

/// The context features per row.
pub const PREFIX: usize = 5;

/// Entry (`r`, `c`) of a row-major grid `w` entries wide.
pub open spec fn grid_at<T>(s: Seq<T>, w: int, r: int, c: int) -> T {
    s[r * w + c]
}

/// Row `rr` of a row-major grid `t` wide starts before row `r` ends.
pub proof fn lemma_grid_index(rr: int, r: int, c: int, t: int)
    requires
        0 <= rr < r,
        0 <= c < t,
    ensures
        0 <= rr * t + c < r * t,
{
    assert(0 <= rr * t + c < r * t) by (nonlinear_arith)
        requires
            0 <= rr < r,
            0 <= c < t,
    ;
}

/// The longest of the sequences `s[idx[0..m]]`.
pub open spec fn widest(s: Seq<Seq<u32>>, idx: Seq<usize>, m: int) -> int
    decreases m,
{
    if m <= 0 {
        0
    } else {
        let w = widest(s, idx, m - 1);
        let l = s[idx[m - 1] as int].len() as int;
        if l > w {
            l
        } else {
            w
        }
    }
}

/// A batch is as wide as its longest sequence; an empty batch is one
/// wide.
pub open spec fn batch_width(s: Seq<Seq<u32>>, idx: Seq<usize>) -> int {
    if idx.len() == 0 {
        1
    } else {
        widest(s, idx, idx.len() as int)
    }
}

/// Token `c` of sequence `q`, or the pad id 0 past its end.
pub open spec fn padded(q: Seq<u32>, c: int) -> u32 {
    if c < q.len() {
        q[c]
    } else {
        0
    }
}

/// The token sequences of a `Vec` of sequences.
pub open spec fn seqs_view(v: Seq<Vec<u32>>) -> Seq<Seq<u32>> {
    v.map_values(|q: Vec<u32>| q@)
}

proof fn lemma_widest_bounds(s: Seq<Seq<u32>>, idx: Seq<usize>, m: int)
    requires
        0 <= m <= idx.len(),
        forall|k: int| 0 <= k < idx.len() ==> (#[trigger] idx[k] as int) < s.len(),
    ensures
        widest(s, idx, m) >= 0,
        forall|k: int| 0 <= k < m ==> s[#[trigger] idx[k] as int].len() <= widest(s, idx, m),
        m > 0 ==> exists|k: int| 0 <= k < m && s[#[trigger] idx[k] as int].len() == widest(s, idx, m),
    decreases m,
{
    if m > 0 {
        lemma_widest_bounds(s, idx, m - 1);
        if m - 1 > 0 {
            let k0 = choose|k: int| 0 <= k < m - 1 && s[#[trigger] idx[k] as int].len() == widest(s, idx, m - 1);
            assert(0 <= k0 < m);
        }
        assert(s[idx[m - 1] as int].len() <= widest(s, idx, m));
    }
}

/// Pad a batch of rows: the context features of rows `idx` side by
/// side (`PREFIX` per row), and their token sequences as a grid as
/// wide as the batch, padded with id 0. Returns the two grids and the
/// width.
pub fn pad_batch(ctx: &[[u32; 5]], seqs: &[Vec<u32>], idx: &[usize]) -> (r: (Vec<u32>, Vec<u32>, usize))
    requires
        forall|k: int| 0 <= k < idx@.len() ==> (#[trigger] idx@[k] as int) < ctx@.len() && (idx@[k]
            as int) < seqs@.len(),
        idx@.len() * PREFIX <= usize::MAX,
        forall|k: int|
            0 <= k < idx@.len() ==> idx@.len() * (#[trigger] seqs@[idx@[k] as int])@.len() <= usize::MAX,
    ensures
        r.2 == batch_width(seqs_view(seqs@), idx@),
        r.0@.len() == idx@.len() * PREFIX,
        r.1@.len() == idx@.len() * r.2,
        forall|k: int, p: int|
            0 <= k < idx@.len() && 0 <= p < PREFIX ==> #[trigger] grid_at(r.0@, PREFIX as int, k, p)
                == ctx@[idx@[k] as int][p],
        forall|k: int, c: int|
            0 <= k < idx@.len() && 0 <= c < r.2 ==> #[trigger] grid_at(r.1@, r.2 as int, k, c)
                == padded(seqs@[idx@[k] as int]@, c),
{
    let ghost sv = seqs_view(seqs@);
    let n = idx.len();
    let mut t: usize = 0;
    let mut m: usize = 0;
    while m < n
        invariant
            n == idx@.len(),
            m <= n,
            sv == seqs_view(seqs@),
            forall|k: int| 0 <= k < idx@.len() ==> (#[trigger] idx@[k] as int) < seqs@.len(),
            t == widest(sv, idx@, m as int),
        decreases n - m,
    {
        let l = seqs[idx[m]].len();
        if l > t {
            t = l;
        }
        m = m + 1;
    }
    if n == 0 {
        t = 1;
    }
    proof {
        lemma_widest_bounds(sv, idx@, n as int);
        if n > 0 {
            let k0 = choose|k: int| 0 <= k < n && sv[#[trigger] idx@[k] as int].len() == widest(sv, idx@, n as int);
            assert(sv[idx@[k0] as int] == seqs@[idx@[k0] as int]@);
            assert(n * t <= usize::MAX);
        }
    }
    let mut cx: Vec<u32> = Vec::new();
    let mut toks: Vec<u32> = Vec::new();
    let mut k: usize = 0;
    while k < n
        invariant
            n == idx@.len(),
            k <= n,
            sv == seqs_view(seqs@),
            forall|q: int| 0 <= q < idx@.len() ==> (#[trigger] idx@[q] as int) < ctx@.len() && (idx@[q]
                as int) < seqs@.len(),
            n * PREFIX <= usize::MAX,
            n * t <= usize::MAX,
            forall|q: int| 0 <= q < n ==> (#[trigger] seqs@[idx@[q] as int])@.len() <= t,
            cx@.len() == k * PREFIX,
            toks@.len() == k * t,
            forall|q: int, p: int|
                0 <= q < k && 0 <= p < PREFIX ==> #[trigger] grid_at(cx@, PREFIX as int, q, p)
                    == ctx@[idx@[q] as int][p],
            forall|q: int, c: int|
                0 <= q < k && 0 <= c < t ==> #[trigger] grid_at(toks@, t as int, q, c) == padded(
                    seqs@[idx@[q] as int]@,
                    c,
                ),
        decreases n - k,
    {
        proof {
            assert((k + 1) * PREFIX <= n * PREFIX) by (nonlinear_arith)
                requires
                    k < n,
            ;
            assert((k + 1) * t <= n * t) by (nonlinear_arith)
                requires
                    k < n,
            ;
        }
        let row = idx[k];
        let f = ctx[row];
        let ghost cx0 = cx@;
        let mut p: usize = 0;
        while p < PREFIX
            invariant
                p <= PREFIX,
                cx@.len() == k * PREFIX + p,
                cx@.subrange(0, k * PREFIX) == cx0,
                cx0.len() == k * PREFIX,
                forall|pp: int| 0 <= pp < p ==> #[trigger] cx@[k * PREFIX + pp] == f@[pp],
            decreases PREFIX - p,
        {
            cx.push(f[p]);
            p = p + 1;
            assert(cx@.subrange(0, k * PREFIX) =~= cx0);
        }
        let q = &seqs[row];
        let ghost tk0 = toks@;
        let mut c: usize = 0;
        while c < t
            invariant
                c <= t,
                q@.len() <= t,
                toks@.len() == k * t + c,
                toks@.subrange(0, k * t) == tk0,
                tk0.len() == k * t,
                forall|cc: int| 0 <= cc < c ==> #[trigger] toks@[k * t + cc] == padded(q@, cc),
            decreases t - c,
        {
            if c < q.len() {
                toks.push(q[c]);
            } else {
                toks.push(0);
            }
            c = c + 1;
            assert(toks@.subrange(0, k * t) =~= tk0);
        }
        assert forall|qq: int, pp: int|
            0 <= qq < k + 1 && 0 <= pp < PREFIX implies #[trigger] grid_at(cx@, PREFIX as int, qq, pp)
            == ctx@[idx@[qq] as int][pp] by {
            if qq < k {
                lemma_grid_index(qq, k as int, pp, PREFIX as int);
                assert(cx@[qq * PREFIX + pp] == cx0[qq * PREFIX + pp]);
                assert(grid_at(cx0, PREFIX as int, qq, pp) == ctx@[idx@[qq] as int][pp]);
            }
        }
        assert forall|qq: int, cc: int|
            0 <= qq < k + 1 && 0 <= cc < t implies #[trigger] grid_at(toks@, t as int, qq, cc) == padded(
            seqs@[idx@[qq] as int]@,
            cc,
        ) by {
            if qq < k {
                lemma_grid_index(qq, k as int, cc, t as int);
                assert(toks@[qq * t + cc] == tk0[qq * t + cc]);
                assert(grid_at(tk0, t as int, qq, cc) == padded(seqs@[idx@[qq] as int]@, cc));
            }
        }
        proof {
            assert((k + 1) * PREFIX == k * PREFIX + PREFIX) by (nonlinear_arith);
            assert((k + 1) * t == k * t + t) by (nonlinear_arith);
        }
        k = k + 1;
    }
    (cx, toks, t)
}

/// The causal attention mask over `t` positions, row-major: entry
/// (`i`, `j`) is set (blocked) exactly when `j` lies after `i`.
pub fn causal_mask(t: usize) -> (r: Vec<bool>)
    requires
        t * t <= usize::MAX,
    ensures
        r@.len() == t * t,
        forall|i: int, j: int| 0 <= i < t && 0 <= j < t ==> #[trigger] grid_at(r@, t as int, i, j) == (j > i),
{
    let mut m: Vec<bool> = Vec::new();
    let mut i: usize = 0;
    while i < t
        invariant
            i <= t,
            t * t <= usize::MAX,
            m@.len() == i * t,
            forall|a: int, b: int| 0 <= a < i && 0 <= b < t ==> #[trigger] grid_at(m@, t as int, a, b) == (b > a),
        decreases t - i,
    {
        proof {
            assert((i + 1) * t <= t * t) by (nonlinear_arith)
                requires
                    i < t,
            ;
        }
        let ghost m0 = m@;
        let mut j: usize = 0;
        while j < t
            invariant
                j <= t,
                i < t,
                m@.len() == i * t + j,
                m@.subrange(0, i * t) == m0,
                m0.len() == i * t,
                (i + 1) * t <= t * t <= usize::MAX,
                forall|b: int| 0 <= b < j ==> #[trigger] m@[i * t + b] == (b > i),
            decreases t - j,
        {
            m.push(j > i);
            j = j + 1;
            assert(m@.subrange(0, i * t) =~= m0);
        }
        assert forall|a: int, b: int| 0 <= a < i + 1 && 0 <= b < t implies #[trigger] grid_at(
            m@,
            t as int,
            a,
            b,
        ) == (b > a) by {
            if a < i {
                lemma_grid_index(a, i as int, b, t as int);
                assert(m@[a * t + b] == m0[a * t + b]);
                assert(grid_at(m0, t as int, a, b) == (b > a));
            }
        }
        proof {
            assert((i + 1) * t == i * t + t) by (nonlinear_arith);
        }
        i = i + 1;
    }
    m
}

/// Lexicographic order on key sequences.
pub open spec fn lex_lt(a: Seq<u64>, b: Seq<u64>) -> bool
    decreases a.len(),
{
    if a.len() == 0 || b.len() == 0 {
        false
    } else if a[0] != b[0] {
        a[0] < b[0]
    } else {
        lex_lt(a.drop_first(), b.drop_first())
    }
}

/// Lexicographic order is transitive.
pub proof fn lemma_lex_transitive(a: Seq<u64>, b: Seq<u64>, c: Seq<u64>)
    requires
        lex_lt(a, b),
        lex_lt(b, c),
    ensures
        lex_lt(a, c),
    decreases a.len(),
{
    if a[0] == b[0] && b[0] == c[0] {
        lemma_lex_transitive(a.drop_first(), b.drop_first(), c.drop_first());
    }
}

/// Two different keys of one length are ordered one way or the other,
/// never both.
pub proof fn lemma_lex_total(a: Seq<u64>, b: Seq<u64>)
    requires
        a.len() == b.len(),
    ensures
        a != b ==> (lex_lt(a, b) || lex_lt(b, a)),
        !(lex_lt(a, b) && lex_lt(b, a)),
        !lex_lt(a, a),
    decreases a.len(),
{
    if a.len() > 0 {
        lemma_lex_total(a.drop_first(), b.drop_first());
        if a[0] == b[0] && a != b {
            assert(a.drop_first() != b.drop_first()) by {
                if a.drop_first() == b.drop_first() {
                    assert forall|k: int| 0 <= k < a.len() implies a[k] == b[k] by {
                        if k > 0 {
                            assert(a[k] == a.drop_first()[k - 1]);
                            assert(b[k] == b.drop_first()[k - 1]);
                        }
                    }
                    assert(a =~= b);
                }
            }
        }
    } else {
        assert(a =~= b);
    }
}

/// Compare two keys lexicographically.
fn key_less(a: &Vec<u64>, b: &Vec<u64>) -> (r: bool)
    requires
        a@.len() == b@.len(),
    ensures
        r == lex_lt(a@, b@),
{
    let mut k: usize = 0;
    assert(a@.skip(0) =~= a@);
    assert(b@.skip(0) =~= b@);
    assert(a@.take(0) =~= b@.take(0));
    while k < a.len()
        invariant
            a@.len() == b@.len(),
            k <= a@.len(),
            a@.take(k as int) == b@.take(k as int),
            lex_lt(a@, b@) == lex_lt(a@.skip(k as int), b@.skip(k as int)),
        decreases a@.len() - k,
    {
        assert(a@.skip(k as int).drop_first() =~= a@.skip(k as int + 1));
        assert(b@.skip(k as int).drop_first() =~= b@.skip(k as int + 1));
        if a[k] != b[k] {
            return a[k] < b[k];
        }
        assert(a@.take(k as int + 1) =~= a@.take(k as int).push(a@[k as int]));
        assert(b@.take(k as int + 1) =~= b@.take(k as int).push(b@[k as int]));
        k = k + 1;
    }
    false
}

/// Row `x` sorts before row `y`: smaller key first, equal keys in row
/// order.
pub open spec fn row_before(keys: Seq<Seq<u64>>, x: usize, y: usize) -> bool {
    lex_lt(keys[x as int], keys[y as int]) || (keys[x as int] == keys[y as int] && x < y)
}

/// All keys have length `l`.
pub open spec fn keys_of_len(keys: Seq<Seq<u64>>, l: int) -> bool {
    forall|k: int| 0 <= k < keys.len() ==> (#[trigger] keys[k]).len() == l
}

/// `r` is strictly ordered by `row_before`.
pub open spec fn rows_sorted(keys: Seq<Seq<u64>>, r: Seq<usize>) -> bool {
    forall|i: int, j: int| 0 <= i < j < r.len() ==> row_before(keys, #[trigger] r[i], #[trigger] r[j])
}

proof fn lemma_row_before_transitive(keys: Seq<Seq<u64>>, l: int, x: usize, y: usize, z: usize)
    requires
        keys_of_len(keys, l),
        x < keys.len(),
        y < keys.len(),
        z < keys.len(),
        row_before(keys, x, y),
        row_before(keys, y, z),
    ensures
        row_before(keys, x, z),
{
    if lex_lt(keys[x as int], keys[y as int]) && lex_lt(keys[y as int], keys[z as int]) {
        lemma_lex_transitive(keys[x as int], keys[y as int], keys[z as int]);
    }
}

proof fn lemma_row_before_total(keys: Seq<Seq<u64>>, l: int, x: usize, y: usize)
    requires
        keys_of_len(keys, l),
        x < keys.len(),
        y < keys.len(),
        x != y,
    ensures
        row_before(keys, x, y) != row_before(keys, y, x),
{
    lemma_lex_total(keys[x as int], keys[y as int]);
}

/// The sequence of the vector views of keys.
pub open spec fn keys_view(v: Seq<Vec<u64>>) -> Seq<Seq<u64>> {
    v.map_values(|k: Vec<u64>| k@)
}

/// `r` lists the rows `lo..hi`, each once, in `row_before` order.
pub open spec fn sorted_range(keys: Seq<Seq<u64>>, r: Seq<usize>, lo: int, hi: int) -> bool {
    &&& r.len() == hi - lo
    &&& forall|k: int| 0 <= k < r.len() ==> lo <= #[trigger] r[k] < hi
    &&& forall|x: usize| lo <= x < hi ==> #[trigger] r.contains(x)
    &&& rows_sorted(keys, r)
}

fn merge_rows(keys: &[Vec<u64>], a: Vec<usize>, b: Vec<usize>, lo: usize, mid: usize, hi: usize) -> (r: Vec<usize>)
    requires
        keys_of_len(keys_view(keys@), keys@[0]@.len() as int) || keys@.len() == 0,
        lo <= mid <= hi <= keys@.len(),
        sorted_range(keys_view(keys@), a@, lo as int, mid as int),
        sorted_range(keys_view(keys@), b@, mid as int, hi as int),
    ensures
        sorted_range(keys_view(keys@), r@, lo as int, hi as int),
{
    let ghost kv = keys_view(keys@);
    let ghost l: int = if keys@.len() == 0 { 0 } else { keys@[0]@.len() as int };
    let mut out: Vec<usize> = Vec::new();
    let mut i: usize = 0;
    let mut j: usize = 0;
    while i < a.len() || j < b.len()
        invariant
            kv == keys_view(keys@),
            keys_of_len(kv, l),
            lo <= mid <= hi <= keys@.len(),
            sorted_range(kv, a@, lo as int, mid as int),
            sorted_range(kv, b@, mid as int, hi as int),
            i <= a@.len(),
            j <= b@.len(),
            out@.len() == i + j,
            forall|k: int| 0 <= k < out@.len() ==> lo <= #[trigger] out@[k] < hi,
            rows_sorted(kv, out@),
            forall|k: int| 0 <= k < i ==> out@.contains(#[trigger] a@[k]),
            forall|k: int| 0 <= k < j ==> out@.contains(#[trigger] b@[k]),
            out@.len() > 0 && i < a@.len() ==> row_before(kv, out@.last(), a@[i as int]),
            out@.len() > 0 && j < b@.len() ==> row_before(kv, out@.last(), b@[j as int]),
        decreases a@.len() + b@.len() - i - j,
    {
        let take_a = if i == a.len() {
            false
        } else if j == b.len() {
            true
        } else {
            let x = a[i];
            let y = b[j];
            proof {
                lemma_row_before_total(kv, l, x, y);
                assert(kv[x as int] == keys@[x as int]@);
                assert(kv[y as int] == keys@[y as int]@);
            }
            let lt = key_less(&keys[x], &keys[y]);
            if lt {
                true
            } else {
                let gt = key_less(&keys[y], &keys[x]);
                if gt {
                    false
                } else {
                    proof {
                        lemma_lex_total(kv[x as int], kv[y as int]);
                    }
                    x < y
                }
            }
        };
        let ghost o0 = out@;
        if take_a {
            let x = a[i];
            proof {
                if j < b@.len() {
                    assert(row_before(kv, x, b@[j as int]));
                }
            }
            out.push(x);
            proof {
                assert forall|p: int, q: int| 0 <= p < q < out@.len() implies row_before(
                    kv,
                    #[trigger] out@[p],
                    #[trigger] out@[q],
                ) by {
                    if q == out@.len() - 1 && p < q {
                        if p < o0.len() - 1 {
                            lemma_row_before_transitive(kv, l, o0[p], o0.last(), x);
                        }
                    }
                }
                if i + 1 < a@.len() {
                    assert(row_before(kv, a@[i as int], a@[i + 1]));
                }
                assert forall|k: int| 0 <= k < i + 1 implies out@.contains(#[trigger] a@[k]) by {
                    if k < i {
                        assert(o0.contains(a@[k]));
                        let w = choose|w: int| 0 <= w < o0.len() && o0[w] == a@[k];
                        assert(out@[w] == a@[k]);
                    } else {
                        assert(out@[out@.len() - 1] == a@[k]);
                    }
                }
                assert forall|k: int| 0 <= k < j implies out@.contains(#[trigger] b@[k]) by {
                    assert(o0.contains(b@[k]));
                    let w = choose|w: int| 0 <= w < o0.len() && o0[w] == b@[k];
                    assert(out@[w] == b@[k]);
                }
            }
            i = i + 1;
        } else {
            let y = b[j];
            proof {
                if i < a@.len() {
                    lemma_row_before_total(kv, l, a@[i as int], y);
                    assert(row_before(kv, y, a@[i as int]));
                }
            }
            out.push(y);
            proof {
                assert forall|p: int, q: int| 0 <= p < q < out@.len() implies row_before(
                    kv,
                    #[trigger] out@[p],
                    #[trigger] out@[q],
                ) by {
                    if q == out@.len() - 1 && p < q {
                        if p < o0.len() - 1 {
                            lemma_row_before_transitive(kv, l, o0[p], o0.last(), y);
                        }
                    }
                }
                if j + 1 < b@.len() {
                    assert(row_before(kv, b@[j as int], b@[j + 1]));
                }
                assert forall|k: int| 0 <= k < i implies out@.contains(#[trigger] a@[k]) by {
                    assert(o0.contains(a@[k]));
                    let w = choose|w: int| 0 <= w < o0.len() && o0[w] == a@[k];
                    assert(out@[w] == a@[k]);
                }
                assert forall|k: int| 0 <= k < j + 1 implies out@.contains(#[trigger] b@[k]) by {
                    if k < j {
                        assert(o0.contains(b@[k]));
                        let w = choose|w: int| 0 <= w < o0.len() && o0[w] == b@[k];
                        assert(out@[w] == b@[k]);
                    } else {
                        assert(out@[out@.len() - 1] == b@[k]);
                    }
                }
            }
            j = j + 1;
        }
    }
    proof {
        assert forall|x: usize| lo <= x < hi implies #[trigger] out@.contains(x) by {
            if x < mid {
                assert(a@.contains(x));
                let w = choose|w: int| 0 <= w < a@.len() && a@[w] == x;
                assert(out@.contains(a@[w]));
            } else {
                assert(b@.contains(x));
                let w = choose|w: int| 0 <= w < b@.len() && b@[w] == x;
                assert(out@.contains(b@[w]));
            }
        }
    }
    out
}

fn sort_range(keys: &[Vec<u64>], lo: usize, hi: usize) -> (r: Vec<usize>)
    requires
        keys_of_len(keys_view(keys@), keys@[0]@.len() as int) || keys@.len() == 0,
        lo <= hi <= keys@.len(),
    ensures
        sorted_range(keys_view(keys@), r@, lo as int, hi as int),
    decreases hi - lo,
{
    if hi - lo <= 1 {
        let mut r: Vec<usize> = Vec::new();
        if hi - lo == 1 {
            r.push(lo);
            assert forall|x: usize| lo <= x < hi implies #[trigger] r@.contains(x) by {
                assert(r@[0] == x);
            }
        }
        return r;
    }
    let mid = lo + (hi - lo) / 2;
    let a = sort_range(keys, lo, mid);
    let b = sort_range(keys, mid, hi);
    merge_rows(keys, a, b, lo, mid, hi)
}

/// The rows stably sorted by key: every row index once, smaller keys
/// first, rows with equal keys in index order.
pub fn sort_rows(keys: &[Vec<u64>]) -> (r: Vec<usize>)
    requires
        keys_of_len(keys_view(keys@), keys@[0]@.len() as int) || keys@.len() == 0,
    ensures
        sorted_range(keys_view(keys@), r@, 0, keys@.len() as int),
{
    sort_range(keys, 0, keys.len())
}

/// Keys in strictly increasing lexicographic order.
pub open spec fn strictly_increasing(d: Seq<Seq<u64>>) -> bool {
    forall|i: int, j: int| 0 <= i < j < d.len() ==> lex_lt(#[trigger] d[i], #[trigger] d[j])
}

/// The distinct keys of `keys`, in increasing order: the keys that
/// occur, each once.
pub open spec fn distinct_keys_of(keys: Seq<Seq<u64>>, d: Seq<Seq<u64>>) -> bool {
    &&& strictly_increasing(d)
    &&& forall|k: int| 0 <= k < keys.len() ==> d.contains(#[trigger] keys[k])
    &&& forall|g: int| 0 <= g < d.len() ==> keys.contains(#[trigger] d[g])
}

fn clone_key(k: &Vec<u64>) -> (r: Vec<u64>)
    ensures
        r@ == k@,
{
    let mut r: Vec<u64> = Vec::new();
    let mut i: usize = 0;
    while i < k.len()
        invariant
            i <= k@.len(),
            r@ == k@.take(i as int),
        decreases k@.len() - i,
    {
        r.push(k[i]);
        i = i + 1;
        assert(r@ =~= k@.take(i as int));
    }
    assert(k@.take(i as int) =~= k@);
    r
}

fn same_key(a: &Vec<u64>, b: &Vec<u64>) -> (r: bool)
    ensures
        r == (a@ == b@),
{
    if a.len() != b.len() {
        return false;
    }
    let mut i: usize = 0;
    while i < a.len()
        invariant
            a@.len() == b@.len(),
            i <= a@.len(),
            forall|k: int| 0 <= k < i ==> a@[k] == b@[k],
        decreases a@.len() - i,
    {
        if a[i] != b[i] {
            return false;
        }
        i = i + 1;
    }
    assert(a@ =~= b@);
    true
}

/// The distinct keys, in increasing order.
pub fn distinct_keys(keys: &[Vec<u64>]) -> (d: Vec<Vec<u64>>)
    requires
        keys_of_len(keys_view(keys@), keys@[0]@.len() as int) || keys@.len() == 0,
    ensures
        distinct_keys_of(keys_view(keys@), keys_view(d@)),
        keys_of_len(keys_view(d@), keys@[0]@.len() as int) || keys@.len() == 0,
{
    let ghost kv = keys_view(keys@);
    let ghost l: int = if keys@.len() == 0 { 0 } else { keys@[0]@.len() as int };
    let order = sort_rows(keys);
    let n = order.len();
    let mut d: Vec<Vec<u64>> = Vec::new();
    let mut i: usize = 0;
    while i < n
        invariant
            kv == keys_view(keys@),
            keys_of_len(kv, l),
            n == keys@.len(),
            sorted_range(kv, order@, 0, n as int),
            i <= n,
            strictly_increasing(keys_view(d@)),
            keys_of_len(keys_view(d@), l),
            forall|k: int| 0 <= k < i ==> keys_view(d@).contains(#[trigger] kv[order@[k] as int]),
            forall|g: int| 0 <= g < d@.len() ==> kv.contains(#[trigger] keys_view(d@)[g]),
            i > 0 ==> d@.len() > 0 && keys_view(d@).last() == kv[order@[i - 1] as int],
            i == 0 ==> d@.len() == 0,
        decreases n - i,
    {
        let row = order[i];
        let ghost dv0 = keys_view(d@);
        let fresh = if i == 0 {
            true
        } else {
            !same_key(&keys[order[i - 1]], &keys[row])
        };
        if fresh {
            let k = clone_key(&keys[row]);
            d.push(k);
            proof {
                assert(keys_view(d@) =~= dv0.push(kv[row as int]));
                if i > 0 {
                    assert(row_before(kv, order@[i - 1], row));
                    assert(lex_lt(dv0.last(), kv[row as int]));
                    assert forall|p: int, q: int| 0 <= p < q < keys_view(d@).len() implies lex_lt(
                        #[trigger] keys_view(d@)[p],
                        #[trigger] keys_view(d@)[q],
                    ) by {
                        if q == dv0.len() && p < dv0.len() - 1 {
                            lemma_lex_transitive(dv0[p], dv0.last(), kv[row as int]);
                        }
                    }
                }
                assert(kv.contains(kv[row as int]));
                assert forall|k: int| 0 <= k < i + 1 implies keys_view(d@).contains(
                    #[trigger] kv[order@[k] as int],
                ) by {
                    if k < i {
                        let w = choose|w: int| 0 <= w < dv0.len() && dv0[w] == kv[order@[k] as int];
                        assert(keys_view(d@)[w] == kv[order@[k] as int]);
                    } else {
                        assert(keys_view(d@)[dv0.len() as int] == kv[order@[k] as int]);
                    }
                }
            }
        } else {
            proof {
                assert forall|k: int| 0 <= k < i + 1 implies keys_view(d@).contains(
                    #[trigger] kv[order@[k] as int],
                ) by {
                    if k == i {
                        assert(keys_view(d@)[keys_view(d@).len() - 1] == kv[order@[k] as int]);
                    }
                }
            }
        }
        i = i + 1;
    }
    proof {
        assert forall|k: int| 0 <= k < kv.len() implies keys_view(d@).contains(#[trigger] kv[k]) by {
            assert(order@.contains(k as usize));
            let w = choose|w: int| 0 <= w < order@.len() && order@[w] == k as usize;
            assert(keys_view(d@).contains(kv[order@[w] as int]));
        }
    }
    d
}

/// Position of `k` among the increasing keys `d`, which hold it.
pub fn find_key(d: &Vec<Vec<u64>>, k: &Vec<u64>) -> (g: usize)
    requires
        strictly_increasing(keys_view(d@)),
        keys_of_len(keys_view(d@), k@.len() as int),
        keys_view(d@).contains(k@),
    ensures
        g < d@.len(),
        d@[g as int]@ == k@,
{
    let ghost dv = keys_view(d@);
    let ghost w = choose|w: int| 0 <= w < dv.len() && dv[w] == k@;
    let mut lo: usize = 0;
    let mut hi: usize = d.len();
    while hi - lo > 1
        invariant
            dv == keys_view(d@),
            strictly_increasing(dv),
            keys_of_len(dv, k@.len() as int),
            0 <= w < dv.len(),
            dv[w] == k@,
            lo <= w < hi <= d@.len(),
        decreases hi - lo,
    {
        let mid = lo + (hi - lo) / 2;
        assert(dv[mid as int] == d@[mid as int]@);
        if key_less(k, &d[mid]) {
            proof {
                if w >= mid {
                    if w > mid {
                        lemma_lex_transitive(dv[w], dv[mid as int], dv[w]);
                    }
                    lemma_lex_total(dv[w], dv[w]);
                }
            }
            hi = mid;
        } else {
            proof {
                if w < mid {
                    lemma_lex_total(dv[w], dv[mid as int]);
                }
            }
            lo = mid;
        }
    }
    lo
}

/// Over the first `m` rows, those whose key is `k`: the sums of their
/// displacements (rows that have one), how many have one, and how many
/// there are.
pub open spec fn key_total(keys: Seq<Seq<u64>>, disps: Seq<Option<(i32, i32)>>, k: Seq<u64>, m: int) -> (
    int,
    int,
    int,
    int,
)
    decreases m,
{
    if m <= 0 {
        (0, 0, 0, 0)
    } else {
        let t = key_total(keys, disps, k, m - 1);
        if keys[m - 1] == k {
            match disps[m - 1] {
                Some(d) => (t.0 + d.0, t.1 + d.1, t.2 + 1, t.3 + 1),
                None => (t.0, t.1, t.2, t.3 + 1),
            }
        } else {
            t
        }
    }
}

/// What the rows of one key add up to.
pub struct KeyTotal {
    pub dx: i128,
    pub dy: i128,
    pub dn: usize,
    pub rows: usize,
}

/// The tuple a `KeyTotal` stands for.
pub open spec fn total_view(t: KeyTotal) -> (int, int, int, int) {
    (t.dx as int, t.dy as int, t.dn as int, t.rows as int)
}

proof fn lemma_key_total_bounds(keys: Seq<Seq<u64>>, disps: Seq<Option<(i32, i32)>>, k: Seq<u64>, m: int)
    requires
        0 <= m,
    ensures
        0 <= key_total(keys, disps, k, m).2 <= key_total(keys, disps, k, m).3 <= m,
        -key_total(keys, disps, k, m).3 * 0x8000_0000 <= key_total(keys, disps, k, m).0
            <= key_total(keys, disps, k, m).3 * 0x8000_0000,
        -key_total(keys, disps, k, m).3 * 0x8000_0000 <= key_total(keys, disps, k, m).1
            <= key_total(keys, disps, k, m).3 * 0x8000_0000,
    decreases m,
{
    if m > 0 {
        lemma_key_total_bounds(keys, disps, k, m - 1);
    }
}

proof fn lemma_lex_distinct(a: Seq<u64>, b: Seq<u64>)
    requires
        lex_lt(a, b),
    ensures
        a != b,
{
    if a == b {
        lemma_lex_total(a, a);
    }
}

/// The distinct keys in increasing order, and for each what its rows
/// add up to (see `key_total`).
pub fn key_totals(keys: &[Vec<u64>], disps: &[Option<(i32, i32)>]) -> (r: (Vec<Vec<u64>>, Vec<KeyTotal>))
    requires
        keys@.len() == disps@.len(),
        keys_of_len(keys_view(keys@), keys@[0]@.len() as int) || keys@.len() == 0,
    ensures
        distinct_keys_of(keys_view(keys@), keys_view(r.0@)),
        keys_of_len(keys_view(r.0@), keys@[0]@.len() as int) || keys@.len() == 0,
        r.1@.len() == r.0@.len(),
        forall|g: int|
            0 <= g < r.1@.len() ==> total_view(#[trigger] r.1@[g]) == key_total(
                keys_view(keys@),
                disps@,
                keys_view(r.0@)[g],
                keys@.len() as int,
            ),
{
    let ghost kv = keys_view(keys@);
    let ghost l: int = if keys@.len() == 0 { 0 } else { keys@[0]@.len() as int };
    let d = distinct_keys(keys);
    let ghost dv = keys_view(d@);
    let mut acc: Vec<KeyTotal> = Vec::new();
    let mut g: usize = 0;
    while g < d.len()
        invariant
            g <= d@.len(),
            acc@.len() == g,
            forall|q: int| 0 <= q < g ==> total_view(#[trigger] acc@[q]) == (0int, 0int, 0int, 0int),
        decreases d@.len() - g,
    {
        acc.push(KeyTotal { dx: 0, dy: 0, dn: 0, rows: 0 });
        g = g + 1;
    }
    let n = keys.len();
    let mut m: usize = 0;
    while m < n
        invariant
            n == keys@.len(),
            n == disps@.len(),
            kv == keys_view(keys@),
            dv == keys_view(d@),
            keys_of_len(kv, l),
            keys_of_len(dv, l),
            distinct_keys_of(kv, dv),
            m <= n,
            acc@.len() == d@.len(),
            forall|q: int| 0 <= q < acc@.len() ==> total_view(#[trigger] acc@[q]) == key_total(kv, disps@, dv[q], m as int),
        decreases n - m,
    {
        assert(kv[m as int] == keys@[m as int]@);
        assert(dv.contains(kv[m as int]));
        let g = find_key(&d, &keys[m]);
        proof {
            lemma_key_total_bounds(kv, disps@, dv[g as int], m as int);
        }
        let t = &acc[g];
        let nt = match disps[m] {
            Some(dd) => KeyTotal {
                dx: t.dx + dd.0 as i128,
                dy: t.dy + dd.1 as i128,
                dn: t.dn + 1,
                rows: t.rows + 1,
            },
            None => KeyTotal { dx: t.dx, dy: t.dy, dn: t.dn, rows: t.rows + 1 },
        };
        let ghost acc0 = acc@;
        acc.set(g, nt);
        proof {
            assert forall|q: int| 0 <= q < acc@.len() implies total_view(#[trigger] acc@[q]) == key_total(
                kv,
                disps@,
                dv[q],
                m + 1,
            ) by {
                if q != g {
                    assert(acc@[q] == acc0[q]);
                    if q < g {
                        lemma_lex_distinct(dv[q], dv[g as int]);
                    } else {
                        lemma_lex_distinct(dv[g as int], dv[q]);
                    }
                }
            }
        }
        m = m + 1;
    }
    (d, acc)
}

/// A key's rows number at least one exactly when some row has it.
proof fn lemma_key_total_rows(keys: Seq<Seq<u64>>, disps: Seq<Option<(i32, i32)>>, k: Seq<u64>, m: int)
    requires
        0 <= m <= keys.len(),
    ensures
        key_total(keys, disps, k, m).3 > 0 <==> exists|i: int| 0 <= i < m && #[trigger] keys[i] == k,
    decreases m,
{
    if m > 0 {
        lemma_key_total_rows(keys, disps, k, m - 1);
        lemma_key_total_bounds(keys, disps, k, m - 1);
        if keys[m - 1] == k {
            assert(0 <= m - 1 < m && keys[m - 1] == k);
        } else {
            if exists|i: int| 0 <= i < m && #[trigger] keys[i] == k {
                let i = choose|i: int| 0 <= i < m && #[trigger] keys[i] == k;
                assert(0 <= i < m - 1);
            }
            if exists|i: int| 0 <= i < m - 1 && #[trigger] keys[i] == k {
                let i = choose|i: int| 0 <= i < m - 1 && #[trigger] keys[i] == k;
                assert(0 <= i < m);
            }
        }
    }
}

/// One row of the field dataset: its context features, the shape id it
/// was drawn with, and its displacement from the previous cluster, when
/// recorded.
pub struct TrainRow {
    pub feats: [u32; 5],
    pub shape: usize,
    pub ddx: Option<i32>,
    pub ddy: Option<i32>,
}

/// A feature tuple as a sort key.
pub open spec fn feat_key(f: [u32; 5]) -> Seq<u64> {
    f@.map_values(|x: u32| x as u64)
}

/// A row's displacement, when both components were recorded.
pub open spec fn train_disp(r: TrainRow) -> Option<(i32, i32)> {
    match (r.ddx, r.ddy) {
        (Some(x), Some(y)) => Some((x, y)),
        _ => None,
    }
}

/// The feature keys of the rows.
pub open spec fn row_feat_keys(rows: Seq<TrainRow>) -> Seq<Seq<u64>> {
    rows.map_values(|r: TrainRow| feat_key(r.feats))
}

/// The (features, shape) keys of the rows.
pub open spec fn row_shape_keys(rows: Seq<TrainRow>) -> Seq<Seq<u64>> {
    rows.map_values(|r: TrainRow| feat_key(r.feats).push(r.shape as u64))
}

/// The displacements of the rows.
pub open spec fn row_disps(rows: Seq<TrainRow>) -> Seq<Option<(i32, i32)>> {
    rows.map_values(|r: TrainRow| train_disp(r))
}

/// How many rows have features `f` and shape `s`.
pub open spec fn shape_votes(rows: Seq<TrainRow>, f: Seq<u64>, s: usize) -> int {
    key_total(row_shape_keys(rows), row_disps(rows), f.push(s as u64), rows.len() as int).3
}

/// One distinct context of the field dataset: the modal shape of its
/// rows, whether its rows disagree on the shape, and the sums of their
/// recorded displacements with how many were recorded.
pub struct ContextStats {
    pub feats: [u32; 5],
    pub shape: usize,
    pub ambiguous: bool,
    pub dx_sum: i128,
    pub dy_sum: i128,
    pub dn: usize,
}

/// The feature keys of the contexts.
pub open spec fn context_keys(c: Seq<ContextStats>) -> Seq<Seq<u64>> {
    c.map_values(|x: ContextStats| feat_key(x.feats))
}

fn feat_key_of(f: &[u32; 5]) -> (r: Vec<u64>)
    ensures
        r@ == feat_key(*f),
{
    let mut r: Vec<u64> = Vec::new();
    let mut i: usize = 0;
    while i < 5
        invariant
            i <= 5,
            r@ == feat_key(*f).take(i as int),
        decreases 5 - i,
    {
        r.push(f[i] as u64);
        i = i + 1;
        assert(r@ =~= feat_key(*f).take(i as int));
    }
    assert(feat_key(*f).take(5) =~= feat_key(*f));
    r
}

fn key_prefix(k: &Vec<u64>, n: usize) -> (r: Vec<u64>)
    requires
        n <= k@.len(),
    ensures
        r@ == k@.take(n as int),
{
    let mut r: Vec<u64> = Vec::new();
    let mut i: usize = 0;
    while i < n
        invariant
            i <= n <= k@.len(),
            r@ == k@.take(i as int),
        decreases n - i,
    {
        r.push(k[i]);
        i = i + 1;
        assert(r@ =~= k@.take(i as int));
    }
    r
}


/// Keys that agree on their first `k` entries are ordered by the rest.
proof fn lemma_lex_suffix(a: Seq<u64>, b: Seq<u64>, k: int)
    requires
        0 <= k <= a.len(),
        k <= b.len(),
        a.take(k) == b.take(k),
        lex_lt(a, b),
    ensures
        lex_lt(a.skip(k), b.skip(k)),
    decreases k,
{
    if k > 0 {
        assert(a[0] == a.take(k)[0]);
        assert(b[0] == b.take(k)[0]);
        let (ta, tb) = (a.drop_first().take(k - 1), b.drop_first().take(k - 1));
        assert(ta =~= tb) by {
            assert forall|i: int| 0 <= i < k - 1 implies #[trigger] ta[i] == tb[i] by {
                assert(a.take(k)[i + 1] == a[i + 1]);
                assert(b.take(k)[i + 1] == b[i + 1]);
                assert(a.take(k)[i + 1] == b.take(k)[i + 1]);
                assert(a.drop_first()[i] == a[i + 1]);
                assert(b.drop_first()[i] == b[i + 1]);
                assert(ta[i] == a.drop_first()[i]);
                assert(tb[i] == b.drop_first()[i]);
            }
        }
        lemma_lex_suffix(a.drop_first(), b.drop_first(), k - 1);
        assert(a.drop_first().skip(k - 1) =~= a.skip(k));
        assert(b.drop_first().skip(k - 1) =~= b.skip(k));
    } else {
        assert(a.skip(0) =~= a);
        assert(b.skip(0) =~= b);
    }
}

/// Of two (features, shape) keys with the same features, the one that
/// sorts first has the smaller shape.
proof fn lemma_shape_order(a: Seq<u64>, b: Seq<u64>)
    requires
        a.len() == 6,
        b.len() == 6,
        a.take(5) == b.take(5),
        lex_lt(a, b),
    ensures
        a[5] < b[5],
{
    lemma_lex_suffix(a, b, 5);
    let (x, y) = (a.skip(5), b.skip(5));
    assert(x[0] == a[5]);
    assert(y[0] == b[5]);
    assert(x.len() == 1 && y.len() == 1);
    if x[0] == y[0] {
        assert(x.drop_first().len() == 0);
        assert(!lex_lt(x.drop_first(), y.drop_first()));
    }
}

/// `c` describes the rows of its feature tuple: the smallest of the
/// shapes with the most rows, whether another shape has rows too, and
/// the displacement sums.
pub open spec fn context_of(rows: Seq<TrainRow>, c: ContextStats) -> bool {
    let f = feat_key(c.feats);
    let kt = key_total(row_feat_keys(rows), row_disps(rows), f, rows.len() as int);
    &&& shape_votes(rows, f, c.shape) > 0
    &&& forall|s: usize| #[trigger] shape_votes(rows, f, s) <= shape_votes(rows, f, c.shape)
    &&& forall|s: usize| s < c.shape ==> #[trigger] shape_votes(rows, f, s) < shape_votes(rows, f, c.shape)
    &&& c.ambiguous == exists|s: usize| s != c.shape && #[trigger] shape_votes(rows, f, s) > 0
    &&& c.dx_sum as int == kt.0
    &&& c.dy_sum as int == kt.1
    &&& c.dn as int == kt.2
}

proof fn lemma_push_take(k: Seq<u64>)
    requires
        k.len() == 6,
    ensures
        k == k.take(5).push(k[5]),
{
    assert(k =~= k.take(5).push(k[5]));
}

/// Deduplicate the field dataset by feature tuple, in increasing tuple
/// order: each distinct tuple once, with its modal shape, whether its
/// shape is ambiguous, and its displacement sums (see `context_of`).
pub fn dedupe_rows(rows: &[TrainRow]) -> (r: Vec<ContextStats>)
    ensures
        distinct_keys_of(row_feat_keys(rows@), context_keys(r@)),
        forall|g: int| 0 <= g < r@.len() ==> context_of(rows@, #[trigger] r@[g]),
{
    let n = rows.len();
    let ghost fkv = row_feat_keys(rows@);
    let ghost skv = row_shape_keys(rows@);
    let ghost dsv = row_disps(rows@);
    let mut fk: Vec<Vec<u64>> = Vec::new();
    let mut sk: Vec<Vec<u64>> = Vec::new();
    let mut ds: Vec<Option<(i32, i32)>> = Vec::new();
    let mut i: usize = 0;
    while i < n
        invariant
            n == rows@.len(),
            i <= n,
            fkv == row_feat_keys(rows@),
            skv == row_shape_keys(rows@),
            dsv == row_disps(rows@),
            keys_view(fk@) == fkv.take(i as int),
            keys_view(sk@) == skv.take(i as int),
            ds@ == dsv.take(i as int),
        decreases n - i,
    {
        let row = &rows[i];
        let a = feat_key_of(&row.feats);
        let mut k = feat_key_of(&row.feats);
        k.push(row.shape as u64);
        let ghost fk0 = fk@;
        let ghost sk0 = sk@;
        proof {
            assert(a@ == fkv[i as int]);
            assert(k@ == skv[i as int]);
        }
        fk.push(a);
        sk.push(k);
        proof {
            assert(keys_view(fk@) =~= keys_view(fk0).push(fkv[i as int]));
            assert(keys_view(sk@) =~= keys_view(sk0).push(skv[i as int]));
            assert(fkv.take(i as int + 1) =~= fkv.take(i as int).push(fkv[i as int]));
            assert(skv.take(i as int + 1) =~= skv.take(i as int).push(skv[i as int]));
        }
        let d = match (row.ddx, row.ddy) {
            (Some(x), Some(y)) => Some((x, y)),
            _ => None,
        };
        ds.push(d);
        i = i + 1;
        assert(keys_view(fk@) =~= fkv.take(i as int));
        assert(keys_view(sk@) =~= skv.take(i as int));
        assert(ds@ =~= dsv.take(i as int));
    }
    assert(keys_view(fk@) =~= fkv);
    assert(keys_view(sk@) =~= skv);
    assert(ds@ =~= dsv);
    assert(keys_of_len(fkv, 5));
    assert(keys_of_len(skv, 6));
    proof {
        if n > 0 {
            assert(keys_view(fk@)[0] == fk@[0]@);
            assert(keys_view(sk@)[0] == sk@[0]@);
        }
    }
    let (d1, t1) = key_totals(&fk, &ds);
    let (d2, t2) = key_totals(&sk, &ds);
    let ghost dv1 = keys_view(d1@);
    let ghost dv2 = keys_view(d2@);
    let m1 = d1.len();
    let mut best_cnt: Vec<usize> = Vec::new();
    let mut best_shape: Vec<u64> = Vec::new();
    let mut seen: Vec<bool> = Vec::new();
    let mut amb: Vec<bool> = Vec::new();
    let mut g: usize = 0;
    while g < m1
        invariant
            g <= m1,
            best_cnt@.len() == g,
            best_shape@.len() == g,
            seen@.len() == g,
            amb@.len() == g,
            forall|q: int| 0 <= q < g ==> #[trigger] best_cnt@[q] == 0 && !seen@[q] && !amb@[q],
        decreases m1 - g,
    {
        best_cnt.push(0);
        best_shape.push(0);
        seen.push(false);
        amb.push(false);
        g = g + 1;
    }
    proof {
        assert forall|q: int| 0 <= q < m1 implies !(#[trigger] seen@[q]) && !amb@[q] && best_cnt@[q] == 0 by {
            assert(best_cnt@[q] == 0);
        }
        assert forall|q: int| 0 <= q < m1 implies !(#[trigger] amb@[q]) by {
            assert(best_cnt@[q] == 0);
        }
    }
    let mut h: usize = 0;
    while h < d2.len()
        invariant
            n == rows@.len(),
            fkv == row_feat_keys(rows@),
            skv == row_shape_keys(rows@),
            dsv == row_disps(rows@),
            keys_of_len(fkv, 5),
            keys_of_len(skv, 6),
            dv1 == keys_view(d1@),
            dv2 == keys_view(d2@),
            distinct_keys_of(fkv, dv1),
            distinct_keys_of(skv, dv2),
            keys_of_len(dv1, 5),
            keys_of_len(dv2, 6),
            m1 == d1@.len(),
            t2@.len() == d2@.len(),
            forall|q: int| 0 <= q < t2@.len() ==> total_view(#[trigger] t2@[q]) == key_total(skv, dsv, dv2[q], n as int),
            h <= d2@.len(),
            best_cnt@.len() == m1,
            best_shape@.len() == m1,
            seen@.len() == m1,
            amb@.len() == m1,
            forall|hh: int, q: int|
                0 <= hh < h && 0 <= q < m1 && dv1[q] == (#[trigger] dv2[hh]).take(5) ==> #[trigger] best_cnt@[q]
                    >= t2@[hh].rows,
            forall|q: int|
                0 <= q < m1 && #[trigger] best_cnt@[q] > 0 ==> (exists|hb: int| 0 <= hb < h && dv2[hb] == dv1[q].push(best_shape@[q]))
                    && best_cnt@[q] == key_total(skv, dsv, dv1[q].push(best_shape@[q]), n as int).3,
            forall|hh: int, q: int|
                0 <= hh < h && 0 <= q < m1 && dv1[q] == (#[trigger] dv2[hh]).take(5) && dv2[hh][5] < best_shape@[q]
                    ==> #[trigger] best_cnt@[q] > t2@[hh].rows,
            forall|q: int|
                0 <= q < m1 ==> (#[trigger] seen@[q] <==> exists|hh: int| 0 <= hh < h && dv1[q] == (#[trigger] dv2[hh]).take(5)),
            forall|q: int|
                0 <= q < m1 ==> (#[trigger] amb@[q] <==> exists|h1: int, h2: int|
                    0 <= h1 < h2 < h && dv1[q] == (#[trigger] dv2[h1]).take(5) && dv1[q] == (#[trigger] dv2[h2]).take(5)),
        decreases d2@.len() - h,
    {
        proof {
            assert(dv2[h as int] == d2@[h as int]@);
        }
        let pre = key_prefix(&d2[h], 5);
        proof {
            assert(skv.contains(dv2[h as int]));
            let i0 = choose|i0: int| 0 <= i0 < skv.len() && skv[i0] == dv2[h as int];
            assert(skv[i0].take(5) =~= fkv[i0]);
            assert(dv1.contains(fkv[i0]));
        }
        let q = find_key(&d1, &pre);
        let c = t2[h].rows;
        proof {
            assert(skv.contains(dv2[h as int]));
            let i0 = choose|i0: int| 0 <= i0 < skv.len() && skv[i0] == dv2[h as int];
            lemma_key_total_rows(skv, dsv, dv2[h as int], n as int);
            assert(c > 0);
        }
        let ghost bc0 = best_cnt@;
        let ghost bs0 = best_shape@;
        let ghost sn0 = seen@;
        let ghost am0 = amb@;
        let ghost upd = c > best_cnt[q as int];
        if c > best_cnt[q] {
            best_cnt.set(q, c);
            best_shape.set(q, d2[h][5]);
            proof {
                lemma_push_take(dv2[h as int]);
                assert(dv1[q as int].push(best_shape@[q as int]) == dv2[h as int]);
            }
        }
        proof {
            lemma_push_take(dv2[h as int]);
            assert forall|qq: int| 0 <= qq < m1 && #[trigger] best_cnt@[qq] > 0 implies (exists|hb: int|
                0 <= hb < h + 1 && dv2[hb] == dv1[qq].push(best_shape@[qq])) by {
                if qq == q && upd {
                    assert(dv2[h as int] == dv1[qq].push(best_shape@[qq]));
                } else {
                    assert(bc0[qq] > 0);
                    let hb = choose|hb: int| 0 <= hb < h && dv2[hb] == dv1[qq].push(bs0[qq]);
                    assert(0 <= hb < h + 1);
                }
            }
            assert forall|hh: int, qq: int|
                0 <= hh < h + 1 && 0 <= qq < m1 && dv1[qq] == (#[trigger] dv2[hh]).take(5) && dv2[hh][5]
                    < best_shape@[qq] implies #[trigger] best_cnt@[qq] > t2@[hh].rows by {
                if qq == q {
                    if upd {
                        if hh < h {
                            lemma_push_take(dv2[hh]);
                            assert(bc0[qq] >= t2@[hh].rows);
                        }
                    } else {
                        if hh == h {
                            assert(bc0[qq] > 0);
                            let hb = choose|hb: int| 0 <= hb < h && dv2[hb] == dv1[qq].push(bs0[qq]);
                            assert(dv2[hb].take(5) =~= dv1[qq]);
                            lemma_shape_order(dv2[hb], dv2[h as int]);
                            assert(dv2[hb][5] == bs0[qq]);
                        } else {
                            assert(bc0[qq] > t2@[hh].rows);
                        }
                    }
                } else {
                    if hh == h {
                        assert(dv1[qq] == dv1[q as int]);
                        if qq < q {
                            lemma_lex_distinct(dv1[qq], dv1[q as int]);
                        } else {
                            lemma_lex_distinct(dv1[q as int], dv1[qq]);
                        }
                    }
                }
            }
        }
        if seen[q] {
            amb.set(q, true);
        }
        seen.set(q, true);
        proof {
            assert forall|hh: int, qq: int|
                0 <= hh < h + 1 && 0 <= qq < m1 && dv1[qq] == (#[trigger] dv2[hh]).take(5) implies #[trigger] best_cnt@[qq]
                >= t2@[hh].rows by {
                if hh < h {
                    assert(bc0[qq] >= t2@[hh].rows);
                } else if qq != q {
                    assert(dv1[qq] == dv1[q as int]);
                    if qq < q {
                        lemma_lex_distinct(dv1[qq], dv1[q as int]);
                    } else {
                        lemma_lex_distinct(dv1[q as int], dv1[qq]);
                    }
                }
            }
            assert forall|qq: int| 0 <= qq < m1 implies (#[trigger] seen@[qq] <==> exists|hh: int|
                0 <= hh < h + 1 && dv1[qq] == (#[trigger] dv2[hh]).take(5)) by {
                if qq == q {
                    assert(dv1[qq] == dv2[h as int].take(5));
                } else {
                    if exists|hh: int| 0 <= hh < h + 1 && dv1[qq] == (#[trigger] dv2[hh]).take(5) {
                        let hh = choose|hh: int| 0 <= hh < h + 1 && dv1[qq] == (#[trigger] dv2[hh]).take(5);
                        if hh == h {
                            if qq < q {
                                lemma_lex_distinct(dv1[qq], dv1[q as int]);
                            } else {
                                lemma_lex_distinct(dv1[q as int], dv1[qq]);
                            }
                        }
                        assert(0 <= hh < h);
                    }
                }
            }
            assert forall|qq: int| 0 <= qq < m1 implies (#[trigger] amb@[qq] <==> exists|h1: int, h2: int|
                0 <= h1 < h2 < h + 1 && dv1[qq] == (#[trigger] dv2[h1]).take(5) && dv1[qq] == (#[trigger] dv2[h2]).take(5)) by {
                if exists|h1: int, h2: int|
                    0 <= h1 < h2 < h + 1 && dv1[qq] == (#[trigger] dv2[h1]).take(5) && dv1[qq] == (#[trigger] dv2[h2]).take(5) {
                    let (h1, h2) = choose|h1: int, h2: int|
                        0 <= h1 < h2 < h + 1 && dv1[qq] == (#[trigger] dv2[h1]).take(5) && dv1[qq] == (#[trigger] dv2[h2]).take(5);
                    if h2 == h {
                        if qq != q {
                            if qq < q {
                                lemma_lex_distinct(dv1[qq], dv1[q as int]);
                            } else {
                                lemma_lex_distinct(dv1[q as int], dv1[qq]);
                            }
                        }
                        assert(sn0[qq]);
                    } else {
                        assert(am0[qq]);
                    }
                }
                if qq == q && sn0[qq] {
                    let h1 = choose|hh: int| 0 <= hh < h && dv1[qq] == (#[trigger] dv2[hh]).take(5);
                    assert(0 <= h1 < h < h + 1 && dv1[qq] == dv2[h1].take(5) && dv1[qq] == dv2[h as int].take(5));
                }
                if am0[qq] {
                    let (h1, h2) = choose|h1: int, h2: int|
                        0 <= h1 < h2 < h && dv1[qq] == (#[trigger] dv2[h1]).take(5) && dv1[qq] == (#[trigger] dv2[h2]).take(5);
                    assert(0 <= h1 < h2 < h + 1);
                }
            }
        }
        h = h + 1;
    }
    let mut out: Vec<ContextStats> = Vec::new();
    let mut g: usize = 0;
    while g < m1
        invariant
            n == rows@.len(),
            fkv == row_feat_keys(rows@),
            skv == row_shape_keys(rows@),
            dsv == row_disps(rows@),
            keys_of_len(fkv, 5),
            keys_of_len(skv, 6),
            dv1 == keys_view(d1@),
            dv2 == keys_view(d2@),
            distinct_keys_of(fkv, dv1),
            distinct_keys_of(skv, dv2),
            keys_of_len(dv1, 5),
            keys_of_len(dv2, 6),
            m1 == d1@.len(),
            t1@.len() == m1,
            forall|q: int| 0 <= q < t1@.len() ==> total_view(#[trigger] t1@[q]) == key_total(fkv, dsv, dv1[q], n as int),
            t2@.len() == d2@.len(),
            forall|q: int| 0 <= q < t2@.len() ==> total_view(#[trigger] t2@[q]) == key_total(skv, dsv, dv2[q], n as int),
            best_cnt@.len() == m1,
            best_shape@.len() == m1,
            amb@.len() == m1,
            forall|hh: int, q: int|
                0 <= hh < d2@.len() && 0 <= q < m1 && dv1[q] == (#[trigger] dv2[hh]).take(5) ==> #[trigger] best_cnt@[q]
                    >= t2@[hh].rows,
            forall|q: int|
                0 <= q < m1 && #[trigger] best_cnt@[q] > 0 ==> (exists|hb: int| 0 <= hb < d2@.len() && dv2[hb] == dv1[q].push(best_shape@[q]))
                    && best_cnt@[q] == key_total(skv, dsv, dv1[q].push(best_shape@[q]), n as int).3,
            forall|hh: int, q: int|
                0 <= hh < d2@.len() && 0 <= q < m1 && dv1[q] == (#[trigger] dv2[hh]).take(5) && dv2[hh][5] < best_shape@[q]
                    ==> #[trigger] best_cnt@[q] > t2@[hh].rows,
            forall|q: int|
                0 <= q < m1 ==> (#[trigger] amb@[q] <==> exists|h1: int, h2: int|
                    0 <= h1 < h2 < d2@.len() && dv1[q] == (#[trigger] dv2[h1]).take(5) && dv1[q] == (#[trigger] dv2[h2]).take(5)),
            g <= m1,
            out@.len() == g,
            context_keys(out@) == dv1.take(g as int),
            forall|q: int| 0 <= q < g ==> context_of(rows@, #[trigger] out@[q]),
        decreases m1 - g,
    {
        let key = &d1[g];
        let ghost f = dv1[g as int];
        proof {
            assert(dv1[g as int] == d1@[g as int]@);
            assert(fkv.contains(f));
        }
        let ghost i0 = choose|i0: int| 0 <= i0 < fkv.len() && fkv[i0] == f;
        let feats: [u32; 5] = [key[0] as u32, key[1] as u32, key[2] as u32, key[3] as u32, key[4] as u32];
        proof {
            assert(f == feat_key(rows@[i0].feats));
            assert(feat_key(feats) =~= f);
            // the row's (features, shape) key is among the distinct ones
            assert(skv.contains(skv[i0]));
            assert(dv2.contains(skv[i0]));
            let h0 = choose|h0: int| 0 <= h0 < dv2.len() && dv2[h0] == skv[i0];
            assert(skv[i0].take(5) =~= f);
            lemma_key_total_rows(skv, dsv, skv[i0], n as int);
            assert(best_cnt@[g as int] >= t2@[h0].rows);
        }
        let bs = best_shape[g];
        let ghost sk_b = f.push(bs);
        proof {
            assert(dv2.contains(sk_b));
            let hb = choose|hb: int| 0 <= hb < dv2.len() && dv2[hb] == sk_b;
            assert(skv.contains(dv2[hb]));
            let ib = choose|ib: int| 0 <= ib < skv.len() && skv[ib] == dv2[hb];
            assert(skv[ib][5] == rows@[ib].shape as u64);
            assert(sk_b[5] == bs);
        }
        let shape = bs as usize;
        let t = &t1[g];
        let c = ContextStats { feats, shape, ambiguous: amb[g], dx_sum: t.dx, dy_sum: t.dy, dn: t.dn };
        proof {
            assert(sk_b == f.push(shape as u64));
            assert(shape_votes(rows@, f, shape) == best_cnt@[g as int]);
            assert forall|s: usize| #[trigger] shape_votes(rows@, f, s) <= shape_votes(rows@, f, shape) by {
                lemma_key_total_rows(skv, dsv, f.push(s as u64), n as int);
                if shape_votes(rows@, f, s) > 0 {
                    let i1 = choose|i1: int| 0 <= i1 < n && #[trigger] skv[i1] == f.push(s as u64);
                    assert(dv2.contains(skv[i1]));
                    let h1 = choose|h1: int| 0 <= h1 < dv2.len() && dv2[h1] == skv[i1];
                    assert(dv2[h1].take(5) =~= f);
                    assert(best_cnt@[g as int] >= t2@[h1].rows);
                }
            }
            assert forall|s: usize| s < shape implies #[trigger] shape_votes(rows@, f, s) < shape_votes(rows@, f, shape) by {
                lemma_key_total_rows(skv, dsv, f.push(s as u64), n as int);
                if shape_votes(rows@, f, s) > 0 {
                    let i1 = choose|i1: int| 0 <= i1 < n && #[trigger] skv[i1] == f.push(s as u64);
                    assert(dv2.contains(skv[i1]));
                    let h1 = choose|h1: int| 0 <= h1 < dv2.len() && dv2[h1] == skv[i1];
                    assert(dv2[h1].take(5) =~= f);
                    assert(dv2[h1][5] == s as u64);
                    assert(best_cnt@[g as int] > t2@[h1].rows);
                }
            }
            let hb = choose|hb: int| 0 <= hb < dv2.len() && dv2[hb] == sk_b;
            assert(dv2[hb].take(5) =~= f);
            if amb@[g as int] {
                let (h1, h2) = choose|h1: int, h2: int|
                    0 <= h1 < h2 < dv2.len() && f == (#[trigger] dv2[h1]).take(5) && f == (#[trigger] dv2[h2]).take(5);
                lemma_lex_distinct(dv2[h1], dv2[h2]);
                lemma_push_take(dv2[h1]);
                lemma_push_take(dv2[h2]);
                assert(dv2[h1][5] != dv2[h2][5]);
                let hx = if dv2[h1][5] != bs { h1 } else { h2 };
                assert(skv.contains(dv2[hx]));
                let ix = choose|ix: int| 0 <= ix < skv.len() && skv[ix] == dv2[hx];
                let sx = rows@[ix].shape;
                assert(dv2[hx] == f.push(sx as u64));
                lemma_key_total_rows(skv, dsv, f.push(sx as u64), n as int);
                assert(sx != shape && shape_votes(rows@, f, sx) > 0);
            }
            if exists|s: usize| s != shape && #[trigger] shape_votes(rows@, f, s) > 0 {
                let s = choose|s: usize| s != shape && #[trigger] shape_votes(rows@, f, s) > 0;
                lemma_key_total_rows(skv, dsv, f.push(s as u64), n as int);
                let i1 = choose|i1: int| 0 <= i1 < n && #[trigger] skv[i1] == f.push(s as u64);
                assert(dv2.contains(skv[i1]));
                let hs = choose|hs: int| 0 <= hs < dv2.len() && dv2[hs] == skv[i1];
                assert(dv2[hs].take(5) =~= f);
                assert(dv2[hs][5] != dv2[hb][5]);
                if hs < hb {
                    assert(0 <= hs < hb < dv2.len() && f == dv2[hs].take(5) && f == dv2[hb].take(5));
                } else {
                    assert(0 <= hb < hs < dv2.len() && f == dv2[hb].take(5) && f == dv2[hs].take(5));
                }
            }
        }
        proof {
            let f2 = feat_key(c.feats);
            assert(f2 == f);
            let kt = key_total(fkv, dsv, f, n as int);
            assert(total_view(t1@[g as int]) == kt);
            assert(c.dx_sum as int == kt.0);
            assert(shape_votes(rows@, f, c.shape) > 0);
            assert(c.ambiguous == exists|s: usize| s != c.shape && #[trigger] shape_votes(rows@, f, s) > 0);
            assert(context_of(rows@, c));
        }
        out.push(c);
        proof {
            assert(context_keys(out@) =~= dv1.take(g as int + 1));
        }
        g = g + 1;
    }
    proof {
        assert(context_keys(out@) =~= dv1);
    }
    out
}

/// One cluster record of an extraction, as the vector export reads it:
/// its context features, its displacement from the previous cluster
/// when it has one, and its absolute origin.
pub struct ContextRec {
    pub feats: [u32; 5],
    pub ddx: Option<i32>,
    pub ddy: Option<i32>,
    pub ox: i32,
    pub oy: i32,
}

/// The displacement a record contributes to the table: from the
/// previous cluster when recorded, else (a word's first cluster) the
/// absolute origin.
pub open spec fn table_disp(r: ContextRec) -> Option<(i32, i32)> {
    match (r.ddx, r.ddy) {
        (Some(x), Some(y)) => Some((x, y)),
        _ => Some((r.ox, r.oy)),
    }
}

/// The feature keys of the records.
pub open spec fn rec_keys(recs: Seq<ContextRec>) -> Seq<Seq<u64>> {
    recs.map_values(|r: ContextRec| feat_key(r.feats))
}

/// The displacements of the records.
pub open spec fn rec_disps(recs: Seq<ContextRec>) -> Seq<Option<(i32, i32)>> {
    recs.map_values(|r: ContextRec| table_disp(r))
}

/// One row of the displacement table: a context, the sums of its
/// records' displacements, and how many records it has.
pub struct DispEntry {
    pub feats: [u32; 5],
    pub dx_sum: i128,
    pub dy_sum: i128,
    pub n: usize,
}

/// The feature keys of table rows.
pub open spec fn entry_keys(e: Seq<DispEntry>) -> Seq<Seq<u64>> {
    e.map_values(|x: DispEntry| feat_key(x.feats))
}

/// The displacement table of an extraction: one row per distinct
/// context, in increasing order, with its displacement sums and record
/// count (the mean is the sum over the count).
pub fn disp_table(recs: &[ContextRec]) -> (r: Vec<DispEntry>)
    ensures
        distinct_keys_of(rec_keys(recs@), entry_keys(r@)),
        forall|g: int|
            0 <= g < r@.len() ==> {
                let t = key_total(rec_keys(recs@), rec_disps(recs@), feat_key((#[trigger] r@[g]).feats), recs@.len() as int);
                &&& r@[g].dx_sum as int == t.0
                &&& r@[g].dy_sum as int == t.1
                &&& r@[g].n as int == t.2
                &&& t.2 == t.3
            },
{
    let n = recs.len();
    let ghost kv = rec_keys(recs@);
    let ghost dsv = rec_disps(recs@);
    let mut keys: Vec<Vec<u64>> = Vec::new();
    let mut ds: Vec<Option<(i32, i32)>> = Vec::new();
    let mut i: usize = 0;
    while i < n
        invariant
            n == recs@.len(),
            i <= n,
            kv == rec_keys(recs@),
            dsv == rec_disps(recs@),
            keys_view(keys@) == kv.take(i as int),
            ds@ == dsv.take(i as int),
        decreases n - i,
    {
        let rec = &recs[i];
        let k = feat_key_of(&rec.feats);
        let ghost k0 = keys@;
        keys.push(k);
        let d = match (rec.ddx, rec.ddy) {
            (Some(x), Some(y)) => Some((x, y)),
            _ => Some((rec.ox, rec.oy)),
        };
        ds.push(d);
        i = i + 1;
        assert(keys_view(keys@) =~= keys_view(k0).push(kv[i - 1]));
        assert(kv.take(i as int) =~= kv.take(i - 1).push(kv[i - 1]));
        assert(ds@ =~= dsv.take(i as int));
    }
    assert(keys_view(keys@) =~= kv);
    assert(ds@ =~= dsv);
    proof {
        if n > 0 {
            assert(keys_view(keys@)[0] == keys@[0]@);
        }
    }
    let (d, t) = key_totals(&keys, &ds);
    let ghost dv = keys_view(d@);
    let mut out: Vec<DispEntry> = Vec::new();
    let mut g: usize = 0;
    while g < d.len()
        invariant
            n == recs@.len(),
            kv == rec_keys(recs@),
            dsv == rec_disps(recs@),
            dv == keys_view(d@),
            distinct_keys_of(kv, dv),
            t@.len() == d@.len(),
            forall|q: int| 0 <= q < t@.len() ==> total_view(#[trigger] t@[q]) == key_total(kv, dsv, dv[q], n as int),
            g <= d@.len(),
            out@.len() == g,
            entry_keys(out@) == dv.take(g as int),
            forall|q: int|
                0 <= q < g ==> {
                    let tt = key_total(kv, dsv, feat_key((#[trigger] out@[q]).feats), n as int);
                    &&& out@[q].dx_sum as int == tt.0
                    &&& out@[q].dy_sum as int == tt.1
                    &&& out@[q].n as int == tt.2
                    &&& tt.2 == tt.3
                },
        decreases d@.len() - g,
    {
        let key = &d[g];
        let ghost f = dv[g as int];
        proof {
            assert(dv[g as int] == d@[g as int]@);
            assert(kv.contains(f));
        }
        let ghost i0 = choose|i0: int| 0 <= i0 < kv.len() && kv[i0] == f;
        let feats: [u32; 5] = [key[0] as u32, key[1] as u32, key[2] as u32, key[3] as u32, key[4] as u32];
        proof {
            assert(f == feat_key(recs@[i0].feats));
            assert(feat_key(feats) =~= f);
            lemma_all_disps(kv, dsv, f, n as int);
        }
        let e = DispEntry { feats, dx_sum: t[g].dx, dy_sum: t[g].dy, n: t[g].dn };
        out.push(e);
        proof {
            assert(entry_keys(out@) =~= dv.take(g as int + 1));
        }
        g = g + 1;
    }
    proof {
        assert(entry_keys(out@) =~= dv);
    }
    out
}

proof fn lemma_all_disps(keys: Seq<Seq<u64>>, disps: Seq<Option<(i32, i32)>>, k: Seq<u64>, m: int)
    requires
        0 <= m <= disps.len(),
        forall|i: int| 0 <= i < disps.len() ==> (#[trigger] disps[i]) is Some,
    ensures
        key_total(keys, disps, k, m).2 == key_total(keys, disps, k, m).3,
    decreases m,
{
    if m > 0 {
        lemma_all_disps(keys, disps, k, m - 1);
        assert(disps[m - 1] is Some);
    }
}

} // verus!
