//! The distillation corpus and training batches.
use vstd::prelude::*;

use crate::text::push_char;

verus! {

/// Number of Arabic letters the corpus is built from.
pub const N_LETTERS: usize = 31;

/// The Arabic letters the corpus is built from.
pub open spec fn spec_letters() -> Seq<char> {
    seq![
        'ا', 'ب', 'ت', 'ث', 'ج', 'ح', 'خ', 'د', 'ذ', 'ر', 'ز', 'س', 'ش', 'ص', 'ض', 'ط', 'ظ',
        'ع', 'غ', 'ف', 'ق', 'ك', 'ل', 'م', 'ن', 'ه', 'ة', 'و', 'ي', 'ى', 'ء',
    ]
}

/// The Arabic letters the corpus is built from.
pub fn letters() -> (r: Vec<char>)
    ensures
        r@ == spec_letters(),
{
    let r = vec![
        'ا', 'ب', 'ت', 'ث', 'ج', 'ح', 'خ', 'د', 'ذ', 'ر', 'ز', 'س', 'ش', 'ص', 'ض', 'ط', 'ظ',
        'ع', 'غ', 'ف', 'ق', 'ك', 'ل', 'م', 'ن', 'ه', 'ة', 'و', 'ي', 'ى', 'ء',
    ];
    assert(r@ =~= spec_letters());
    r
}

/// The corpus: every single letter, every ordered pair, every ordered
/// triple, in that order and lexicographic within each group.
pub open spec fn spec_corpus() -> Seq<Seq<char>> {
    let l = spec_letters();
    let n = N_LETTERS as int;
    Seq::new(n as nat, |a: int| seq![l[a]]) + Seq::new((n * n) as nat, |k: int| seq![l[k / n], l[k % n]])
        + Seq::new((n * n * n) as nat, |k: int| seq![l[k / (n * n)], l[(k / n) % n], l[k % n]])
}

proof fn lemma_pair_index(a: int, b: int)
    requires
        0 <= a < 31,
        0 <= b < 31,
    ensures
        (a * 31 + b) / 31 == a,
        (a * 31 + b) % 31 == b,
{
    vstd::arithmetic::div_mod::lemma_fundamental_div_mod_converse(a * 31 + b, 31, a, b);
}

proof fn lemma_triple_index(a: int, b: int, c: int)
    requires
        0 <= a < 31,
        0 <= b < 31,
        0 <= c < 31,
    ensures
        (a * 961 + b * 31 + c) / 961 == a,
        ((a * 961 + b * 31 + c) / 31) % 31 == b,
        (a * 961 + b * 31 + c) % 31 == c,
{
    let k = a * 961 + b * 31 + c;
    vstd::arithmetic::div_mod::lemma_fundamental_div_mod_converse(k, 961, a, b * 31 + c);
    vstd::arithmetic::div_mod::lemma_fundamental_div_mod_converse(k, 31, a * 31 + b, c);
    lemma_pair_index(a, b);
}

fn word(cs: &[char]) -> (r: String)
    ensures
        r@ == cs@,
{
    crate::text::string_of(cs)
}

/// Corpus: every single letter, every ordered pair, every ordered
/// triple. Triples are what capture medial forms in their full
/// (previous, next) context.
pub fn corpus() -> (r: Vec<String>)
    ensures
        r@.len() == spec_corpus().len(),
        forall|k: int| 0 <= k < r@.len() ==> #[trigger] r@[k]@ == spec_corpus()[k],
{
    let l = letters();
    let ghost want = spec_corpus();
    assert(want.len() == 31 + 961 + 29791);
    let mut words: Vec<String> = Vec::new();
    let mut a: usize = 0;
    while a < N_LETTERS
        invariant
            l@ == spec_letters(),
            want == spec_corpus(),
            a <= 31,
            words@.len() == a,
            forall|k: int| 0 <= k < words@.len() ==> #[trigger] words@[k]@ == want[k],
        decreases 31 - a,
    {
        words.push(word(&[l[a]]));
        a = a + 1;
    }
    let mut a: usize = 0;
    while a < N_LETTERS
        invariant
            l@ == spec_letters(),
            want == spec_corpus(),
            a <= 31,
            words@.len() == 31 + a * 31,
            forall|k: int| 0 <= k < words@.len() ==> #[trigger] words@[k]@ == want[k],
        decreases 31 - a,
    {
        let mut b: usize = 0;
        while b < N_LETTERS
            invariant
                l@ == spec_letters(),
                want == spec_corpus(),
                a < 31,
                b <= 31,
                words@.len() == 31 + a * 31 + b,
                forall|k: int| 0 <= k < words@.len() ==> #[trigger] words@[k]@ == want[k],
            decreases 31 - b,
        {
            proof {
                lemma_pair_index(a as int, b as int);
            }
            words.push(word(&[l[a], l[b]]));
            b = b + 1;
        }
        a = a + 1;
    }
    let mut a: usize = 0;
    while a < N_LETTERS
        invariant
            l@ == spec_letters(),
            want == spec_corpus(),
            a <= 31,
            words@.len() == 992 + a * 961,
            forall|k: int| 0 <= k < words@.len() ==> #[trigger] words@[k]@ == want[k],
        decreases 31 - a,
    {
        let mut b: usize = 0;
        while b < N_LETTERS
            invariant
                l@ == spec_letters(),
                want == spec_corpus(),
                a < 31,
                b <= 31,
                words@.len() == 992 + a * 961 + b * 31,
                forall|k: int| 0 <= k < words@.len() ==> #[trigger] words@[k]@ == want[k],
            decreases 31 - b,
        {
            let mut c: usize = 0;
            while c < N_LETTERS
                invariant
                    l@ == spec_letters(),
                    want == spec_corpus(),
                    a < 31,
                    b < 31,
                    c <= 31,
                    words@.len() == 992 + a * 961 + b * 31 + c,
                    forall|k: int| 0 <= k < words@.len() ==> #[trigger] words@[k]@ == want[k],
                decreases 31 - c,
            {
                proof {
                    lemma_triple_index(a as int, b as int, c as int);
                }
                words.push(word(&[l[a], l[b], l[c]]));
                c = c + 1;
            }
            b = b + 1;
        }
        a = a + 1;
    }
    words
}

/// Consecutive chunks of `bs` items, the last one shorter when `bs`
/// does not divide the length.
pub open spec fn spec_chunks(s: Seq<usize>, bs: nat) -> Seq<Seq<usize>>
    decreases s.len(),
{
    if s.len() == 0 || bs == 0 {
        seq![]
    } else if s.len() <= bs {
        seq![s]
    } else {
        seq![s.take(bs as int)] + spec_chunks(s.skip(bs as int), bs)
    }
}

/// The value of a batch list.
pub open spec fn batches_view(v: Seq<Vec<usize>>) -> Seq<Seq<usize>> {
    v.map_values(|b: Vec<usize>| b@)
}

/// Split a (sorted, shuffled) order of row indices into batches of
/// `bs` rows.
pub fn batches(order: &[usize], bs: usize) -> (r: Vec<Vec<usize>>)
    requires
        bs > 0,
    ensures
        batches_view(r@) == spec_chunks(order@, bs as nat),
{
    let n = order.len();
    let mut out: Vec<Vec<usize>> = Vec::new();
    let mut start: usize = 0;
    assert(order@.skip(0) =~= order@);
    while start < n
        invariant
            n == order@.len(),
            bs > 0,
            start <= n,
            spec_chunks(order@, bs as nat) == batches_view(out@) + spec_chunks(
                order@.skip(start as int),
                bs as nat,
            ),
        decreases n - start,
    {
        let ghost rest = order@.skip(start as int);
        let end = if n - start <= bs {
            n
        } else {
            start + bs
        };
        let mut chunk: Vec<usize> = Vec::new();
        let mut i = start;
        while i < end
            invariant
                n == order@.len(),
                start <= i <= end <= n,
                chunk@ == order@.subrange(start as int, i as int),
            decreases end - i,
        {
            chunk.push(order[i]);
            i = i + 1;
            assert(chunk@ =~= order@.subrange(start as int, i as int));
        }
        let ghost before = batches_view(out@);
        out.push(chunk);
        assert(batches_view(out@) =~= before + seq![order@.subrange(start as int, end as int)]);
        if end == n {
            assert(rest =~= order@.subrange(start as int, end as int));
        } else {
            assert(rest.take(bs as int) =~= order@.subrange(start as int, end as int));
            assert(rest.skip(bs as int) =~= order@.skip(end as int));
        }
        assert(order@.skip(end as int).len() == 0 ==> spec_chunks(order@.skip(end as int), bs as nat)
            =~= Seq::<Seq<usize>>::empty());
        start = end;
    }
    assert(spec_chunks(order@.skip(n as int), bs as nat) =~= Seq::<Seq<usize>>::empty());
    assert(batches_view(out@) =~= spec_chunks(order@, bs as nat));
    out
}

/// Batching loses and reorders nothing: the batches, concatenated, are
/// the order; every batch holds between one and `bs` rows, and all but
/// the last hold exactly `bs`.
pub proof fn lemma_batches_partition(s: Seq<usize>, bs: nat)
    requires
        bs > 0,
    ensures
        spec_chunks(s, bs).flatten() =~= s,
        forall|k: int|
            0 <= k < spec_chunks(s, bs).len() ==> 1 <= (#[trigger] spec_chunks(s, bs)[k]).len() <= bs,
        forall|k: int|
            0 <= k < spec_chunks(s, bs).len() - 1 ==> (#[trigger] spec_chunks(s, bs)[k]).len() == bs,
    decreases s.len(),
{
    let c = spec_chunks(s, bs);
    if s.len() > bs {
        lemma_batches_partition(s.skip(bs as int), bs);
        let rest = spec_chunks(s.skip(bs as int), bs);
        assert(c.drop_first() =~= rest);
        assert(c.first() + rest.flatten() =~= s);
        assert forall|k: int| 0 <= k < c.len() implies 1 <= (#[trigger] c[k]).len() <= bs by {
            if k > 0 {
                assert(c[k] == rest[k - 1]);
            }
        }
        assert forall|k: int| 0 <= k < c.len() - 1 implies (#[trigger] c[k]).len() == bs by {
            if k > 0 {
                assert(c[k] == rest[k - 1]);
            }
        }
    } else if s.len() > 0 {
        assert(c =~= seq![s]);
        assert(c.drop_first().flatten() =~= Seq::<usize>::empty());
    }
}

} // verus!
