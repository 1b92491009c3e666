//! Word segmentation into clusters and the context features the field
//! and vector models are conditioned on.
use vstd::prelude::*;

use crate::text::{chars_of, string_of};

verus! {

/// A model vocabulary: entry `i` is the string with id `i`; looking a
/// string up gives the id of its last occurrence.
pub struct Vocab {
    pub entries: Vec<String>,
}

/// The id of a string: the last index at which it occurs among the
/// first `n` entries.
pub open spec fn last_index(entries: Seq<Seq<char>>, s: Seq<char>, n: int) -> Option<int>
    decreases n,
{
    if n <= 0 {
        None
    } else if entries[n - 1] == s {
        Some(n - 1)
    } else {
        last_index(entries, s, n - 1)
    }
}

/// The id of a string in a vocabulary, if it has one.
pub open spec fn spec_vocab_id(entries: Seq<Seq<char>>, s: Seq<char>) -> Option<u32> {
    match last_index(entries, s, entries.len() as int) {
        Some(k) => Some(k as u32),
        None => None,
    }
}

/// The id of a string, or the boundary id 0.
pub open spec fn id_or_none(entries: Seq<Seq<char>>, s: Seq<char>) -> u32 {
    match spec_vocab_id(entries, s) {
        Some(id) => id,
        None => 0,
    }
}

impl Vocab {
    /// The entries as character sequences.
    pub open spec fn view_entries(&self) -> Seq<Seq<char>> {
        self.entries@.map_values(|s: String| s@)
    }

    /// Id of the string `s`, if the vocabulary has it.
    pub fn vocab_id(&self, s: &[char]) -> (r: Option<u32>)
        ensures
            r == spec_vocab_id(self.view_entries(), s@),
    {
        let ghost es = self.view_entries();
        let mut k = self.entries.len();
        while k > 0
            invariant
                es == self.view_entries(),
                k <= self.entries@.len(),
                last_index(es, s@, es.len() as int) == last_index(es, s@, k as int),
            decreases k,
        {
            let e = chars_of(self.entries[k - 1].as_str());
            if same_chars(&e, s) {
                return Some((k - 1) as u32);
            }
            k = k - 1;
        }
        None
    }

    /// The id of the boundary ("none") context.
    pub fn none_id(&self) -> (r: u32)
        ensures
            r == 0,
    {
        0
    }
}

fn same_chars(a: &Vec<char>, b: &[char]) -> (r: bool)
    ensures
        r == (a@ == b@),
{
    if a.len() != b.len() {
        return false;
    }
    let mut i: usize = 0;
    while i < a.len()
        invariant
            a@.len() == b@.len(),
            i <= a@.len(),
            forall|k: int| 0 <= k < i ==> a@[k] == b@[k],
        decreases a@.len() - i,
    {
        if a[i] != b[i] {
            return false;
        }
        i = i + 1;
    }
    assert(a@ =~= b@);
    true
}

/// The word الله, which the teacher font ligates as [ا][لله].
pub open spec fn allah() -> Seq<char> {
    seq!['\u{627}', '\u{644}', '\u{644}', '\u{647}']
}

/// Cluster ranges from position `i` on: a lam followed by an alef fuses
/// into one cluster; every other character is its own.
pub open spec fn lam_alef_ranges(cs: Seq<char>, i: int) -> Seq<(int, int)>
    decreases cs.len() - i,
{
    if i < 0 || i >= cs.len() {
        seq![]
    } else if cs[i] == 'ل' && i + 1 < cs.len() && cs[i + 1] == 'ا' {
        seq![(i, i + 2)] + lam_alef_ranges(cs, i + 2)
    } else {
        seq![(i, i + 1)] + lam_alef_ranges(cs, i + 1)
    }
}

/// The cluster ranges of a word: الله splits as [ا][لله]; otherwise
/// lam-alef fuses.
pub open spec fn spec_cluster_ranges(cs: Seq<char>) -> Seq<(int, int)> {
    if cs == allah() {
        seq![(0, 1), (1, 4)]
    } else {
        lam_alef_ranges(cs, 0)
    }
}

/// The feature id of the character at position `k` (0 when out of the
/// word or unknown).
pub open spec fn char_feat(entries: Seq<Seq<char>>, cs: Seq<char>, k: int) -> u32 {
    if 0 <= k < cs.len() {
        id_or_none(entries, seq![cs[k]])
    } else {
        0
    }
}

/// The (prev2, prev, letter, next, next2) feature tuple of the cluster
/// covering `cs[a..b]`.
pub open spec fn cluster_feats(entries: Seq<Seq<char>>, cs: Seq<char>, a: int, b: int) -> Seq<u32> {
    seq![
        char_feat(entries, cs, a - 2),
        char_feat(entries, cs, a - 1),
        id_or_none(entries, cs.subrange(a, b)),
        char_feat(entries, cs, b),
        char_feat(entries, cs, b + 1),
    ]
}

/// Each cluster's letters and feature tuple.
pub open spec fn spec_word_clusters(entries: Seq<Seq<char>>, cs: Seq<char>) -> Seq<(Seq<char>, Seq<u32>)> {
    spec_cluster_ranges(cs).map_values(
        |r: (int, int)| (cs.subrange(r.0, r.1), cluster_feats(entries, cs, r.0, r.1)),
    )
}

/// The value of a cluster list.
pub open spec fn word_clusters_view(v: Seq<(String, [u32; 5])>) -> Seq<(Seq<char>, Seq<u32>)> {
    v.map_values(|c: (String, [u32; 5])| (c.0@, c.1@))
}

fn is_allah(cs: &[char]) -> (r: bool)
    ensures
        r == (cs@ == allah()),
{
    let r = cs.len() == 4 && cs[0] == '\u{627}' && cs[1] == '\u{644}' && cs[2] == '\u{644}'
        && cs[3] == '\u{647}';
    assert(r ==> cs@ =~= allah());
    r
}

/// Ranges as integer pairs.
pub open spec fn ranges_view(r: Seq<(usize, usize)>) -> Seq<(int, int)> {
    r.map_values(|p: (usize, usize)| (p.0 as int, p.1 as int))
}

/// The cluster ranges of a word.
pub fn cluster_ranges(cs: &[char]) -> (r: Vec<(usize, usize)>)
    ensures
        ranges_view(r@) == spec_cluster_ranges(cs@),
{
    let mut ranges: Vec<(usize, usize)> = Vec::new();
    if is_allah(cs) {
        ranges.push((0, 1));
        ranges.push((1, 4));
        assert(ranges_view(ranges@) =~= spec_cluster_ranges(cs@));
        return ranges;
    }
    let n = cs.len();
    let mut i: usize = 0;
    assert(ranges_view(ranges@) =~= Seq::<(int, int)>::empty());
    while i < n
        invariant
            n == cs@.len(),
            i <= n,
            cs@ != allah(),
            lam_alef_ranges(cs@, 0) == ranges_view(ranges@) + lam_alef_ranges(cs@, i as int),
        decreases n - i,
    {
        let ghost rest = lam_alef_ranges(cs@, i as int);
        let ghost before = ranges_view(ranges@);
        if cs[i] == 'ل' && i + 1 < n && cs[i + 1] == 'ا' {
            ranges.push((i, i + 2));
            assert(rest == seq![(i as int, i + 2)] + lam_alef_ranges(cs@, i + 2));
            assert(ranges_view(ranges@) =~= before + seq![(i as int, i + 2)]);
            i = i + 2;
        } else {
            ranges.push((i, i + 1));
            assert(rest == seq![(i as int, i + 1)] + lam_alef_ranges(cs@, i + 1));
            assert(ranges_view(ranges@) =~= before + seq![(i as int, i + 1)]);
            i = i + 1;
        }
    }
    assert(lam_alef_ranges(cs@, i as int) =~= Seq::<(int, int)>::empty());
    assert(ranges_view(ranges@) =~= spec_cluster_ranges(cs@));
    ranges
}

/// Feature id of the character at position `k`, counting positions
/// before the word as out of it.
fn feat_at(vocab: &Vocab, cs: &[char], before: bool, a: usize, d: usize) -> (r: u32)
    requires
        before ==> a <= cs@.len(),
    ensures
        r == char_feat(vocab.view_entries(), cs@, if before {
            a - d
        } else {
            a + d
        }),
{
    let k: usize = if before {
        if a < d {
            return 0;
        }
        a - d
    } else {
        if a >= cs.len() || cs.len() - a <= d {
            return 0;
        }
        a + d
    };
    if k >= cs.len() {
        return 0;
    }
    let one = [cs[k]];
    assert(one@ =~= seq![cs@[k as int]]);
    match vocab.vocab_id(&one) {
        Some(id) => id,
        None => 0,
    }
}

/// Segment a word's chars into clusters (lam-alef fuses) and build the
/// (prev2, prev, letter, next, next2) feature tuple for each; unknown
/// strings and positions outside the word get the boundary id 0.
pub fn word_clusters(vocab: &Vocab, chars: &[char]) -> (r: Vec<(String, [u32; 5])>)
    ensures
        word_clusters_view(r@) == spec_word_clusters(vocab.view_entries(), chars@),
{
    let ghost es = vocab.view_entries();
    let ranges = cluster_ranges(chars);
    proof {
        lemma_ranges_bounds(chars@);
    }
    let ghost want = spec_word_clusters(es, chars@);
    let mut out: Vec<(String, [u32; 5])> = Vec::new();
    let mut k: usize = 0;
    while k < ranges.len()
        invariant
            es == vocab.view_entries(),
            ranges_view(ranges@) == spec_cluster_ranges(chars@),
            forall|j: int|
                0 <= j < spec_cluster_ranges(chars@).len() ==> 0 <= (
                #[trigger] spec_cluster_ranges(chars@)[j]).0 < spec_cluster_ranges(chars@)[j].1
                    <= chars@.len(),
            want == spec_word_clusters(es, chars@),
            k <= ranges@.len(),
            out@.len() == k,
            word_clusters_view(out@) == want.take(k as int),
        decreases ranges@.len() - k,
    {
        let (a, b) = ranges[k];
        assert((a as int, b as int) == spec_cluster_ranges(chars@)[k as int]);
        let mut letters: Vec<char> = Vec::new();
        let mut i = a;
        while i < b
            invariant
                a <= i <= b <= chars@.len(),
                letters@ == chars@.subrange(a as int, i as int),
            decreases b - i,
        {
            letters.push(chars[i]);
            i = i + 1;
            assert(letters@ =~= chars@.subrange(a as int, i as int));
        }
        let lid = match vocab.vocab_id(letters.as_slice()) {
            Some(id) => id,
            None => 0,
        };
        let feats: [u32; 5] = [
            feat_at(vocab, chars, true, a, 2),
            feat_at(vocab, chars, true, a, 1),
            lid,
            feat_at(vocab, chars, false, b, 0),
            feat_at(vocab, chars, false, b, 1),
        ];
        let ghost before = word_clusters_view(out@);
        out.push((string_of(letters.as_slice()), feats));
        assert(feats@ =~= cluster_feats(es, chars@, a as int, b as int));
        assert(word_clusters_view(out@) =~= want.take(k + 1));
        k = k + 1;
    }
    assert(want.take(ranges@.len() as int) =~= want);
    out
}

proof fn lemma_lam_alef_ranges_bounds(cs: Seq<char>, i: int)
    requires
        0 <= i,
    ensures
        forall|j: int|
            0 <= j < lam_alef_ranges(cs, i).len() ==> i <= (#[trigger] lam_alef_ranges(cs, i)[j]).0
                < lam_alef_ranges(cs, i)[j].1 <= cs.len(),
    decreases cs.len() - i,
{
    if i < cs.len() {
        let rs = lam_alef_ranges(cs, i);
        if cs[i] == 'ل' && i + 1 < cs.len() && cs[i + 1] == 'ا' {
            lemma_lam_alef_ranges_bounds(cs, i + 2);
            assert forall|j: int| 0 < j < rs.len() implies rs[j] == lam_alef_ranges(cs, i + 2)[j - 1] by {}
        } else {
            lemma_lam_alef_ranges_bounds(cs, i + 1);
            assert forall|j: int| 0 < j < rs.len() implies rs[j] == lam_alef_ranges(cs, i + 1)[j - 1] by {}
        }
    }
}

/// Cluster ranges are nonempty and lie within the word.
pub proof fn lemma_ranges_bounds(cs: Seq<char>)
    ensures
        forall|j: int|
            0 <= j < spec_cluster_ranges(cs).len() ==> 0 <= (
            #[trigger] spec_cluster_ranges(cs)[j]).0 < spec_cluster_ranges(cs)[j].1 <= cs.len(),
{
    lemma_lam_alef_ranges_bounds(cs, 0);
}

/// The letters of a list of ranges, concatenated.
pub open spec fn range_letters(cs: Seq<char>, rs: Seq<(int, int)>) -> Seq<char>
    decreases rs.len(),
{
    if rs.len() == 0 {
        seq![]
    } else {
        cs.subrange(rs[0].0, rs[0].1) + range_letters(cs, rs.drop_first())
    }
}

proof fn lemma_lam_alef_cover(cs: Seq<char>, i: int)
    requires
        0 <= i <= cs.len(),
    ensures
        range_letters(cs, lam_alef_ranges(cs, i)) =~= cs.skip(i),
    decreases cs.len() - i,
{
    if i < cs.len() {
        let rs = lam_alef_ranges(cs, i);
        if cs[i] == 'ل' && i + 1 < cs.len() && cs[i + 1] == 'ا' {
            lemma_lam_alef_cover(cs, i + 2);
            assert(rs.drop_first() == lam_alef_ranges(cs, i + 2));
        } else {
            lemma_lam_alef_cover(cs, i + 1);
            assert(rs.drop_first() == lam_alef_ranges(cs, i + 1));
        }
    }
}

/// Segmentation loses nothing: the clusters' letters, concatenated, are
/// the word.
pub proof fn lemma_clusters_spell_word(cs: Seq<char>)
    ensures
        range_letters(cs, spec_cluster_ranges(cs)) =~= cs,
{
    if cs == allah() {
        let rs = spec_cluster_ranges(cs);
        assert(rs.drop_first() =~= seq![(1int, 4int)]);
        assert(rs.drop_first().drop_first() =~= Seq::<(int, int)>::empty());
        assert(range_letters(cs, rs.drop_first().drop_first()) =~= Seq::<char>::empty());
        assert(range_letters(cs, rs.drop_first()) =~= cs.subrange(1, 4));
    } else {
        lemma_lam_alef_cover(cs, 0);
        assert(cs.skip(0) =~= cs);
    }
}

/// The single-character entries of a vocabulary.
pub open spec fn single_chars(entries: Seq<Seq<char>>) -> Set<char> {
    Set::new(|c: char| exists|k: int| 0 <= k < entries.len() && #[trigger] entries[k] == seq![c])
}

/// Strictly increasing characters.
pub open spec fn strictly_sorted(s: Seq<char>) -> bool {
    forall|i: int, j: int| 0 <= i < j < s.len() ==> s[i] < s[j]
}

impl Vocab {
    /// The alphabet of the vocabulary: its single-character entries,
    /// each once, in ascending order.
    pub fn alphabet(&self) -> (r: String)
        ensures
            strictly_sorted(r@),
            r@.to_set() == single_chars(self.view_entries()),
    {
        let ghost es = self.view_entries();
        let mut out: Vec<char> = Vec::new();
        let mut k: usize = 0;
        while k < self.entries.len()
            invariant
                es == self.view_entries(),
                k <= es.len(),
                strictly_sorted(out@),
                forall|c: char| out@.contains(c) <==> exists|j: int| 0 <= j < k && #[trigger] es[j] == seq![c],
            decreases es.len() - k,
        {
            let e = chars_of(self.entries[k].as_str());
            if e.len() == 1 {
                let c = e[0];
                assert(es[k as int] == seq![c]);
                insert_sorted(&mut out, c);
            } else {
                assert(forall|c: char| es[k as int] != seq![c]);
            }
            k = k + 1;
        }
        assert(out@.to_set() =~= single_chars(es));
        string_of(out.as_slice())
    }
}

/// Insert a character into a strictly sorted list, keeping it sorted
/// and without duplicates.
fn insert_sorted(v: &mut Vec<char>, c: char)
    requires
        strictly_sorted(old(v)@),
    ensures
        strictly_sorted(final(v)@),
        forall|x: char| final(v)@.contains(x) <==> (old(v)@.contains(x) || x == c),
{
    let mut i: usize = 0;
    while i < v.len() && v[i] < c
        invariant
            i <= v@.len(),
            v@ == old(v)@,
            forall|j: int| 0 <= j < i ==> v@[j] < c,
        decreases v@.len() - i,
    {
        i = i + 1;
    }
    if i < v.len() && v[i] == c {
        assert(v@[i as int] == c);
        assert(v@.contains(c));
        return;
    }
    assert(i < v@.len() ==> c < v@[i as int]) by {
        if i < v@.len() {
            assert(v@[i as int] != c);
        }
    };
    let ghost old_v = v@;
    assert(old_v == old(v)@);
    v.insert(i, c);
    assert(v@ =~= old_v.subrange(0, i as int) + seq![c] + old_v.subrange(i as int, old_v.len() as int));
    assert forall|x: char| v@.contains(x) <==> (old_v.contains(x) || x == c) by {
        if old_v.contains(x) {
            let j = choose|j: int| 0 <= j < old_v.len() && old_v[j] == x;
            if j < i {
                assert(v@[j] == x);
            } else {
                assert(v@[j + 1] == x);
            }
        }
        if v@.contains(x) {
            let j = choose|j: int| 0 <= j < v@.len() && v@[j] == x;
            if j < i {
                assert(old_v[j] == x);
            } else if j > i {
                assert(old_v[j - 1] == x);
            }
        }
        if x == c {
            assert(v@[i as int] == c);
        }
    }
    assert(forall|x: char| v@.contains(x) <==> (old(v)@.contains(x) || x == c));
}

/// The id of cluster `j` of a word (0 outside the word or for an
/// unknown cluster).
pub open spec fn cluster_id(entries: Seq<Seq<char>>, cs: Seq<char>, j: int) -> u32 {
    let rs = spec_cluster_ranges(cs);
    if 0 <= j < rs.len() {
        id_or_none(entries, cs.subrange(rs[j].0, rs[j].1))
    } else {
        0
    }
}

/// The clusters of a word with features taken from neighbouring
/// clusters (rather than neighbouring characters): the ids of clusters
/// k-2, k-1, k, k+1, k+2.
pub open spec fn spec_cluster_context(entries: Seq<Seq<char>>, cs: Seq<char>) -> Seq<(Seq<char>, Seq<u32>)> {
    let rs = spec_cluster_ranges(cs);
    Seq::new(
        rs.len(),
        |k: int|
            (
                cs.subrange(rs[k].0, rs[k].1),
                seq![
                    cluster_id(entries, cs, k - 2),
                    cluster_id(entries, cs, k - 1),
                    cluster_id(entries, cs, k),
                    cluster_id(entries, cs, k + 1),
                    cluster_id(entries, cs, k + 2),
                ],
            ),
    )
}

/// Segment a word into clusters (as `word_clusters` does) and give each
/// the ids of the two clusters before it, itself, and the two after it.
pub fn cluster_context(vocab: &Vocab, chars: &[char]) -> (r: Vec<(String, [u32; 5])>)
    ensures
        word_clusters_view(r@) == spec_cluster_context(vocab.view_entries(), chars@),
{
    let ghost es = vocab.view_entries();
    let ranges = cluster_ranges(chars);
    proof {
        lemma_ranges_bounds(chars@);
    }
    let ghost rs = spec_cluster_ranges(chars@);
    let n = ranges.len();
    let mut names: Vec<Vec<char>> = Vec::new();
    let mut ids: Vec<u32> = Vec::new();
    let mut k: usize = 0;
    while k < n
        invariant
            es == vocab.view_entries(),
            ranges_view(ranges@) == rs,
            rs == spec_cluster_ranges(chars@),
            n == ranges@.len(),
            forall|j: int| 0 <= j < rs.len() ==> 0 <= (#[trigger] rs[j]).0 < rs[j].1 <= chars@.len(),
            k <= n,
            names@.len() == k,
            ids@.len() == k,
            forall|j: int|
                0 <= j < k ==> (#[trigger] names@[j])@ == chars@.subrange(rs[j].0, rs[j].1),
            forall|j: int| 0 <= j < k ==> #[trigger] ids@[j] == cluster_id(es, chars@, j),
        decreases n - k,
    {
        let (a, b) = ranges[k];
        assert((a as int, b as int) == rs[k as int]);
        let mut letters: Vec<char> = Vec::new();
        let mut i = a;
        while i < b
            invariant
                a <= i <= b <= chars@.len(),
                letters@ == chars@.subrange(a as int, i as int),
            decreases b - i,
        {
            letters.push(chars[i]);
            i = i + 1;
            assert(letters@ =~= chars@.subrange(a as int, i as int));
        }
        let id = match vocab.vocab_id(letters.as_slice()) {
            Some(id) => id,
            None => 0,
        };
        let ghost lv = letters@;
        assert(lv == chars@.subrange(rs[k as int].0, rs[k as int].1));
        assert(id == cluster_id(es, chars@, k as int));
        names.push(letters);
        ids.push(id);
        assert(names@[k as int]@ == lv);
        k = k + 1;
    }
    let mut out: Vec<(String, [u32; 5])> = Vec::new();
    let mut k: usize = 0;
    while k < n
        invariant
            es == vocab.view_entries(),
            rs == spec_cluster_ranges(chars@),
            n == rs.len(),
            names@.len() == n,
            ids@.len() == n,
            forall|j: int|
                0 <= j < n ==> (#[trigger] names@[j])@ == chars@.subrange(rs[j].0, rs[j].1),
            forall|j: int| 0 <= j < n ==> #[trigger] ids@[j] == cluster_id(es, chars@, j),
            k <= n,
            word_clusters_view(out@) == spec_cluster_context(es, chars@).take(k as int),
        decreases n - k,
    {
        let f0 = if k >= 2 {
            ids[k - 2]
        } else {
            0
        };
        let f1 = if k >= 1 {
            ids[k - 1]
        } else {
            0
        };
        let f3 = if k + 1 < n {
            ids[k + 1]
        } else {
            0
        };
        let f4 = if n - k > 2 {
            ids[k + 2]
        } else {
            0
        };
        let feats: [u32; 5] = [f0, f1, ids[k], f3, f4];
        assert(f0 == cluster_id(es, chars@, k - 2));
        assert(f1 == cluster_id(es, chars@, k - 1));
        assert(f3 == cluster_id(es, chars@, k + 1));
        assert(f4 == cluster_id(es, chars@, k + 2));
        let ghost before = word_clusters_view(out@);
        let ghost want = spec_cluster_context(es, chars@);
        let st = string_of(names[k].as_slice());
        assert(st@ == want[k as int].0);
        assert(feats@ =~= want[k as int].1);
        out.push((st, feats));
        assert(word_clusters_view(out@) =~= before.push((st@, feats@)));
        assert(want.take(k + 1) =~= want.take(k as int).push(want[k as int]));
        assert(word_clusters_view(out@) =~= want.take(k + 1));
        k = k + 1;
    }
    assert(spec_cluster_context(es, chars@).take(n as int) =~= spec_cluster_context(es, chars@));
    out
}

/// A growing vocabulary that hands out ids in order of first sight.
pub struct Interner {
    pub entries: Vec<Vec<char>>,
}

impl Interner {
    /// The entries as character sequences.
    pub open spec fn view_entries(&self) -> Seq<Seq<char>> {
        self.entries@.map_values(|s: Vec<char>| s@)
    }

    /// No string occurs twice.
    pub open spec fn wf(&self) -> bool {
        self.view_entries().no_duplicates()
    }

    /// A vocabulary holding only the boundary entry, with id 0.
    pub fn new(boundary: &[char]) -> (r: Self)
        ensures
            r.wf(),
            r.view_entries() == seq![boundary@],
    {
        let mut entries: Vec<Vec<char>> = Vec::new();
        entries.push(vstd::slice::slice_to_vec(boundary));
        let r = Interner { entries };
        assert(r.view_entries() =~= seq![boundary@]);
        r
    }

    /// The id of `s`, adding it at the end if it is new.
    pub fn intern(&mut self, s: &[char]) -> (id: u32)
        requires
            old(self).wf(),
            old(self).entries@.len() < u32::MAX,
        ensures
            final(self).wf(),
            id < final(self).entries@.len(),
            final(self).view_entries()[id as int] == s@,
            old(self).view_entries().contains(s@) ==> final(self).view_entries() == old(
                self,
            ).view_entries(),
            !old(self).view_entries().contains(s@) ==> final(self).view_entries() == old(
                self,
            ).view_entries().push(s@) && id == old(self).entries@.len(),
    {
        let ghost es = self.view_entries();
        let n = self.entries.len();
        let mut k: usize = 0;
        while k < n
            invariant
                *self == *old(self),
                old(self).wf(),
                n < u32::MAX,
                es == self.view_entries(),
                n == self.entries@.len(),
                k <= n,
                forall|j: int| 0 <= j < k ==> es[j] != s@,
            decreases n - k,
        {
            if same_chars(&self.entries[k], s) {
                assert(es[k as int] == s@);
                return k as u32;
            }
            k = k + 1;
        }
        assert(!es.contains(s@));
        self.entries.push(vstd::slice::slice_to_vec(s));
        proof {
            let es2 = self.view_entries();
            assert(es2 =~= es.push(s@));
            assert forall|i: int, j: int| 0 <= i < j < es2.len() implies es2[i] != es2[j] by {
                if j == es.len() {
                    assert(es.contains(es2[i]));
                }
            }
        }
        n as u32
    }
}

/// The same string always gets the same id.
pub proof fn lemma_intern_stable(entries: Seq<Seq<char>>, i: int, j: int)
    requires
        entries.no_duplicates(),
        0 <= i < entries.len(),
        0 <= j < entries.len(),
        entries[i] == entries[j],
    ensures
        i == j,
{
}


/// The id of an optional neighbour character: 0 for none or unknown.
pub open spec fn neighbour_id(entries: Seq<Seq<char>>, c: Option<char>) -> u32 {
    match c {
        Some(ch) => id_or_none(entries, seq![ch]),
        None => 0,
    }
}

fn neighbour_feat(vocab: &Vocab, c: Option<char>) -> (r: u32)
    ensures
        r == neighbour_id(vocab.view_entries(), c),
{
    match c {
        Some(ch) => {
            let one = [ch];
            assert(one@ =~= seq![ch]);
            match vocab.vocab_id(&one) {
                Some(id) => id,
                None => 0,
            }
        },
        None => 0,
    }
}

/// The feature tuple of a recorded cluster: the ids of its second and
/// first neighbours before, of its letters, and of its first and second
/// neighbours after; 0 for a neighbour that is missing or unknown.
pub fn record_feats(
    vocab: &Vocab,
    letters: &[char],
    prev2: Option<char>,
    prev: Option<char>,
    next: Option<char>,
    next2: Option<char>,
) -> (r: [u32; 5])
    ensures
        r@ == seq![
            neighbour_id(vocab.view_entries(), prev2),
            neighbour_id(vocab.view_entries(), prev),
            id_or_none(vocab.view_entries(), letters@),
            neighbour_id(vocab.view_entries(), next),
            neighbour_id(vocab.view_entries(), next2),
        ],
{
    let a = neighbour_feat(vocab, prev2);
    let b = neighbour_feat(vocab, prev);
    let c = match vocab.vocab_id(letters) {
        Some(id) => id,
        None => 0,
    };
    let d = neighbour_feat(vocab, next);
    let e = neighbour_feat(vocab, next2);
    let r = [a, b, c, d, e];
    assert(r@ =~= seq![a, b, c, d, e]);
    r
}

proof fn lemma_lam_alef_ranges_chain(cs: Seq<char>, i: int)
    requires
        0 <= i,
    ensures
        i < cs.len() ==> lam_alef_ranges(cs, i).len() > 0 && lam_alef_ranges(cs, i)[0].0 == i,
        forall|j: int|
            0 <= j < lam_alef_ranges(cs, i).len() - 1 ==> (#[trigger] lam_alef_ranges(cs, i)[j]).1
                == lam_alef_ranges(cs, i)[j + 1].0,
    decreases cs.len() - i,
{
    if i < cs.len() {
        let rs = lam_alef_ranges(cs, i);
        let i2 = if cs[i] == 'ل' && i + 1 < cs.len() && cs[i + 1] == 'ا' { i + 2 } else { i + 1 };
        lemma_lam_alef_ranges_chain(cs, i2);
        let rest = lam_alef_ranges(cs, i2);
        assert(rs == seq![(i, i2)] + rest);
        assert forall|j: int| 0 <= j < rs.len() - 1 implies (#[trigger] rs[j]).1 == rs[j + 1].0 by {
            if j == 0 {
                assert(i2 < cs.len());
            } else {
                assert(rs[j] == rest[j - 1] && rs[j + 1] == rest[j]);
            }
        }
    }
}

/// The total length of the letters of the first `j` clusters.
pub open spec fn letters_before(wc: Seq<(Seq<char>, Seq<u32>)>, j: int) -> int
    decreases j,
{
    if j <= 0 {
        0
    } else {
        letters_before(wc, j - 1) + wc[j - 1].0.len()
    }
}

/// The vocabulary id of the character at `k`: 0 off the word or when
/// unknown.
pub open spec fn id_at(entries: Seq<Seq<char>>, cs: Seq<char>, k: int) -> u32 {
    if 0 <= k < cs.len() {
        id_or_none(entries, seq![cs[k]])
    } else {
        0
    }
}

/// Does cluster `j` of `wc` read the word around it: its letters are the
/// characters from `a` (the letters of the clusters before it, counted)
/// up to `b`, and its features are the ids of the characters at `a - 2`,
/// `a - 1`, of its letters, and of the characters at `b` and `b + 1`?
pub open spec fn reads_context(
    entries: Seq<Seq<char>>,
    cs: Seq<char>,
    wc: Seq<(Seq<char>, Seq<u32>)>,
    j: int,
) -> bool {
    let a = letters_before(wc, j);
    let b = letters_before(wc, j + 1);
    &&& 0 <= a < b <= cs.len()
    &&& wc[j].0 == cs.subrange(a, b)
    &&& wc[j].1 == seq![
        id_at(entries, cs, a - 2),
        id_at(entries, cs, a - 1),
        id_or_none(entries, wc[j].0),
        id_at(entries, cs, b),
        id_at(entries, cs, b + 1),
    ]
}

/// Each cluster's context features read the word around it: the
/// clusters tile the word in order, and each one's (prev2, prev, letter,
/// next, next2) features are the ids of the two characters before it, of
/// its letters, and of the two characters after it.
pub proof fn lemma_cluster_features(entries: Seq<Seq<char>>, cs: Seq<char>)
    ensures
        forall|j: int|
            0 <= j < spec_word_clusters(entries, cs).len() ==> #[trigger] reads_context(
                entries,
                cs,
                spec_word_clusters(entries, cs),
                j,
            ),
{
    let rs = spec_cluster_ranges(cs);
    let wc = spec_word_clusters(entries, cs);
    lemma_ranges_bounds(cs);
    // the ranges are contiguous from the word's start
    assert(rs.len() > 0 ==> rs[0].0 == 0 && forall|j: int| 0 <= j < rs.len() - 1 ==> (#[trigger] rs[j]).1 == rs[j + 1].0) by {
        if cs == allah() {
        } else {
            lemma_lam_alef_ranges_chain(cs, 0);
        }
    }
    assert forall|j: int| 0 <= j < wc.len() implies #[trigger] reads_context(entries, cs, wc, j) by {
        lemma_letters_before(cs, rs, wc, j);
        lemma_letters_before(cs, rs, wc, j + 1);
        assert(letters_before(wc, j) == rs[j].0) by {
            if j > 0 {
                assert(rs[j - 1].1 == rs[j].0);
            }
        }
        assert(wc[j].1 =~= cluster_feats(entries, cs, rs[j].0, rs[j].1));
    }
}

proof fn lemma_letters_before(
    cs: Seq<char>,
    rs: Seq<(int, int)>,
    wc: Seq<(Seq<char>, Seq<u32>)>,
    j: int,
)
    requires
        rs.len() == wc.len(),
        0 <= j <= rs.len(),
        forall|k: int| 0 <= k < rs.len() ==> 0 <= (#[trigger] rs[k]).0 < rs[k].1 <= cs.len(),
        rs.len() > 0 ==> rs[0].0 == 0,
        forall|k: int| 0 <= k < rs.len() - 1 ==> (#[trigger] rs[k]).1 == rs[k + 1].0,
        forall|k: int| 0 <= k < wc.len() ==> (#[trigger] wc[k]).0 == cs.subrange(rs[k].0, rs[k].1),
    ensures
        letters_before(wc, j) == if j == 0 { 0 } else { rs[j - 1].1 },
    decreases j,
{
    if j > 0 {
        lemma_letters_before(cs, rs, wc, j - 1);
        assert(wc[j - 1].0.len() == rs[j - 1].1 - rs[j - 1].0);
        if j > 1 {
            assert(rs[j - 2].1 == rs[j - 1].0);
        }
    }
}

proof fn lemma_lam_alef_ranges_fuse(cs: Seq<char>, i: int)
    requires
        0 <= i,
    ensures
        forall|j: int|
            0 <= j < lam_alef_ranges(cs, i).len() ==> {
                let r = #[trigger] lam_alef_ranges(cs, i)[j];
                r.1 == r.0 + 1 || (r.1 == r.0 + 2 && cs[r.0] == 'ل' && cs[r.0 + 1] == 'ا')
            },
        forall|j: int|
            0 <= j < lam_alef_ranges(cs, i).len() - 1 ==> !({
                let r = #[trigger] lam_alef_ranges(cs, i)[j];
                r.1 == r.0 + 1 && cs[r.0] == 'ل' && cs[r.1] == 'ا'
            }),
    decreases cs.len() - i,
{
    if i < cs.len() {
        let rs = lam_alef_ranges(cs, i);
        let i2 = if cs[i] == 'ل' && i + 1 < cs.len() && cs[i + 1] == 'ا' { i + 2 } else { i + 1 };
        lemma_lam_alef_ranges_fuse(cs, i2);
        lemma_lam_alef_ranges_chain(cs, i2);
        let rest = lam_alef_ranges(cs, i2);
        assert(rs == seq![(i, i2)] + rest);
        assert forall|j: int| 0 < j < rs.len() implies rs[j] == rest[j - 1] by {}
    }
}

/// Lam-alef is always one cluster: outside the word الله, every cluster
/// is one character or a lam with the alef after it, and no cluster of a
/// lone lam is directly followed by an alef.
pub proof fn lemma_lam_alef_one_cluster(entries: Seq<Seq<char>>, cs: Seq<char>)
    requires
        cs != allah(),
    ensures
        forall|j: int|
            0 <= j < spec_word_clusters(entries, cs).len() ==> (#[trigger] spec_word_clusters(entries, cs)[j]).0.len()
                == 1 || spec_word_clusters(entries, cs)[j].0 == seq!['ل', 'ا'],
        forall|j: int|
            0 <= j < spec_word_clusters(entries, cs).len() - 1 ==> !(
            #[trigger] spec_word_clusters(entries, cs)[j].0 == seq!['ل'] && spec_word_clusters(
                entries,
                cs,
            )[j + 1].0[0] == 'ا'),
{
    let rs = spec_cluster_ranges(cs);
    let wc = spec_word_clusters(entries, cs);
    lemma_ranges_bounds(cs);
    lemma_lam_alef_ranges_fuse(cs, 0);
    lemma_lam_alef_ranges_chain(cs, 0);
    assert forall|j: int| 0 <= j < wc.len() implies (#[trigger] wc[j]).0.len() == 1 || wc[j].0 == seq![
        'ل',
        'ا',
    ] by {
        let r = rs[j];
        if r.1 == r.0 + 2 {
            assert(wc[j].0 =~= seq!['ل', 'ا']);
        }
    }
    assert forall|j: int| 0 <= j < wc.len() - 1 implies !(#[trigger] wc[j].0 == seq!['ل'] && wc[j
        + 1].0[0] == 'ا') by {
        let r = rs[j];
        if wc[j].0 == seq!['ل'] && wc[j + 1].0[0] == 'ا' {
            assert(wc[j].0.len() == r.1 - r.0);
            assert(r.1 == r.0 + 1);
            assert(cs[r.0] == wc[j].0[0]);
            assert(rs[j + 1].0 == r.1);
            assert(cs[r.1] == wc[j + 1].0[0]);
        }
    }
}

} // verus!
