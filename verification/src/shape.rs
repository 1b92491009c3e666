//! Shaping: Unicode text to visual order and joining forms.
use vstd::prelude::*;

use crate::art::{
    joins_left, joins_right, letter_of_char, spec_joins_left, spec_joins_right,
    spec_letter_of_char, Class,
};
use crate::art::{form_possible, lemma_class_art_exists, spec_class_art};
use crate::text::chars_of;
use crate::Form;

verus! {

/// Base paragraph direction.
#[derive(Clone, Copy, Debug, PartialEq, Eq, Structural)]
pub enum Dir {
    /// RTL if the text contains any Arabic letter, else LTR.
    Auto,
    Rtl,
    Ltr,
}

/// A supported Latin letter.
pub open spec fn is_latin(c: char) -> bool {
    spec_letter_of_char(c) matches Some((Class::Latin(_), _))
}

/// A supported Arabic letter (any supported letter that is not Latin).
pub open spec fn is_arabic(c: char) -> bool {
    spec_letter_of_char(c) matches Some((cl, _)) && !(cl is Latin)
}

/// Each character paired with its logical index.
pub open spec fn enumerated(s: Seq<char>) -> Seq<(usize, char)> {
    Seq::new(s.len(), |i: int| (i as usize, s[i]))
}

/// The resolved base direction of a line.
pub open spec fn spec_rtl(s: Seq<char>, dir: Dir) -> bool {
    match dir {
        Dir::Rtl => true,
        Dir::Ltr => false,
        Dir::Auto => exists|i: int| 0 <= i < s.len() && is_arabic(#[trigger] s[i]),
    }
}

/// Length of the run of Latin letters that starts a sequence.
pub open spec fn latin_prefix_len(s: Seq<(usize, char)>) -> nat
    decreases s.len(),
{
    if s.len() == 0 || !is_latin(s[0].1) {
        0
    } else {
        1 + latin_prefix_len(s.drop_first())
    }
}

/// The sequence with every maximal run of Latin letters reversed in
/// place (spaces and other characters break runs).
pub open spec fn reverse_latin_runs(s: Seq<(usize, char)>) -> Seq<(usize, char)>
    decreases s.len(),
{
    if s.len() == 0 {
        s
    } else if is_latin(s[0].1) {
        let j = latin_prefix_len(s);
        proof {
            lemma_latin_prefix(s);
        }
        s.take(j as int).reverse() + reverse_latin_runs(s.skip(j as int))
    } else {
        seq![s[0]] + reverse_latin_runs(s.drop_first())
    }
}

/// The visual order of a line: the layout pen runs right to left, so
/// RTL text keeps its logical order with Latin runs reversed in place
/// and LTR text is reversed wholesale.
pub open spec fn spec_visual_order(s: Seq<char>, dir: Dir) -> Seq<(usize, char)> {
    if spec_rtl(s, dir) {
        reverse_latin_runs(enumerated(s))
    } else {
        enumerated(s).reverse()
    }
}

fn is_latin_char(c: char) -> (r: bool)
    ensures
        r == is_latin(c),
{
    match letter_of_char(c) {
        Some((Class::Latin(_), _)) => true,
        _ => false,
    }
}

fn is_arabic_char(c: char) -> (r: bool)
    ensures
        r == is_arabic(c),
{
    match letter_of_char(c) {
        Some((Class::Latin(_), _)) => false,
        Some(_) => true,
        None => false,
    }
}

/// The Latin prefix is as long as the leading run of Latin letters.
pub proof fn lemma_latin_prefix(s: Seq<(usize, char)>)
    ensures
        latin_prefix_len(s) <= s.len(),
        forall|k: int| 0 <= k < latin_prefix_len(s) ==> is_latin(#[trigger] s[k].1),
        latin_prefix_len(s) < s.len() ==> !is_latin(s[latin_prefix_len(s) as int].1),
    decreases s.len(),
{
    if s.len() > 0 && is_latin(s[0].1) {
        lemma_latin_prefix(s.drop_first());
        assert forall|k: int| 0 <= k < latin_prefix_len(s) implies is_latin(#[trigger] s[k].1) by {
            if k > 0 {
                assert(s[k] == s.drop_first()[k - 1]);
            }
        }
    }
}

/// The first non-Latin position of a run is its length.
proof fn lemma_latin_prefix_exact(s: Seq<(usize, char)>, n: int)
    requires
        0 <= n <= s.len(),
        forall|k: int| 0 <= k < n ==> is_latin(#[trigger] s[k].1),
        n < s.len() ==> !is_latin(s[n].1),
    ensures
        latin_prefix_len(s) == n,
    decreases s.len(),
{
    if n > 0 {
        assert(is_latin(s[0].1));
        assert forall|k: int| 0 <= k < n - 1 implies is_latin(#[trigger] s.drop_first()[k].1) by {
            assert(s.drop_first()[k] == s[k + 1]);
        }
        lemma_latin_prefix_exact(s.drop_first(), n - 1);
    }
}

/// Resolve the visual character order of a line (bidi-lite), keeping
/// each character's logical index for cluster mapping. Returns
/// (visual chars, rtl).
pub fn visual_order(text: &str, dir: Dir) -> (r: (Vec<(usize, char)>, bool))
    ensures
        r.1 == spec_rtl(text@, dir),
        r.0@ == spec_visual_order(text@, dir),
{
    let s = chars_of(text);
    let n = s.len();
    let ghost e = enumerated(s@);
    let rtl = match dir {
        Dir::Rtl => true,
        Dir::Ltr => false,
        Dir::Auto => {
            let mut found = false;
            let mut i: usize = 0;
            while i < n
                invariant
                    n == s@.len(),
                    i <= n,
                    found == exists|k: int| 0 <= k < i && is_arabic(#[trigger] s@[k]),
                decreases n - i,
            {
                if is_arabic_char(s[i]) {
                    found = true;
                }
                i = i + 1;
            }
            found
        },
    };
    assert(rtl == spec_rtl(text@, dir));
    let mut out: Vec<(usize, char)> = Vec::new();
    if !rtl {
        let mut i: usize = n;
        while i > 0
            invariant
                n == s@.len(),
                e == enumerated(s@),
                i <= n,
                out@ == e.reverse().take((n - i) as int),
            decreases i,
        {
            i = i - 1;
            out.push((i, s[i]));
            assert(out@ =~= e.reverse().take((n - i) as int));
        }
        assert(out@ =~= e.reverse());
        return (out, rtl);
    }
    // Reverse each maximal run of Latin letters (spaces break runs).
    assert(e.skip(0) =~= e);
    let mut i: usize = 0;
    while i < n
        invariant
            n == s@.len(),
            e == enumerated(s@),
            i <= n,
            reverse_latin_runs(e) == out@ + reverse_latin_runs(e.skip(i as int)),
        decreases n - i,
    {
        let ghost rest = e.skip(i as int);
        if is_latin_char(s[i]) {
            let mut j = i;
            while j < n && is_latin_char(s[j])
                invariant
                    n == s@.len(),
                    i <= j <= n,
                    forall|k: int| i <= k < j ==> is_latin(#[trigger] s@[k]),
                decreases n - j,
            {
                j = j + 1;
            }
            proof {
                lemma_latin_prefix_exact(rest, (j - i) as int);
            }
            let ghost before = out@;
            let mut k = j;
            while k > i
                invariant
                    i <= k <= j,
                    j <= n,
                    n == s@.len(),
                    e == enumerated(s@),
                    out@ == before + e.subrange(k as int, j as int).reverse(),
                decreases k,
            {
                k = k - 1;
                out.push((k, s[k]));
                assert(out@ =~= before + e.subrange(k as int, j as int).reverse());
            }
            assert(rest.take((j - i) as int) =~= e.subrange(i as int, j as int));
            assert(rest.skip((j - i) as int) =~= e.skip(j as int));
            assert(reverse_latin_runs(rest) == rest.take((j - i) as int).reverse()
                + reverse_latin_runs(rest.skip((j - i) as int)));
            assert(out@ + reverse_latin_runs(e.skip(j as int)) =~= before + reverse_latin_runs(rest));
            i = j;
        } else {
            let ghost before = out@;
            out.push((i, s[i]));
            assert(rest.drop_first() =~= e.skip(i + 1));
            assert(out@ + reverse_latin_runs(e.skip(i + 1)) =~= before + reverse_latin_runs(rest));
            i = i + 1;
        }
    }
    assert(e.skip(n as int) =~= Seq::<(usize, char)>::empty());
    assert(out@ =~= reverse_latin_runs(e));
    (out, rtl)
}

proof fn lemma_runs_multiset(s: Seq<(usize, char)>)
    ensures
        reverse_latin_runs(s).to_multiset() =~= s.to_multiset(),
    decreases s.len(),
{
    broadcast use vstd::seq_lib::lemma_multiset_commutative;

    if s.len() > 0 {
        if is_latin(s[0].1) {
            let j = latin_prefix_len(s) as int;
            lemma_latin_prefix(s);
            lemma_runs_multiset(s.skip(j));
            s.take(j).lemma_reverse_to_multiset();
            assert(s =~= s.take(j) + s.skip(j));
        } else {
            lemma_runs_multiset(s.drop_first());
            assert(s =~= seq![s[0]] + s.drop_first());
        }
    }
}

proof fn lemma_runs_identity(s: Seq<(usize, char)>)
    requires
        forall|k: int| 0 <= k < s.len() ==> !is_latin(#[trigger] s[k].1),
    ensures
        reverse_latin_runs(s) == s,
    decreases s.len(),
{
    if s.len() > 0 {
        assert forall|k: int| 0 <= k < s.drop_first().len() implies !is_latin(
            #[trigger] s.drop_first()[k].1,
        ) by {
            assert(s.drop_first()[k] == s[k + 1]);
        }
        lemma_runs_identity(s.drop_first());
        assert(seq![s[0]] + s.drop_first() =~= s);
    }
}

/// Visual ordering only permutes the line: every character appears
/// exactly once, with its logical index.
pub proof fn lemma_visual_order_permutes(s: Seq<char>, dir: Dir)
    ensures
        spec_visual_order(s, dir).to_multiset() =~= enumerated(s).to_multiset(),
{
    if spec_rtl(s, dir) {
        lemma_runs_multiset(enumerated(s));
    } else {
        enumerated(s).lemma_reverse_to_multiset();
    }
}

/// Right-to-left text with no Latin letters keeps its logical order;
/// left-to-right text is reversed wholesale.
pub proof fn lemma_visual_order_simple(s: Seq<char>, dir: Dir)
    ensures
        spec_rtl(s, dir) && (forall|k: int| 0 <= k < s.len() ==> !is_latin(#[trigger] s[k]))
            ==> spec_visual_order(s, dir) == enumerated(s),
        !spec_rtl(s, dir) ==> spec_visual_order(s, dir) == enumerated(s).reverse(),
{
    if spec_rtl(s, dir) && (forall|k: int| 0 <= k < s.len() ==> !is_latin(#[trigger] s[k])) {
        let e = enumerated(s);
        assert forall|k: int| 0 <= k < e.len() implies !is_latin(#[trigger] e[k].1) by {
            assert(e[k].1 == s[k]);
        }
        lemma_runs_identity(e);
    }
}

/// A lam of any shape.
pub open spec fn is_lam(c: char) -> bool {
    spec_letter_of_char(c) matches Some((Class::Lam, _))
}

/// An alef of any shape.
pub open spec fn is_alef(c: char) -> bool {
    spec_letter_of_char(c) matches Some((Class::Alef, _))
}

/// The lam-alef ligature codepoint.
pub open spec fn lam_alef() -> char {
    '\u{FEFB}'
}

/// Cluster pass: a lam followed (in visual order) by an alef fuses into
/// the lam-alef ligature, carrying both logical indices; every other
/// character is its own cluster.
pub open spec fn spec_clusters(v: Seq<(usize, char)>) -> Seq<(Seq<usize>, char)>
    decreases v.len(),
{
    if v.len() == 0 {
        seq![]
    } else if v.len() >= 2 && is_lam(v[0].1) && is_alef(v[1].1) {
        seq![(seq![v[0].0, v[1].0], lam_alef())] + spec_clusters(v.skip(2))
    } else {
        seq![(seq![v[0].0], v[0].1)] + spec_clusters(v.drop_first())
    }
}

/// Is cluster `i` a supported letter?
pub open spec fn letter_at(cl: Seq<(Seq<usize>, char)>, i: int) -> bool {
    0 <= i < cl.len() && spec_letter_of_char(cl[i].1) is Some
}

/// The letter class of cluster `i`.
pub open spec fn class_at(cl: Seq<(Seq<usize>, char)>, i: int) -> Class {
    match spec_letter_of_char(cl[i].1) {
        Some((class, _)) => class,
        None => Class::Alef,
    }
}

/// Glyph `i` connects to glyph `i + 1`.
pub open spec fn joins_to_next(cl: Seq<(Seq<usize>, char)>, i: int) -> bool {
    letter_at(cl, i) && letter_at(cl, i + 1) && spec_joins_left(class_at(cl, i))
        && spec_joins_right(class_at(cl, i + 1))
}

/// The joining form of cluster `i`; None for non-letters.
pub open spec fn form_at(cl: Seq<(Seq<usize>, char)>, i: int) -> Option<Form> {
    if !letter_at(cl, i) {
        None
    } else {
        let prev = i > 0 && joins_to_next(cl, i - 1);
        let next = joins_to_next(cl, i);
        Some(
            if !prev && !next {
                Form::Isolated
            } else if !prev {
                Form::Initial
            } else if next {
                Form::Medial
            } else {
                Form::Final
            },
        )
    }
}

/// Clusters with their joining forms.
pub open spec fn spec_shaped(cl: Seq<(Seq<usize>, char)>) -> Seq<(Seq<usize>, char, Option<Form>)> {
    Seq::new(cl.len(), |i: int| (cl[i].0, cl[i].1, form_at(cl, i)))
}

/// The shaped line: visual-order clusters with their joining forms.
pub open spec fn spec_shaped_forms(s: Seq<char>, dir: Dir) -> Seq<(Seq<usize>, char, Option<Form>)> {
    spec_shaped(spec_clusters(spec_visual_order(s, dir)))
}

/// The value of a shaped line.
pub open spec fn shaped_view(v: Seq<(Vec<usize>, char, Option<Form>)>) -> Seq<
    (Seq<usize>, char, Option<Form>),
> {
    v.map_values(|t: (Vec<usize>, char, Option<Form>)| (t.0@, t.1, t.2))
}

/// The value of a cluster list.
pub open spec fn clusters_view(v: Seq<(Vec<usize>, char)>) -> Seq<(Seq<usize>, char)> {
    v.map_values(|t: (Vec<usize>, char)| (t.0@, t.1))
}

fn is_class(c: char, lam: bool) -> (r: bool)
    ensures
        r == if lam {
            is_lam(c)
        } else {
            is_alef(c)
        },
{
    match letter_of_char(c) {
        Some((Class::Lam, _)) => lam,
        Some((Class::Alef, _)) => !lam,
        _ => false,
    }
}

fn is_letter(cl: &Vec<(Vec<usize>, char)>, i: usize) -> (r: bool)
    ensures
        r == letter_at(clusters_view(cl@), i as int),
{
    i < cl.len() && letter_of_char(cl[i].1).is_some()
}

fn class_of(cl: &Vec<(Vec<usize>, char)>, i: usize) -> (r: Class)
    requires
        letter_at(clusters_view(cl@), i as int),
    ensures
        r == class_at(clusters_view(cl@), i as int),
{
    match letter_of_char(cl[i].1) {
        Some((class, _)) => class,
        None => Class::Alef,
    }
}

/// Does glyph `i` connect to glyph `i + 1`?
fn connects(cl: &Vec<(Vec<usize>, char)>, i: usize) -> (r: bool)
    ensures
        r == joins_to_next(clusters_view(cl@), i as int),
{
    if i >= cl.len() || cl.len() - i == 1 {
        return false;
    }
    is_letter(cl, i) && is_letter(cl, i + 1) && joins_left(class_of(cl, i)) && joins_right(
        class_of(cl, i + 1),
    )
}

/// Compute the joining form of each letter in `text`, in visual order,
/// keeping logical indices (a glyph may carry two: the lam-alef
/// ligature). Non-letters (spaces, unsupported characters) and
/// non-joining scripts break joining.
pub fn shaped_forms(text: &str, dir: Dir) -> (r: (Vec<(Vec<usize>, char, Option<Form>)>, bool))
    ensures
        r.1 == spec_rtl(text@, dir),
        shaped_view(r.0@) == spec_shaped_forms(text@, dir),
{
    let (chars, rtl) = visual_order(text, dir);
    let ghost v = chars@;
    let n = chars.len();
    // Cluster pass: mandatory lam-alef ligature.
    let mut clusters: Vec<(Vec<usize>, char)> = Vec::new();
    let mut i: usize = 0;
    assert(v.skip(0) =~= v);
    while i < n
        invariant
            v == chars@,
            n == v.len(),
            i <= n,
            clusters@.len() <= i,
            spec_clusters(v) == clusters_view(clusters@) + spec_clusters(v.skip(i as int)),
        decreases n - i,
    {
        let ghost before = clusters_view(clusters@);
        let ghost rest = v.skip(i as int);
        let (li, c) = chars[i];
        let lam = is_class(c, true);
        let next_alef = i + 1 < n && is_class(chars[i + 1].1, false);
        if lam && next_alef {
            let li2 = chars[i + 1].0;
            let mut two: Vec<usize> = Vec::new();
            two.push(li);
            two.push(li2);
            assert(two@ =~= seq![li, li2]);
            clusters.push((two, '\u{FEFB}'));
            assert(rest.skip(2) =~= v.skip(i + 2));
            assert(clusters_view(clusters@) =~= before + seq![(seq![li, li2], lam_alef())]);
            i = i + 2;
        } else {
            let mut one: Vec<usize> = Vec::new();
            one.push(li);
            clusters.push((one, c));
            assert(rest.drop_first() =~= v.skip(i + 1));
            assert(clusters_view(clusters@) =~= before + seq![(seq![li], c)]);
            i = i + 1;
        }
    }
    assert(v.skip(n as int) =~= Seq::<(usize, char)>::empty());
    assert(spec_clusters(v.skip(n as int)) =~= Seq::<(Seq<usize>, char)>::empty());
    assert(spec_clusters(v) =~= clusters_view(clusters@));
    let ghost cl = clusters_view(clusters@);
    let m = clusters.len();
    let mut shaped: Vec<(Vec<usize>, char, Option<Form>)> = Vec::new();
    let mut k: usize = 0;
    while k < m
        invariant
            cl == clusters_view(clusters@),
            m == clusters@.len(),
            m <= n,
            k <= m,
            shaped@.len() == k,
            shaped_view(shaped@) == spec_shaped(cl).take(k as int),
        decreases m - k,
    {
        let lis = clusters[k].0.clone();
        assert(lis@ =~= clusters@[k as int].0@);
        let c = clusters[k].1;
        let form = if !is_letter(&clusters, k) {
            None
        } else {
            let prev = k > 0 && connects(&clusters, k - 1);
            let next = connects(&clusters, k);
            Some(
                if !prev && !next {
                    Form::Isolated
                } else if !prev {
                    Form::Initial
                } else if next {
                    Form::Medial
                } else {
                    Form::Final
                },
            )
        };
        assert(form == form_at(cl, k as int));
        let ghost before = shaped@;
        shaped.push((lis, c, form));
        assert(shaped@ == before.push((lis, c, form)));
        assert(spec_shaped(cl)[k as int] == (lis@, c, form));
        assert forall|j: int| 0 <= j < k implies #[trigger] shaped_view(shaped@)[j] == spec_shaped(cl)[j] by {
            assert(shaped@[j] == before[j]);
            assert(shaped_view(before)[j] == spec_shaped(cl).take(k as int)[j]);
        }
        assert(shaped_view(shaped@) =~= spec_shaped(cl).take(k + 1));
        k = k + 1;
    }
    assert(spec_shaped(cl).take(m as int) =~= spec_shaped(cl));
    (shaped, rtl)
}

/// Joining is symmetric: a glyph takes a form that connects forward
/// exactly when the next glyph takes a form that connects backward.
pub proof fn lemma_joins_agree(cl: Seq<(Seq<usize>, char)>, i: int)
    requires
        0 <= i,
        i + 1 < cl.len(),
    ensures
        (form_at(cl, i) matches Some(f) && f.spec_joins_next()) <==> (form_at(cl, i + 1) matches Some(
            g,
        ) && g.spec_joins_prev()),
{
}

/// Shaping only asks for forms the teacher draws: every letter's form
/// is possible for its class under the joining rules, so its art
/// exists.
pub proof fn lemma_forms_drawable(cl: Seq<(Seq<usize>, char)>, i: int)
    requires
        0 <= i < cl.len(),
    ensures
        form_at(cl, i) matches Some(f) ==> form_possible(class_at(cl, i), f) && spec_class_art(
            class_at(cl, i),
            f,
        ) is Some,
{
    if let Some(f) = form_at(cl, i) {
        lemma_class_art_exists(class_at(cl, i), f);
    }
}

/// The logical indices of a cluster list, concatenated.
pub open spec fn cluster_indices(cl: Seq<(Seq<usize>, char)>) -> Seq<usize>
    decreases cl.len(),
{
    if cl.len() == 0 {
        seq![]
    } else {
        cl[0].0 + cluster_indices(cl.drop_first())
    }
}

/// Clustering keeps every character: the clusters' logical indices,
/// concatenated, are exactly the indices of the visual order.
pub proof fn lemma_clusters_cover(v: Seq<(usize, char)>)
    ensures
        cluster_indices(spec_clusters(v)) =~= v.map_values(|p: (usize, char)| p.0),
    decreases v.len(),
{
    if v.len() > 0 {
        let cl = spec_clusters(v);
        if v.len() >= 2 && is_lam(v[0].1) && is_alef(v[1].1) {
            lemma_clusters_cover(v.skip(2));
            assert(cl.drop_first() =~= spec_clusters(v.skip(2)));
            assert(v.map_values(|p: (usize, char)| p.0) =~= seq![v[0].0, v[1].0] + v.skip(2).map_values(
                |p: (usize, char)| p.0,
            ));
        } else {
            lemma_clusters_cover(v.drop_first());
            assert(cl.drop_first() =~= spec_clusters(v.drop_first()));
            assert(v.map_values(|p: (usize, char)| p.0) =~= seq![v[0].0] + v.drop_first().map_values(
                |p: (usize, char)| p.0,
            ));
        }
    }
}

/// The logical indices of a pair list.
pub open spec fn indices_of(v: Seq<(usize, char)>) -> Seq<usize> {
    v.map_values(|p: (usize, char)| p.0)
}

proof fn lemma_indices_multiset(a: Seq<(usize, char)>, b: Seq<(usize, char)>)
    requires
        a.to_multiset() =~= b.to_multiset(),
    ensures
        indices_of(a).to_multiset() =~= indices_of(b).to_multiset(),
    decreases a.len(),
{
    broadcast use vstd::seq_lib::group_to_multiset_ensures;
    broadcast use vstd::multiset::group_multiset_axioms;

    if a.len() == 0 {
        assert(a.to_multiset().len() == a.len());
        assert(b.to_multiset().len() == b.len());
        assert(indices_of(a) =~= Seq::<usize>::empty());
        assert(indices_of(b) =~= Seq::<usize>::empty());
    } else {
        let x = a.last();
        let a1 = a.drop_last();
        assert(a1.push(x) =~= a);
        assert(a.to_multiset().count(x) > 0);
        assert(b.contains(x));
        let j = choose|j: int| 0 <= j < b.len() && b[j] == x;
        let b1 = b.remove(j);
        assert(a1.to_multiset() =~= a.to_multiset().remove(x));
        assert(b1.to_multiset() =~= b.to_multiset().remove(x));
        lemma_indices_multiset(a1, b1);
        assert(indices_of(a1).push(x.0) =~= indices_of(a));
        assert(indices_of(b).remove(j) =~= indices_of(b1));
        assert(indices_of(b)[j] == x.0);
        assert(indices_of(b).to_multiset().count(x.0) > 0) by {
            assert(indices_of(b).contains(x.0));
        }
        assert(indices_of(b).to_multiset() =~= indices_of(b1).to_multiset().insert(x.0));
    }
}

/// The logical indices of a shaped line's glyphs, concatenated.
pub open spec fn shaped_indices(sh: Seq<(Seq<usize>, char, Option<Form>)>) -> Seq<usize>
    decreases sh.len(),
{
    if sh.len() == 0 {
        seq![]
    } else {
        sh[0].0 + shaped_indices(sh.drop_first())
    }
}

proof fn lemma_shaped_indices(cl: Seq<(Seq<usize>, char)>, sh: Seq<(Seq<usize>, char, Option<Form>)>)
    requires
        sh.len() == cl.len(),
        forall|i: int| 0 <= i < cl.len() ==> #[trigger] sh[i].0 == cl[i].0,
    ensures
        shaped_indices(sh) == cluster_indices(cl),
    decreases cl.len(),
{
    if cl.len() > 0 {
        lemma_shaped_indices(cl.drop_first(), sh.drop_first());
    }
}

/// Does glyph `g` of a shaped line stand for its own characters of `s`:
/// one index with that character, or a lam and an alef fused into the
/// ligature?
pub open spec fn glyph_of_text(s: Seq<char>, g: (Seq<usize>, char)) -> bool {
    ||| g.0.len() == 1 && g.0[0] < s.len() && g.1 == s[g.0[0] as int]
    ||| g.0.len() == 2 && g.0[0] < s.len() && g.0[1] < s.len() && g.1 == lam_alef() && is_lam(
        s[g.0[0] as int],
    ) && is_alef(s[g.0[1] as int])
}

proof fn lemma_clusters_of_text(v: Seq<(usize, char)>, s: Seq<char>)
    requires
        forall|k: int| 0 <= k < v.len() ==> #[trigger] v[k].0 < s.len() && v[k].1 == s[v[k].0 as int],
    ensures
        forall|g: int|
            0 <= g < spec_clusters(v).len() ==> glyph_of_text(s, #[trigger] spec_clusters(v)[g]),
    decreases v.len(),
{
    if v.len() > 0 {
        let cl = spec_clusters(v);
        if v.len() >= 2 && is_lam(v[0].1) && is_alef(v[1].1) {
            let rest = v.skip(2);
            assert forall|k: int| 0 <= k < rest.len() implies #[trigger] rest[k].0 < s.len()
                && rest[k].1 == s[rest[k].0 as int] by {
                assert(rest[k] == v[k + 2]);
            }
            lemma_clusters_of_text(rest, s);
            assert forall|g: int| 0 <= g < cl.len() implies glyph_of_text(s, #[trigger] cl[g]) by {
                if g > 0 {
                    assert(cl[g] == spec_clusters(rest)[g - 1]);
                } else {
                    assert(v[0].1 == s[v[0].0 as int]);
                    assert(v[1].1 == s[v[1].0 as int]);
                }
            }
        } else {
            let rest = v.drop_first();
            assert forall|k: int| 0 <= k < rest.len() implies #[trigger] rest[k].0 < s.len()
                && rest[k].1 == s[rest[k].0 as int] by {
                assert(rest[k] == v[k + 1]);
            }
            lemma_clusters_of_text(rest, s);
            assert forall|g: int| 0 <= g < cl.len() implies glyph_of_text(s, #[trigger] cl[g]) by {
                if g > 0 {
                    assert(cl[g] == spec_clusters(rest)[g - 1]);
                } else {
                    assert(v[0].1 == s[v[0].0 as int]);
                }
            }
        }
    }
}

/// Shaping covers the line: the glyphs' logical indices, concatenated,
/// hold each index of the text exactly once, and every glyph stands for
/// its own characters (the character itself, or lam and alef fused into
/// the ligature).
pub proof fn lemma_shaping_covers(s: Seq<char>, dir: Dir)
    requires
        s.len() <= usize::MAX,
    ensures
        shaped_indices(spec_shaped_forms(s, dir)).to_multiset() =~= Seq::new(
            s.len(),
            |i: int| i as usize,
        ).to_multiset(),
        forall|g: int|
            0 <= g < spec_shaped_forms(s, dir).len() ==> glyph_of_text(
                s,
                (#[trigger] spec_shaped_forms(s, dir)[g].0, spec_shaped_forms(s, dir)[g].1),
            ),
{
    broadcast use vstd::seq_lib::group_to_multiset_ensures;

    let v = spec_visual_order(s, dir);
    let cl = spec_clusters(v);
    let sh = spec_shaped(cl);
    lemma_shaped_indices(cl, sh);
    lemma_clusters_cover(v);
    lemma_visual_order_permutes(s, dir);
    lemma_indices_multiset(v, enumerated(s));
    assert(indices_of(enumerated(s)) =~= Seq::new(s.len(), |i: int| i as usize));
    assert(cluster_indices(cl) =~= indices_of(v));
    assert forall|k: int| 0 <= k < v.len() implies #[trigger] v[k].0 < s.len() && v[k].1 == s[v[k].0 as int] by {
        assert(v.to_multiset().count(v[k]) > 0);
        assert(enumerated(s).contains(v[k]));
        let i = choose|i: int| 0 <= i < enumerated(s).len() && enumerated(s)[i] == v[k];
        assert(enumerated(s)[i] == (i as usize, s[i]));
    }
    lemma_clusters_of_text(v, s);
    assert forall|g: int| 0 <= g < sh.len() implies glyph_of_text(s, (#[trigger] sh[g].0, sh[g].1)) by {
        assert(glyph_of_text(s, cl[g]));
        assert((sh[g].0, sh[g].1) == cl[g]);
    }
}

/// The lam-alef ligature is mandatory wherever the pair occurs: in the
/// clustered line, a glyph of one lam is never directly followed by a
/// glyph of one alef; and every lam directly followed by an alef in the
/// visual order is fused with it into U+FEFB carrying both indices.
pub proof fn lemma_lam_alef_always_fused(v: Seq<(usize, char)>)
    ensures
        forall|g: int|
            0 <= g < spec_clusters(v).len() - 1 ==> !(#[trigger] spec_clusters(v)[g].0.len() == 1
                && is_lam(spec_clusters(v)[g].1) && spec_clusters(v)[g + 1].0.len() == 1 && is_alef(
                spec_clusters(v)[g + 1].1,
            )),
        forall|k: int|
            0 <= k < v.len() - 1 && is_lam(#[trigger] v[k].1) && is_alef(v[k + 1].1) ==> exists|g: int|
                0 <= g < spec_clusters(v).len() && spec_clusters(v)[g] == (
                seq![v[k].0, v[k + 1].0],
                '\u{FEFB}',
            ),
    decreases v.len(),
{
    if v.len() > 0 {
        let cl = spec_clusters(v);
        if 2 <= v.len() && is_lam(v[0].1) && is_alef(v[1].1) {
            let rest = v.skip(2);
            lemma_lam_alef_always_fused(rest);
            let cr = spec_clusters(rest);
            assert(cl == seq![(seq![v[0].0, v[1].0], lam_alef())] + cr);
            assert forall|g: int|
                0 <= g < cl.len() - 1 implies !(#[trigger] cl[g].0.len() == 1 && is_lam(cl[g].1)
                && cl[g + 1].0.len() == 1 && is_alef(cl[g + 1].1)) by {
                if g > 0 {
                    assert(cl[g] == cr[g - 1] && cl[g + 1] == cr[g]);
                }
            }
            assert forall|k: int|
                0 <= k < v.len() - 1 && is_lam(#[trigger] v[k].1) && is_alef(v[k + 1].1) implies exists|g: int|
                0 <= g < cl.len() && cl[g] == (seq![v[k].0, v[k + 1].0], '\u{FEFB}') by {
                if k == 0 {
                    assert(cl[0] == (seq![v[0].0, v[1].0], '\u{FEFB}'));
                } else if k == 1 {
                    // v[1] is an alef, not a lam
                    assert(false);
                } else {
                    assert(rest[k - 2] == v[k] && rest[k - 1] == v[k + 1]);
                    assert(is_lam(rest[k - 2].1));
                    let g = choose|g: int| 0 <= g < cr.len() && cr[g] == (seq![rest[k - 2].0, rest[k - 1].0], '\u{FEFB}');
                    assert(cl[g + 1] == cr[g]);
                }
            }
        } else {
            let rest = v.drop_first();
            lemma_lam_alef_always_fused(rest);
            let cr = spec_clusters(rest);
            assert(cl == seq![(seq![v[0].0], v[0].1)] + cr);
            assert forall|g: int|
                0 <= g < cl.len() - 1 implies !(#[trigger] cl[g].0.len() == 1 && is_lam(cl[g].1)
                && cl[g + 1].0.len() == 1 && is_alef(cl[g + 1].1)) by {
                if g > 0 {
                    assert(cl[g] == cr[g - 1] && cl[g + 1] == cr[g]);
                } else if rest.len() > 0 {
                    assert(cl[1] == cr[0]);
                    if rest.len() >= 2 && is_lam(rest[0].1) && is_alef(rest[1].1) {
                        assert(cr[0].0.len() == 2);
                    } else {
                        assert(cr[0] == (seq![rest[0].0], rest[0].1));
                        assert(rest[0] == v[1]);
                    }
                }
            }
            assert forall|k: int|
                0 <= k < v.len() - 1 && is_lam(#[trigger] v[k].1) && is_alef(v[k + 1].1) implies exists|g: int|
                0 <= g < cl.len() && cl[g] == (seq![v[k].0, v[k + 1].0], '\u{FEFB}') by {
                assert(k != 0);
                assert(rest[k - 1] == v[k] && rest[k] == v[k + 1]);
                assert(is_lam(rest[k - 1].1));
                let g = choose|g: int| 0 <= g < cr.len() && cr[g] == (seq![rest[k - 1].0, rest[k].0], '\u{FEFB}');
                assert(cl[g + 1] == cr[g]);
            }
        }
    }
}

} // verus!
