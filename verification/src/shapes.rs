//! Shape numbering for the field stage: every distinct composed cluster
//! shape (its placed glyphs) gets an id, in order of first appearance;
//! and the extraction statistics: shape variety per letter and the range
//! of vertical displacements.
use vstd::prelude::*;
use crate::art::{letter_of_char, spec_letter_of_char};
use crate::training::{keys_view, row_before, sort_rows, sorted_range};

verus! {

/// A placed glyph: glyph id and offset from the cluster origin.
pub type Placed = (u32, i32, i32);

/// The distinct items of `s[..m]`, in order of first appearance.
pub open spec fn first_seen<T>(s: Seq<T>, m: int) -> Seq<T>
    decreases m,
{
    if m <= 0 {
        seq![]
    } else {
        let p = first_seen(s, m - 1);
        if p.contains(s[m - 1]) {
            p
        } else {
            p.push(s[m - 1])
        }
    }
}

/// The value of a list of shapes.
pub open spec fn shapes_view(v: Seq<Vec<Placed>>) -> Seq<Seq<Placed>> {
    v.map_values(|g: Vec<Placed>| g@)
}

proof fn lemma_first_seen_distinct<T>(s: Seq<T>, m: int)
    requires
        0 <= m <= s.len(),
    ensures
        first_seen(s, m).no_duplicates(),
        forall|i: int| 0 <= i < m ==> first_seen(s, m).contains(#[trigger] s[i]),
    decreases m,
{
    if m > 0 {
        lemma_first_seen_distinct(s, m - 1);
        let p = first_seen(s, m - 1);
        if !p.contains(s[m - 1]) {
            let q = p.push(s[m - 1]);
            assert forall|i: int, j: int| 0 <= i < q.len() && 0 <= j < q.len() && i != j implies #[trigger] q[i]
                != #[trigger] q[j] by {
                if j == p.len() {
                    assert(p[i] == q[i]);
                } else if i == p.len() {
                    assert(p[j] == q[j]);
                }
            }
            assert forall|i: int| 0 <= i < m implies first_seen(s, m).contains(#[trigger] s[i]) by {
                if i < m - 1 {
                    let w = choose|w: int| 0 <= w < p.len() && p[w] == s[i];
                    assert(p.push(s[m - 1])[w] == s[i]);
                } else {
                    assert(p.push(s[m - 1])[p.len() as int] == s[i]);
                }
            }
        }
    }
}


proof fn lemma_first_seen_prefix<T>(s: Seq<T>, t: Seq<T>, m: int)
    requires
        0 <= m <= s.len(),
        m <= t.len(),
        forall|i: int| 0 <= i < m ==> s[i] == t[i],
    ensures
        first_seen(s, m) == first_seen(t, m),
    decreases m,
{
    if m > 0 {
        lemma_first_seen_prefix(s, t, m - 1);
    }
}

fn same_shape(a: &Vec<Placed>, b: &Vec<Placed>) -> (r: bool)
    ensures
        r == (a@ == b@),
{
    if a.len() != b.len() {
        return false;
    }
    let mut i: usize = 0;
    while i < a.len()
        invariant
            a@.len() == b@.len(),
            i <= a@.len(),
            forall|k: int| 0 <= k < i ==> a@[k] == b@[k],
        decreases a@.len() - i,
    {
        let (g0, x0, y0) = a[i];
        let (g1, x1, y1) = b[i];
        if g0 != g1 || x0 != x1 || y0 != y1 {
            return false;
        }
        i = i + 1;
    }
    assert(a@ =~= b@);
    true
}

fn copy_shape(a: &Vec<Placed>) -> (r: Vec<Placed>)
    ensures
        r@ == a@,
{
    let mut r: Vec<Placed> = Vec::new();
    let mut i: usize = 0;
    while i < a.len()
        invariant
            i <= a@.len(),
            r@ == a@.take(i as int),
        decreases a@.len() - i,
    {
        r.push(a[i]);
        i = i + 1;
        assert(r@ =~= a@.take(i as int));
    }
    assert(a@.take(i as int) =~= a@);
    r
}

/// Number the shapes of the cluster records: returns each record's
/// shape id and the distinct shapes in order of first appearance (a
/// shape's id is its position there).
pub fn number_shapes(rows: &[Vec<Placed>]) -> (r: (Vec<usize>, Vec<Vec<Placed>>))
    ensures
        shapes_view(r.1@) == first_seen(shapes_view(rows@), rows@.len() as int),
        r.0@.len() == rows@.len(),
        forall|i: int| 0 <= i < rows@.len() ==> (#[trigger] r.0@[i]) < r.1@.len() && r.1@[r.0@[i] as int]@ == rows@[i]@,
{
    let ghost sv = shapes_view(rows@);
    let n = rows.len();
    let mut ids: Vec<usize> = Vec::new();
    let mut uniq: Vec<Vec<Placed>> = Vec::new();
    let mut m: usize = 0;
    while m < n
        invariant
            n == rows@.len(),
            sv == shapes_view(rows@),
            m <= n,
            shapes_view(uniq@) == first_seen(sv, m as int),
            ids@.len() == m,
            forall|i: int| 0 <= i < m ==> (#[trigger] ids@[i]) < uniq@.len() && uniq@[ids@[i] as int]@ == rows@[i]@,
        decreases n - m,
    {
        let ghost u0 = shapes_view(uniq@);
        let mut g: usize = 0;
        let mut found = false;
        while g < uniq.len() && !found
            invariant
                g <= uniq@.len(),
                u0 == shapes_view(uniq@),
                m < n,
                n == rows@.len(),
                found ==> g < uniq@.len() && u0[g as int] == rows@[m as int]@,
                forall|q: int| 0 <= q < g ==> u0[q] != rows@[m as int]@,
            decreases uniq@.len() - g + (if found { 0int } else { 1int }),
        {
            if same_shape(&uniq[g], &rows[m]) {
                found = true;
            } else {
                g = g + 1;
            }
        }
        proof {
            assert(sv[m as int] == rows@[m as int]@);
        }
        if found {
            ids.push(g);
        } else {
            proof {
                assert(!u0.contains(sv[m as int])) by {
                    if u0.contains(sv[m as int]) {
                        let w = choose|w: int| 0 <= w < u0.len() && u0[w] == sv[m as int];
                        assert(u0[w] != rows@[m as int]@);
                    }
                }
            }
            let c = copy_shape(&rows[m]);
            ids.push(uniq.len());
            uniq.push(c);
            assert(shapes_view(uniq@) =~= u0.push(sv[m as int]));
        }
        m = m + 1;
    }
    (ids, uniq)
}

/// Shapes are numbered once each: the distinct shapes hold no
/// repetition, and every record's shape is among them.
pub proof fn lemma_shapes_distinct(s: Seq<Seq<Placed>>)
    ensures
        first_seen(s, s.len() as int).no_duplicates(),
        forall|i: int| 0 <= i < s.len() ==> first_seen(s, s.len() as int).contains(#[trigger] s[i]),
{
    lemma_first_seen_distinct(s, s.len() as int);
}


/// The shapes of the first `m` records whose letters are `l`, in record
/// order.
pub open spec fn shapes_with(recs: Seq<(Seq<char>, Seq<Placed>)>, l: Seq<char>, m: int) -> Seq<Seq<Placed>>
    decreases m,
{
    if m <= 0 {
        seq![]
    } else if recs[m - 1].0 == l {
        shapes_with(recs, l, m - 1).push(recs[m - 1].1)
    } else {
        shapes_with(recs, l, m - 1)
    }
}

/// How many distinct shapes the records with letters `l` have.
pub open spec fn variety(recs: Seq<(Seq<char>, Seq<Placed>)>, l: Seq<char>) -> int {
    let sh = shapes_with(recs, l, recs.len() as int);
    first_seen(sh, sh.len() as int).len() as int
}

/// The distinct letter strings of the records, in order of first
/// appearance.
pub open spec fn letter_groups(recs: Seq<(Seq<char>, Seq<Placed>)>) -> Seq<Seq<char>> {
    let ls = recs.map_values(|r: (Seq<char>, Seq<Placed>)| r.0);
    first_seen(ls, ls.len() as int)
}

/// Every character of `l` is a letter the teacher knows.
pub open spec fn all_known(l: Seq<char>) -> bool {
    forall|i: int| 0 <= i < l.len() ==> spec_letter_of_char(#[trigger] l[i]) is Some
}

/// One letter string's shape variety.
pub struct LetterShapes {
    pub letters: Vec<char>,
    pub shapes: usize,
    pub known: bool,
}

/// The value of cluster records.
pub open spec fn recs_view(v: Seq<(Vec<char>, Vec<Placed>)>) -> Seq<(Seq<char>, Seq<Placed>)> {
    v.map_values(|r: (Vec<char>, Vec<Placed>)| (r.0@, r.1@))
}

fn same_letters(a: &Vec<char>, b: &Vec<char>) -> (r: bool)
    ensures
        r == (a@ == b@),
{
    if a.len() != b.len() {
        return false;
    }
    let mut i: usize = 0;
    while i < a.len()
        invariant
            a@.len() == b@.len(),
            i <= a@.len(),
            forall|k: int| 0 <= k < i ==> a@[k] == b@[k],
        decreases a@.len() - i,
    {
        if a[i] != b[i] {
            return false;
        }
        i = i + 1;
    }
    assert(a@ =~= b@);
    true
}

fn copy_letters(a: &Vec<char>) -> (r: Vec<char>)
    ensures
        r@ == a@,
{
    let mut r: Vec<char> = Vec::new();
    let mut i: usize = 0;
    while i < a.len()
        invariant
            i <= a@.len(),
            r@ == a@.take(i as int),
        decreases a@.len() - i,
    {
        r.push(a[i]);
        i = i + 1;
        assert(r@ =~= a@.take(i as int));
    }
    assert(a@.take(i as int) =~= a@);
    r
}

fn known_letters(l: &Vec<char>) -> (r: bool)
    ensures
        r == all_known(l@),
{
    let mut i: usize = 0;
    while i < l.len()
        invariant
            i <= l@.len(),
            forall|k: int| 0 <= k < i ==> spec_letter_of_char(#[trigger] l@[k]) is Some,
        decreases l@.len() - i,
    {
        if letter_of_char(l[i]).is_none() {
            return false;
        }
        i = i + 1;
    }
    true
}

/// The distinct shapes of each letter string, grouped by letters in
/// order of first appearance (each group's shapes in order of first
/// appearance).
fn group_shapes(recs: &[(Vec<char>, Vec<Placed>)]) -> (r: (Vec<Vec<char>>, Vec<Vec<Vec<Placed>>>))
    ensures
        r.0@.len() == r.1@.len(),
        r.0@.map_values(|l: Vec<char>| l@) == letter_groups(recs_view(recs@)),
        forall|g: int|
            0 <= g < r.1@.len() ==> shapes_view(#[trigger] r.1@[g]@) == first_seen(
                shapes_with(recs_view(recs@), r.0@[g]@, recs@.len() as int),
                shapes_with(recs_view(recs@), r.0@[g]@, recs@.len() as int).len() as int,
            ),
{
    let ghost rv = recs_view(recs@);
    let ghost ls = rv.map_values(|x: (Seq<char>, Seq<Placed>)| x.0);
    let n = recs.len();
    let mut names: Vec<Vec<char>> = Vec::new();
    let mut groups: Vec<Vec<Vec<Placed>>> = Vec::new();
    let mut m: usize = 0;
    while m < n
        invariant
            n == recs@.len(),
            rv == recs_view(recs@),
            ls == rv.map_values(|x: (Seq<char>, Seq<Placed>)| x.0),
            m <= n,
            names@.len() == groups@.len(),
            names@.map_values(|l: Vec<char>| l@) == first_seen(ls, m as int),
            forall|g: int|
                0 <= g < groups@.len() ==> shapes_view(#[trigger] groups@[g]@) == first_seen(
                    shapes_with(rv, names@[g]@, m as int),
                    shapes_with(rv, names@[g]@, m as int).len() as int,
                ),
        decreases n - m,
    {
        let ghost nv0 = names@.map_values(|l: Vec<char>| l@);
        let ghost g0 = groups@;
        let letters = &recs[m].0;
        let glyphs = &recs[m].1;
        proof {
            assert(ls[m as int] == letters@);
            assert(rv[m as int] == (letters@, glyphs@));
        }
        let mut g: usize = 0;
        let mut found = false;
        while g < names.len() && !found
            invariant
                g <= names@.len(),
                nv0 == names@.map_values(|l: Vec<char>| l@),
                found ==> g < names@.len() && names@[g as int]@ == letters@,
                forall|q: int| 0 <= q < g ==> names@[q]@ != letters@,
            decreases names@.len() - g + (if found { 0int } else { 1int }),
        {
            if same_letters(&names[g], letters) {
                found = true;
            } else {
                g = g + 1;
            }
        }
        if !found {
            proof {
                assert(!nv0.contains(letters@)) by {
                    if nv0.contains(letters@) {
                        let w = choose|w: int| 0 <= w < nv0.len() && nv0[w] == letters@;
                        assert(names@[w]@ == nv0[w]);
                    }
                }
            }
            names.push(copy_letters(letters));
            groups.push(Vec::new());
            proof {
                assert(names@.map_values(|l: Vec<char>| l@) =~= nv0.push(letters@));
                let sw = shapes_with(rv, letters@, m as int);
                assert(sw.len() == 0) by {
                    lemma_shapes_with_absent(rv, letters@, m as int);
                }
                assert(shapes_view(groups@[g as int]@) =~= Seq::<Seq<Placed>>::empty());
            }
        } else {
            proof {
                assert(nv0[g as int] == letters@);
                assert(nv0.contains(letters@));
            }
        }
        // the record's group is `g`; add its shape when new
        let ghost gs0 = groups@[g as int]@;
        let ghost sw0 = shapes_with(rv, letters@, m as int);
        let mut k: usize = 0;
        let mut seen = false;
        while k < groups[g].len() && !seen
            invariant
                g < groups@.len(),
                gs0 == groups@[g as int]@,
                k <= gs0.len(),
                seen ==> k < gs0.len() && gs0[k as int]@ == glyphs@,
                forall|q: int| 0 <= q < k ==> gs0[q]@ != glyphs@,
            decreases gs0.len() - k + (if seen { 0int } else { 1int }),
        {
            if same_shape(&groups[g][k], glyphs) {
                seen = true;
            } else {
                k = k + 1;
            }
        }
        let ghost gv0 = shapes_view(gs0);
        proof {
            assert(gv0 == first_seen(sw0, sw0.len() as int));
        }
        if !seen {
            let c = copy_shape(glyphs);
            let mut grp: Vec<Vec<Placed>> = Vec::new();
            std::mem::swap(&mut grp, &mut groups[g]);
            grp.push(c);
            std::mem::swap(&mut grp, &mut groups[g]);
            proof {
                assert(!gv0.contains(glyphs@)) by {
                    if gv0.contains(glyphs@) {
                        let w = choose|w: int| 0 <= w < gv0.len() && gv0[w] == glyphs@;
                        assert(gs0[w]@ == gv0[w]);
                    }
                }
                assert(shapes_view(groups@[g as int]@) =~= gv0.push(glyphs@));
            }
        } else {
            proof {
                assert(gv0[k as int] == gs0[k as int]@);
                assert(gv0.contains(glyphs@));
            }
        }
        proof {
            let sw1 = shapes_with(rv, letters@, m + 1);
            assert(sw1 == sw0.push(glyphs@));
            assert(sw1.drop_last() =~= sw0);
            assert forall|q: int| 0 <= q < groups@.len() implies shapes_view(#[trigger] groups@[q]@) == first_seen(
                shapes_with(rv, names@[q]@, m + 1),
                shapes_with(rv, names@[q]@, m + 1).len() as int,
            ) by {
                if q != g {
                    assert(groups@[q] == g0[q]);
                    assert(names@[q]@ != letters@) by {
                        let nv = names@.map_values(|l: Vec<char>| l@);
                        lemma_first_seen_distinct(ls, m + 1);
                        assert(nv[q] == names@[q]@);
                        assert(nv[g as int] == names@[g as int]@);
                    }
                    assert(shapes_with(rv, names@[q]@, m + 1) == shapes_with(rv, names@[q]@, m as int));
                } else {
                    assert(names@[q]@ == letters@);
                    lemma_first_seen_prefix(sw1, sw0, sw0.len() as int);
                }
            }
        }
        m = m + 1;
    }
    proof {
        assert(rv.len() == n);
    }
    (names, groups)
}

proof fn lemma_shapes_with_absent(recs: Seq<(Seq<char>, Seq<Placed>)>, l: Seq<char>, m: int)
    requires
        0 <= m <= recs.len(),
        !first_seen(recs.map_values(|r: (Seq<char>, Seq<Placed>)| r.0), m).contains(l),
    ensures
        shapes_with(recs, l, m).len() == 0,
    decreases m,
{
    if m > 0 {
        let ls = recs.map_values(|r: (Seq<char>, Seq<Placed>)| r.0);
        lemma_first_seen_distinct(ls, m);
        assert(ls[m - 1] == recs[m - 1].0);
        assert(recs[m - 1].0 != l);
        let p = first_seen(ls, m - 1);
        if p.contains(l) {
            let w = choose|w: int| 0 <= w < p.len() && p[w] == l;
            if !p.contains(ls[m - 1]) {
                assert(p.push(ls[m - 1])[w] == l);
            }
        }
        lemma_shapes_with_absent(recs, l, m - 1);
    }
}


/// The summed variety of the first `k` letter groups.
pub open spec fn total_variety(recs: Seq<(Seq<char>, Seq<Placed>)>, gl: Seq<Seq<char>>, k: int) -> int
    decreases k,
{
    if k <= 0 {
        0
    } else {
        total_variety(recs, gl, k - 1) + variety(recs, gl[k - 1])
    }
}

/// Shape variety per letter string, most varied first (equally varied
/// ones in order of first appearance), with whether each is made of
/// known letters, and the total over all letter strings.
pub fn shape_variety(recs: &[(Vec<char>, Vec<Placed>)]) -> (r: (Vec<LetterShapes>, u128))
    ensures
        ({
            let rv = recs_view(recs@);
            let gl = letter_groups(rv);
            &&& r.0@.len() == gl.len()
            &&& forall|k: int|
                0 <= k < r.0@.len() ==> gl.contains((#[trigger] r.0@[k]).letters@) && r.0@[k].shapes == variety(
                    rv,
                    r.0@[k].letters@,
                ) && r.0@[k].known == all_known(r.0@[k].letters@)
            &&& forall|i: int, j: int|
                0 <= i < j < r.0@.len() ==> (#[trigger] r.0@[i]).shapes > (#[trigger] r.0@[j]).shapes || (
                r.0@[i].shapes == r.0@[j].shapes && exists|a: int, b: int|
                    0 <= a < b < gl.len() && gl[a] == r.0@[i].letters@ && gl[b] == r.0@[j].letters@)
            &&& forall|g: int| 0 <= g < gl.len() ==> exists|k: int| 0 <= k < r.0@.len() && r.0@[k].letters@ == #[trigger] gl[g]
            &&& r.1 == total_variety(rv, gl, gl.len() as int)
        }),
{
    let ghost rv = recs_view(recs@);
    let (names, groups) = group_shapes(recs);
    let ghost gl = letter_groups(rv);
    proof {
        let ls = rv.map_values(|x: (Seq<char>, Seq<Placed>)| x.0);
        lemma_first_seen_distinct(ls, ls.len() as int);
    }
    let ng = names.len();
    let mut keys: Vec<Vec<u64>> = Vec::new();
    let mut total: u128 = 0;
    let mut g: usize = 0;
    while g < ng
        invariant
            ng == names@.len(),
            names@.len() == groups@.len(),
            rv == recs_view(recs@),
            names@.map_values(|l: Vec<char>| l@) == gl,
            forall|q: int|
                0 <= q < groups@.len() ==> shapes_view(#[trigger] groups@[q]@) == first_seen(
                    shapes_with(rv, names@[q]@, rv.len() as int),
                    shapes_with(rv, names@[q]@, rv.len() as int).len() as int,
                ),
            g <= ng,
            keys@.len() == g,
            forall|q: int| 0 <= q < g ==> (#[trigger] keys@[q])@ == seq![(u64::MAX - groups@[q]@.len()) as u64],
            total == total_variety(rv, gl, g as int),
            total <= g * 0x1_0000_0000_0000_0000,
        decreases ng - g,
    {
        proof {
            assert(gl[g as int] == names@[g as int]@);
            assert(shapes_view(groups@[g as int]@).len() == groups@[g as int]@.len());
            lemma_first_seen_len(
                shapes_with(rv, names@[g as int]@, rv.len() as int),
                shapes_with(rv, names@[g as int]@, rv.len() as int).len() as int,
            );
            lemma_shapes_with_len(rv, names@[g as int]@, rv.len() as int);
            assert(groups@[g as int]@.len() <= rv.len());
            assert(g * 0x1_0000_0000_0000_0000 + 0x1_0000_0000_0000_0000 <= 0x1_0000_0000_0000_0000
                * 0x1_0000_0000_0000_0000) by (nonlinear_arith)
                requires
                    g < 0x1_0000_0000_0000_0000,
            ;
        }
        let c = groups[g].len();
        let mut k: Vec<u64> = Vec::new();
        k.push(u64::MAX - c as u64);
        keys.push(k);
        total = total + c as u128;
        g = g + 1;
    }
    let ghost kv = keys_view(keys@);
    proof {
        assert forall|q: int| 0 <= q < kv.len() implies (#[trigger] kv[q]).len() == 1 by {
            assert(kv[q] == keys@[q]@);
        }
        if ng > 0 {
            assert(kv[0] == keys@[0]@);
        }
    }
    let order = sort_rows(&keys);
    let mut out: Vec<LetterShapes> = Vec::new();
    let mut k: usize = 0;
    while k < ng
        invariant
            ng == names@.len(),
            names@.len() == groups@.len(),
            rv == recs_view(recs@),
            names@.map_values(|l: Vec<char>| l@) == gl,
            forall|q: int|
                0 <= q < groups@.len() ==> shapes_view(#[trigger] groups@[q]@) == first_seen(
                    shapes_with(rv, names@[q]@, rv.len() as int),
                    shapes_with(rv, names@[q]@, rv.len() as int).len() as int,
                ),
            kv == keys_view(keys@),
            keys@.len() == ng,
            forall|q: int| 0 <= q < ng ==> (#[trigger] keys@[q])@ == seq![(u64::MAX - groups@[q]@.len()) as u64],
            sorted_range(kv, order@, 0, ng as int),
            k <= ng,
            out@.len() == k,
            forall|q: int| 0 <= q < k ==> (#[trigger] out@[q]).letters@ == names@[order@[q] as int]@ && out@[q].shapes
                == groups@[order@[q] as int]@.len() && out@[q].known == all_known(out@[q].letters@),
        decreases ng - k,
    {
        let gi = order[k];
        let letters = copy_letters(&names[gi]);
        let known = known_letters(&letters);
        out.push(LetterShapes { letters, shapes: groups[gi].len(), known });
        k = k + 1;
    }
    proof {
        assert forall|q: int| 0 <= q < ng implies variety(rv, #[trigger] gl[q]) == groups@[q]@.len() by {
            assert(gl[q] == names@[q]@);
            assert(shapes_view(groups@[q]@).len() == groups@[q]@.len());
        }
        assert forall|kk: int| 0 <= kk < out@.len() implies gl.contains((#[trigger] out@[kk]).letters@) && out@[kk].shapes
            == variety(rv, out@[kk].letters@) && out@[kk].known == all_known(out@[kk].letters@) by {
            let gi = order@[kk] as int;
            assert(gl[gi] == names@[gi]@);
        }
        assert forall|i: int, j: int| 0 <= i < j < out@.len() implies (#[trigger] out@[i]).shapes > (#[trigger] out@[j]).shapes || (
            out@[i].shapes == out@[j].shapes && exists|a: int, b: int|
                0 <= a < b < gl.len() && gl[a] == out@[i].letters@ && gl[b] == out@[j].letters@) by {
            let (x, y) = (order@[i], order@[j]);
            assert(row_before(kv, x, y));
            assert(kv[x as int] == keys@[x as int]@);
            assert(kv[y as int] == keys@[y as int]@);
            reveal_with_fuel(crate::training::lex_lt, 2);
            assert(kv[x as int].drop_first() =~= Seq::<u64>::empty());
            assert(kv[y as int].drop_first() =~= Seq::<u64>::empty());
            assert(gl[x as int] == names@[x as int]@);
            assert(gl[y as int] == names@[y as int]@);
            if out@[i].shapes == out@[j].shapes {
                assert(x < y);
            }
        }
        assert forall|gg: int| 0 <= gg < gl.len() implies exists|kk: int| 0 <= kk < out@.len() && out@[kk].letters@ == #[trigger] gl[gg] by {
            assert(order@.contains(gg as usize));
            let w = choose|w: int| 0 <= w < order@.len() && order@[w] == gg as usize;
            assert(gl[gg] == names@[gg]@);
            assert(out@[w].letters@ == gl[gg]);
        }
    }
    (out, total)
}

proof fn lemma_first_seen_len<T>(s: Seq<T>, m: int)
    requires
        0 <= m <= s.len(),
    ensures
        first_seen(s, m).len() <= m,
    decreases m,
{
    if m > 0 {
        lemma_first_seen_len(s, m - 1);
    }
}

proof fn lemma_shapes_with_len(recs: Seq<(Seq<char>, Seq<Placed>)>, l: Seq<char>, m: int)
    requires
        0 <= m <= recs.len(),
    ensures
        shapes_with(recs, l, m).len() <= m,
    decreases m,
{
    if m > 0 {
        lemma_shapes_with_len(recs, l, m - 1);
    }
}

/// The lowest and highest of the recorded values, starting from
/// (`i32::MAX`, `i32::MIN`) when none is recorded.
pub open spec fn dy_fold(s: Seq<Option<i32>>, m: int) -> (i32, i32)
    decreases m,
{
    if m <= 0 {
        (i32::MAX, i32::MIN)
    } else {
        let (lo, hi) = dy_fold(s, m - 1);
        match s[m - 1] {
            Some(v) => (if v < lo {
                v
            } else {
                lo
            }, if v > hi {
                v
            } else {
                hi
            }),
            None => (lo, hi),
        }
    }
}

/// The range of the recorded vertical displacements (see `dy_fold`).
pub fn dy_range(dys: &[Option<i32>]) -> (r: (i32, i32))
    ensures
        r == dy_fold(dys@, dys@.len() as int),
{
    let mut lo: i32 = i32::MAX;
    let mut hi: i32 = i32::MIN;
    let mut m: usize = 0;
    while m < dys.len()
        invariant
            m <= dys@.len(),
            (lo, hi) == dy_fold(dys@, m as int),
        decreases dys@.len() - m,
    {
        if let Some(v) = dys[m] {
            if v < lo {
                lo = v;
            }
            if v > hi {
                hi = v;
            }
        }
        m = m + 1;
    }
    (lo, hi)
}

} // verus!
