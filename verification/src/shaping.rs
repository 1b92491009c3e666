//! Cluster records from a shaped word.
//!
//! A shaping engine turns a word into glyphs, each with the byte index
//! of the source cluster it belongs to and a position (offset from the
//! pen, and the advance that moves the pen on). This module places the
//! glyphs, groups them by cluster in logical order, and describes each
//! cluster: its glyphs relative to its origin (the first glyph), the
//! characters it covers, its neighbours, and its displacement from the
//! previous cluster's origin, which is the cascade a font learns.
use vstd::prelude::*;

verus! {

/// One glyph as the shaping engine placed it.
#[derive(Clone, Copy, Debug, PartialEq, Eq, Structural)]
pub struct ShapedGlyph {
    pub gid: u32,
    /// Byte index of the first character of the glyph's cluster.
    pub cluster: u32,
    pub x_offset: i32,
    pub y_offset: i32,
    pub x_advance: i32,
}

/// One glyph of a cluster, relative to the cluster origin.
#[derive(Clone, Copy, Debug, PartialEq, Eq, Structural)]
pub struct PlacedGlyph {
    pub gid: u32,
    pub dx: i128,
    pub dy: i128,
}

/// One cluster occurrence within a shaped word.
#[derive(Clone, Debug)]
pub struct ClusterRec {
    /// The characters the cluster covers (usually one; لا is two).
    pub letters: Vec<char>,
    /// Position of the cluster in logical order.
    pub index: usize,
    pub prev: Option<char>,
    pub next: Option<char>,
    pub prev2: Option<char>,
    pub next2: Option<char>,
    /// Base glyph and marks, relative to the cluster origin.
    pub glyphs: Vec<PlacedGlyph>,
    /// Displacement from the previous cluster's origin (none for the
    /// first cluster).
    pub ddx: Option<i128>,
    pub ddy: Option<i128>,
    /// The cluster origin relative to the word origin.
    pub ox: i128,
    pub oy: i128,
}

/// The number of bytes of `c` in UTF-8.
pub open spec fn utf8_len(c: char) -> int {
    if (c as u32) < 0x80 {
        1
    } else if (c as u32) < 0x800 {
        2
    } else if (c as u32) < 0x10000 {
        3
    } else {
        4
    }
}

/// The UTF-8 byte offset of character `i` of `word`.
pub open spec fn byte_offset(word: Seq<char>, i: int) -> int
    decreases i,
{
    if i <= 0 {
        0
    } else {
        byte_offset(word, i - 1) + utf8_len(word[i - 1])
    }
}

/// The pen position before glyph `k`: the sum of the earlier advances.
pub open spec fn pen_before(gs: Seq<ShapedGlyph>, k: int) -> int
    decreases k,
{
    if k <= 0 {
        0
    } else {
        pen_before(gs, k - 1) + gs[k - 1].x_advance
    }
}

/// Where glyph `k` is drawn.
pub open spec fn glyph_pos(gs: Seq<ShapedGlyph>, k: int) -> (int, int) {
    (pen_before(gs, k) + gs[k].x_offset, gs[k].y_offset as int)
}

/// Does some glyph belong to cluster `c`?
pub open spec fn has_cluster(gs: Seq<ShapedGlyph>, c: u32) -> bool {
    exists|k: int| 0 <= k < gs.len() && gs[k].cluster == c
}

/// The cluster keys in logical order: each cluster index once, rising.
pub open spec fn is_cluster_order(gs: Seq<ShapedGlyph>, keys: Seq<u32>) -> bool {
    &&& forall|i: int, j: int| 0 <= i < j < keys.len() ==> keys[i] < keys[j]
    &&& forall|c: u32| keys.contains(c) <==> has_cluster(gs, c)
}

/// The glyphs (among the first `n`) of cluster `c`, in buffer order,
/// with their drawing positions.
pub open spec fn cluster_glyphs(gs: Seq<ShapedGlyph>, c: u32, n: int) -> Seq<(u32, int, int)>
    decreases n,
{
    if n <= 0 {
        Seq::empty()
    } else if gs[n - 1].cluster == c {
        cluster_glyphs(gs, c, n - 1).push(
            (gs[n - 1].gid, glyph_pos(gs, n - 1).0, glyph_pos(gs, n - 1).1),
        )
    } else {
        cluster_glyphs(gs, c, n - 1)
    }
}

/// The characters (among the first `n`) whose byte offset lies in
/// `[a, b)`, in order.
pub open spec fn chars_between(word: Seq<char>, a: int, b: int, n: int) -> Seq<char>
    decreases n,
{
    if n <= 0 {
        Seq::empty()
    } else if a <= byte_offset(word, n - 1) < b {
        chars_between(word, a, b, n - 1).push(word[n - 1])
    } else {
        chars_between(word, a, b, n - 1)
    }
}

/// Element `i` of `s`, if there is one.
pub open spec fn nth(s: Seq<char>, i: int) -> Option<char> {
    if 0 <= i < s.len() {
        Some(s[i])
    } else {
        None
    }
}

/// Is `r` the record of cluster `ci` of the word, given its clusters in
/// logical order?
pub open spec fn is_cluster_record(
    r: ClusterRec,
    word: Seq<char>,
    gs: Seq<ShapedGlyph>,
    keys: Seq<u32>,
    ci: int,
) -> bool {
    let n = word.len() as int;
    let total = byte_offset(word, n);
    let key = keys[ci] as int;
    let end = if ci + 1 < keys.len() {
        keys[ci + 1] as int
    } else {
        total
    };
    let g = cluster_glyphs(gs, keys[ci], gs.len() as int);
    let before = chars_between(word, 0, key, n);
    let after = chars_between(word, end, total + 1, n);
    let ox = g[0].1;
    let oy = g[0].2;
    let prev_g = cluster_glyphs(gs, keys[ci - 1], gs.len() as int);
    &&& r.letters@ == chars_between(word, key, end, n)
    &&& r.index == ci
    &&& r.prev == nth(before, before.len() - 1)
    &&& r.prev2 == nth(before, before.len() - 2)
    &&& r.next == nth(after, 0)
    &&& r.next2 == nth(after, 1)
    &&& r.glyphs@.len() == g.len()
    &&& forall|i: int|
        0 <= i < g.len() ==> (#[trigger] r.glyphs@[i]).gid == g[i].0 && r.glyphs@[i].dx == g[i].1
            - ox && r.glyphs@[i].dy == g[i].2 - oy
    &&& r.ox == ox
    &&& r.oy == oy
    &&& (ci == 0 ==> r.ddx is None && r.ddy is None)
    &&& (ci > 0 ==> r.ddx == Some((ox - prev_g[0].1) as i128) && r.ddy == Some(
        (oy - prev_g[0].2) as i128,
    ))
}

proof fn lemma_byte_offset_bounds(word: Seq<char>, i: int)
    requires
        0 <= i <= word.len(),
    ensures
        i <= byte_offset(word, i) <= 4 * i,
    decreases i,
{
    if i > 0 {
        lemma_byte_offset_bounds(word, i - 1);
    }
}

/// The UTF-8 byte offset of each character, and the word's byte length.
pub fn byte_offsets(word: &[char]) -> (r: (Vec<usize>, usize))
    requires
        4 * word@.len() <= usize::MAX,
    ensures
        r.0@.len() == word@.len(),
        forall|i: int| 0 <= i < word@.len() ==> #[trigger] r.0@[i] == byte_offset(word@, i),
        r.1 == byte_offset(word@, word@.len() as int),
{
    let n = word.len();
    let mut out: Vec<usize> = Vec::new();
    let mut off: usize = 0;
    let mut i: usize = 0;
    while i < n
        invariant
            n == word@.len(),
            4 * n <= usize::MAX,
            i <= n,
            out@.len() == i,
            off == byte_offset(word@, i as int),
            forall|j: int| 0 <= j < i ==> #[trigger] out@[j] == byte_offset(word@, j),
        decreases n - i,
    {
        proof {
            lemma_byte_offset_bounds(word@, i as int);
        }
        out.push(off);
        let c = word[i] as u32;
        let len: usize = if c < 0x80 {
            1
        } else if c < 0x800 {
            2
        } else if c < 0x10000 {
            3
        } else {
            4
        };
        off = off + len;
        i = i + 1;
    }
    (out, off)
}

proof fn lemma_pen_bounds(gs: Seq<ShapedGlyph>, k: int)
    requires
        0 <= k <= gs.len(),
    ensures
        -k * 0x8000_0000 <= pen_before(gs, k) <= k * 0x8000_0000,
    decreases k,
{
    if k > 0 {
        lemma_pen_bounds(gs, k - 1);
    }
}

/// Where each glyph is drawn: the pen starts at 0 and moves on by each
/// glyph's advance; a glyph sits at the pen plus its offset.
pub fn glyph_positions(gs: &[ShapedGlyph]) -> (r: Vec<(i128, i128)>)
    ensures
        r@.len() == gs@.len(),
        forall|k: int|
            0 <= k < gs@.len() ==> (#[trigger] r@[k]).0 == glyph_pos(gs@, k).0 && r@[k].1
                == glyph_pos(gs@, k).1,
{
    let n = gs.len();
    let mut out: Vec<(i128, i128)> = Vec::new();
    let mut pen: i128 = 0;
    let mut k: usize = 0;
    while k < n
        invariant
            n == gs@.len(),
            k <= n,
            out@.len() == k,
            pen == pen_before(gs@, k as int),
            forall|j: int|
                0 <= j < k ==> (#[trigger] out@[j]).0 == glyph_pos(gs@, j).0 && out@[j].1
                    == glyph_pos(gs@, j).1,
        decreases n - k,
    {
        proof {
            lemma_pen_bounds(gs@, k as int);
            lemma_pen_bounds(gs@, k + 1);
            assert((k + 1) * 0x8000_0000 <= 0x1_0000_0000_0000_0000 * 0x8000_0000) by (nonlinear_arith)
                requires
                    k + 1 <= 0x1_0000_0000_0000_0000,
            ;
        }
        let g = gs[k];
        out.push((pen + g.x_offset as i128, g.y_offset as i128));
        pen = pen + g.x_advance as i128;
        k = k + 1;
    }
    out
}

/// Insert `c` into a strictly rising list, unless it is there already.
fn insert_key(keys: &mut Vec<u32>, c: u32)
    requires
        forall|i: int, j: int| 0 <= i < j < old(keys)@.len() ==> old(keys)@[i] < old(keys)@[j],
    ensures
        forall|i: int, j: int| 0 <= i < j < final(keys)@.len() ==> final(keys)@[i] < final(keys)@[j],
        forall|v: u32| final(keys)@.contains(v) <==> (old(keys)@.contains(v) || v == c),
{
    let ghost old_keys = keys@;
    let n = keys.len();
    let mut i: usize = 0;
    while i < n && keys[i] < c
        invariant
            keys@ == old_keys,
            n == keys@.len(),
            i <= n,
            forall|j: int| 0 <= j < i ==> keys@[j] < c,
        decreases n - i,
    {
        i = i + 1;
    }
    if i < n && keys[i] == c {
        assert(keys@[i as int] == c);
        assert(keys@.contains(c));
        return;
    }
    keys.insert(i, c);
    proof {
        assert forall|v: u32| keys@.contains(v) <==> (old_keys.contains(v) || v == c) by {
            if keys@.contains(v) {
                let j = choose|j: int| 0 <= j < keys@.len() && keys@[j] == v;
                if j < i {
                    assert(old_keys[j] == v);
                } else if j > i {
                    assert(old_keys[j - 1] == v);
                }
            }
            if old_keys.contains(v) {
                let j = choose|j: int| 0 <= j < old_keys.len() && old_keys[j] == v;
                if j < i {
                    assert(keys@[j] == v);
                } else {
                    assert(keys@[j + 1] == v);
                }
            }
            if v == c {
                assert(keys@[i as int] == v);
            }
        }
        assert(forall|v: u32| keys@.contains(v) <==> (old_keys.contains(v) || v == c));
        assert(old_keys == old(keys)@);
        assert(forall|v: u32| keys@.contains(v) <==> (old(keys)@.contains(v) || v == c));
    }
}

/// The clusters of a shaped word in logical order: each cluster index
/// once, rising.
pub fn cluster_order(gs: &[ShapedGlyph]) -> (r: Vec<u32>)
    ensures
        is_cluster_order(gs@, r@),
{
    let mut keys: Vec<u32> = Vec::new();
    let mut k: usize = 0;
    while k < gs.len()
        invariant
            k <= gs@.len(),
            forall|i: int, j: int| 0 <= i < j < keys@.len() ==> keys@[i] < keys@[j],
            forall|c: u32|
                keys@.contains(c) <==> exists|j: int| 0 <= j < k && gs@[j].cluster == c,
        decreases gs@.len() - k,
    {
        insert_key(&mut keys, gs[k].cluster);
        proof {
            assert forall|c: u32|
                keys@.contains(c) <==> exists|j: int| 0 <= j < k + 1 && gs@[j].cluster == c by {
                if c == gs@[k as int].cluster {
                    assert(exists|j: int| 0 <= j < k + 1 && gs@[j].cluster == c);
                }
                if exists|j: int| 0 <= j < k + 1 && gs@[j].cluster == c {
                    let j = choose|j: int| 0 <= j < k + 1 && gs@[j].cluster == c;
                    if j < k {
                        assert(exists|j: int| 0 <= j < k && gs@[j].cluster == c);
                    }
                }
            }
        }
        k = k + 1;
    }
    keys
}

/// The characters whose byte offset lies in `[a, b)`, in order.
fn chars_in_range(word: &[char], offs: &Vec<usize>, a: usize, b: usize) -> (r: Vec<char>)
    requires
        offs@.len() == word@.len(),
        forall|i: int| 0 <= i < word@.len() ==> #[trigger] offs@[i] == byte_offset(word@, i),
    ensures
        r@ == chars_between(word@, a as int, b as int, word@.len() as int),
{
    let n = word.len();
    let mut out: Vec<char> = Vec::new();
    let mut i: usize = 0;
    while i < n
        invariant
            n == word@.len(),
            offs@.len() == n,
            forall|j: int| 0 <= j < n ==> #[trigger] offs@[j] == byte_offset(word@, j),
            i <= n,
            out@ == chars_between(word@, a as int, b as int, i as int),
        decreases n - i,
    {
        if a <= offs[i] && offs[i] < b {
            out.push(word[i]);
        }
        i = i + 1;
    }
    out
}

fn nth_char(s: &Vec<char>, i: usize) -> (r: Option<char>)
    ensures
        r == nth(s@, i as int),
{
    if i < s.len() {
        Some(s[i])
    } else {
        None
    }
}

/// The glyphs of cluster `c`, in buffer order, with their positions.
fn glyphs_of_cluster(gs: &[ShapedGlyph], pos: &Vec<(i128, i128)>, c: u32) -> (r: Vec<(u32, i128, i128)>)
    requires
        pos@.len() == gs@.len(),
        forall|k: int|
            0 <= k < gs@.len() ==> (#[trigger] pos@[k]).0 == glyph_pos(gs@, k).0 && pos@[k].1
                == glyph_pos(gs@, k).1,
    ensures
        r@.map_values(|t: (u32, i128, i128)| (t.0, t.1 as int, t.2 as int)) == cluster_glyphs(
            gs@,
            c,
            gs@.len() as int,
        ),
{
    let n = gs.len();
    let mut out: Vec<(u32, i128, i128)> = Vec::new();
    let mut k: usize = 0;
    while k < n
        invariant
            n == gs@.len(),
            pos@.len() == n,
            forall|j: int|
                0 <= j < n ==> (#[trigger] pos@[j]).0 == glyph_pos(gs@, j).0 && pos@[j].1
                    == glyph_pos(gs@, j).1,
            k <= n,
            out@.map_values(|t: (u32, i128, i128)| (t.0, t.1 as int, t.2 as int)) == cluster_glyphs(
                gs@,
                c,
                k as int,
            ),
        decreases n - k,
    {
        if gs[k].cluster == c {
            let ghost before = out@;
            out.push((gs[k].gid, pos[k].0, pos[k].1));
            assert(out@.map_values(|t: (u32, i128, i128)| (t.0, t.1 as int, t.2 as int)) =~= before.map_values(
                |t: (u32, i128, i128)| (t.0, t.1 as int, t.2 as int),
            ).push((gs@[k as int].gid, glyph_pos(gs@, k as int).0, glyph_pos(gs@, k as int).1)));
        }
        k = k + 1;
    }
    out
}

proof fn lemma_cluster_nonempty(gs: Seq<ShapedGlyph>, c: u32, n: int, k: int)
    requires
        0 <= k < n <= gs.len(),
        gs[k].cluster == c,
    ensures
        cluster_glyphs(gs, c, n).len() > 0,
    decreases n,
{
    if k < n - 1 {
        lemma_cluster_nonempty(gs, c, n - 1, k);
    }
}

proof fn lemma_pos_bounds(gs: Seq<ShapedGlyph>, k: int)
    requires
        0 <= k < gs.len(),
        gs.len() <= usize::MAX,
    ensures
        -0x1_0000_0000_0000_0000_0000_0000 <= glyph_pos(gs, k).0 <= 0x1_0000_0000_0000_0000_0000_0000,
        -0x8000_0000 <= glyph_pos(gs, k).1 < 0x8000_0000,
{
    lemma_pen_bounds(gs, k);
    assert(k * 0x8000_0000 <= 0x1_0000_0000_0000_0000 * 0x8000_0000) by (nonlinear_arith)
        requires
            0 <= k <= 0x1_0000_0000_0000_0000,
    ;
}

/// The members of cluster `c` (among the first `n` glyphs) are all
/// drawn within the bounds of `lemma_pos_bounds`.
proof fn lemma_cluster_glyph_bounds(gs: Seq<ShapedGlyph>, c: u32, n: int)
    requires
        0 <= n <= gs.len(),
        gs.len() <= usize::MAX,
    ensures
        forall|i: int|
            0 <= i < cluster_glyphs(gs, c, n).len() ==> -0x1_0000_0000_0000_0000_0000_0000 <= (
            #[trigger] cluster_glyphs(gs, c, n)[i]).1 <= 0x1_0000_0000_0000_0000_0000_0000 && -0x8000_0000
                <= cluster_glyphs(gs, c, n)[i].2 < 0x8000_0000,
    decreases n,
{
    if n > 0 {
        lemma_cluster_glyph_bounds(gs, c, n - 1);
        lemma_pos_bounds(gs, n - 1);
        let p = cluster_glyphs(gs, c, n - 1);
        let q = cluster_glyphs(gs, c, n);
        if gs[n - 1].cluster == c {
            assert forall|i: int|
                0 <= i < q.len() implies -0x1_0000_0000_0000_0000_0000_0000 <= (#[trigger] q[i]).1
                <= 0x1_0000_0000_0000_0000_0000_0000 && -0x8000_0000 <= q[i].2 < 0x8000_0000 by {
                if i < p.len() {
                    assert(q[i] == p[i]);
                }
            }
        }
    }
}

/// Describe each cluster of a shaped word: `word` is the source text,
/// `gs` the shaping engine's glyphs in buffer order.
pub fn extract_clusters(word: &[char], gs: &[ShapedGlyph]) -> (r: Vec<ClusterRec>)
    requires
        4 * word@.len() < usize::MAX,
    ensures
        word_records(r@, word@, gs@),
{
    assert(gs@.len() == gs.len());
    let (offs, total) = byte_offsets(word);
    let pos = glyph_positions(gs);
    let keys = cluster_order(gs);
    let nk = keys.len();
    let mut out: Vec<ClusterRec> = Vec::new();
    let mut prev_origin: (i128, i128) = (0, 0);
    let mut ci: usize = 0;
    while ci < nk
        invariant
            nk == keys@.len(),
            is_cluster_order(gs@, keys@),
            4 * word@.len() < usize::MAX,
            gs@.len() <= usize::MAX,
            offs@.len() == word@.len(),
            forall|i: int| 0 <= i < word@.len() ==> #[trigger] offs@[i] == byte_offset(word@, i),
            total == byte_offset(word@, word@.len() as int),
            pos@.len() == gs@.len(),
            forall|k: int|
                0 <= k < gs@.len() ==> (#[trigger] pos@[k]).0 == glyph_pos(gs@, k).0 && pos@[k].1
                    == glyph_pos(gs@, k).1,
            ci <= nk,
            out@.len() == ci,
            ci > 0 ==> -0x1_0000_0000_0000_0000_0000_0000 <= prev_origin.0 <= 0x1_0000_0000_0000_0000_0000_0000
                && -0x8000_0000 <= prev_origin.1 < 0x8000_0000,
            ci > 0 ==> prev_origin.0 == cluster_glyphs(gs@, keys@[ci - 1], gs@.len() as int)[0].1
                && prev_origin.1 == cluster_glyphs(gs@, keys@[ci - 1], gs@.len() as int)[0].2,
            forall|j: int|
                0 <= j < ci ==> is_cluster_record(#[trigger] out@[j], word@, gs@, keys@, j),
        decreases nk - ci,
    {
        let key = keys[ci];
        let end: usize = if ci + 1 < nk {
            keys[ci + 1] as usize
        } else {
            total
        };
        proof {
            lemma_byte_offset_bounds(word@, word@.len() as int);
            assert(keys@.contains(key));
            let k = choose|k: int| 0 <= k < gs@.len() && gs@[k].cluster == key;
            lemma_cluster_nonempty(gs@, key, gs@.len() as int, k);
            lemma_cluster_glyph_bounds(gs@, key, gs@.len() as int);
        }
        let group = glyphs_of_cluster(gs, &pos, key);
        let ghost gview = cluster_glyphs(gs@, key, gs@.len() as int);
        assert(group@.len() == gview.len());
        assert(group@[0].1 == gview[0].1);
        let bx = group[0].1;
        let by = group[0].2;
        let mut rel: Vec<PlacedGlyph> = Vec::new();
        let mut g: usize = 0;
        while g < group.len()
            invariant
                group@.map_values(|t: (u32, i128, i128)| (t.0, t.1 as int, t.2 as int)) == gview,
                g <= group@.len(),
                group@.len() > 0,
                bx == gview[0].1,
                by == gview[0].2,
                forall|i: int|
                    0 <= i < gview.len() ==> -0x1_0000_0000_0000_0000_0000_0000 <= (#[trigger] gview[i]).1
                        <= 0x1_0000_0000_0000_0000_0000_0000 && -0x8000_0000 <= gview[i].2 < 0x8000_0000,
                rel@.len() == g,
                forall|i: int|
                    0 <= i < g ==> (#[trigger] rel@[i]).gid == gview[i].0 && rel@[i].dx == gview[i].1
                        - bx && rel@[i].dy == gview[i].2 - by,
            decreases group@.len() - g,
        {
            let t = group[g];
            assert(gview[g as int] == (t.0, t.1 as int, t.2 as int));
            rel.push(PlacedGlyph { gid: t.0, dx: t.1 - bx, dy: t.2 - by });
            g = g + 1;
        }
        let letters = chars_in_range(word, &offs, key as usize, end);
        let before = chars_in_range(word, &offs, 0, key as usize);
        let after = chars_in_range(word, &offs, end, total + 1);
        let nb = before.len();
        let prev = if nb >= 1 {
            nth_char(&before, nb - 1)
        } else {
            None
        };
        let prev2 = if nb >= 2 {
            nth_char(&before, nb - 2)
        } else {
            None
        };
        let next = nth_char(&after, 0);
        let next2 = nth_char(&after, 1);
        let (ddx, ddy): (Option<i128>, Option<i128>) = if ci > 0 {
            (Some(bx - prev_origin.0), Some(by - prev_origin.1))
        } else {
            (None, None)
        };
        let rec = ClusterRec {
            letters,
            index: ci,
            prev,
            next,
            prev2,
            next2,
            glyphs: rel,
            ddx,
            ddy,
            ox: bx,
            oy: by,
        };
        assert(is_cluster_record(rec, word@, gs@, keys@, ci as int));
        out.push(rec);
        prev_origin = (bx, by);
        ci = ci + 1;
    }
    assert(is_cluster_order(gs@, keys@) && out@.len() == keys@.len() && forall|ci: int|
        0 <= ci < keys@.len() ==> is_cluster_record(#[trigger] out@[ci], word@, gs@, keys@, ci));
    out
}

/// The distinct values of `vals`, rising (the glyph ids a corpus used,
/// in the order their outlines are written).
pub fn distinct_sorted(vals: &[u32]) -> (r: Vec<u32>)
    ensures
        forall|i: int, j: int| 0 <= i < j < r@.len() ==> r@[i] < r@[j],
        forall|v: u32| r@.contains(v) <==> vals@.contains(v),
{
    let mut keys: Vec<u32> = Vec::new();
    let mut k: usize = 0;
    while k < vals.len()
        invariant
            k <= vals@.len(),
            forall|i: int, j: int| 0 <= i < j < keys@.len() ==> keys@[i] < keys@[j],
            forall|v: u32| keys@.contains(v) <==> vals@.take(k as int).contains(v),
        decreases vals@.len() - k,
    {
        insert_key(&mut keys, vals[k]);
        proof {
            let a = vals@.take(k as int);
            let b = vals@.take(k + 1);
            assert(b == a.push(vals@[k as int]));
            assert forall|v: u32| b.contains(v) <==> (a.contains(v) || v == vals@[k as int]) by {
                if b.contains(v) && v != vals@[k as int] {
                    let i = choose|i: int| 0 <= i < b.len() && b[i] == v;
                    assert(a[i] == v);
                }
                if a.contains(v) {
                    let i = choose|i: int| 0 <= i < a.len() && a[i] == v;
                    assert(b[i] == v);
                }
                if v == vals@[k as int] {
                    assert(b[k as int] == v);
                }
            }
        }
        k = k + 1;
    }
    assert(vals@.take(vals@.len() as int) == vals@);
    keys
}

/// Records of every cluster of a word, in logical order.
pub open spec fn word_records(r: Seq<ClusterRec>, word: Seq<char>, gs: Seq<ShapedGlyph>) -> bool {
    exists|keys: Seq<u32>|
        is_cluster_order(gs, keys) && r.len() == keys.len() && forall|ci: int|
            0 <= ci < keys.len() ==> is_cluster_record(#[trigger] r[ci], word, gs, keys, ci)
}

/// The displacement chain is the cascade: each cluster's origin is the
/// previous cluster's origin moved by its displacement, so the first
/// origin plus the displacements so far gives every origin.
pub proof fn lemma_displacement_chain(r: Seq<ClusterRec>, word: Seq<char>, gs: Seq<ShapedGlyph>, ci: int)
    requires
        word_records(r, word, gs),
        0 < ci < r.len(),
    ensures
        r[ci].ddx == Some((r[ci].ox - r[ci - 1].ox) as i128),
        r[ci].ddy == Some((r[ci].oy - r[ci - 1].oy) as i128),
        r[0].ddx is None && r[0].ddy is None,
{
    let keys = choose|keys: Seq<u32>|
        is_cluster_order(gs, keys) && r.len() == keys.len() && forall|ci: int|
            0 <= ci < keys.len() ==> is_cluster_record(#[trigger] r[ci], word, gs, keys, ci);
    assert(is_cluster_record(r[ci], word, gs, keys, ci));
    assert(is_cluster_record(r[ci - 1], word, gs, keys, ci - 1));
    assert(is_cluster_record(r[0], word, gs, keys, 0));
}

/// The glyphs a shaping engine makes of `text` with the font held in
/// `font`: (glyph id, cluster byte index, x offset, y offset, x advance)
/// in buffer order; `None` when the font cannot be read or the text
/// cannot be shaped.
pub uninterp spec fn harfrust_shape(font: Seq<u8>, text: Seq<char>) -> Option<
    Seq<(u32, u32, i32, i32, i32)>,
>;

/// Glyph tuples as shaped glyphs.
pub open spec fn as_glyphs(t: Seq<(u32, u32, i32, i32, i32)>) -> Seq<ShapedGlyph> {
    t.map_values(
        |g: (u32, u32, i32, i32, i32)|
            ShapedGlyph { gid: g.0, cluster: g.1, x_offset: g.2, y_offset: g.3, x_advance: g.4 },
    )
}

/// Shapes text with harfrust.
///
/// Reads the font (face 0) with `harfrust::Font::new`, prepares it with
/// `ShaperFont::new`, fills a `Buffer` with the text, lets it guess
/// direction, script and language, and calls `harfrust::shape` with
/// default options; the result is each glyph's id, cluster, offsets and
/// advance. The contract only names that result (`harfrust_shape`), a
/// function of the font bytes and the text: `None` when the font does
/// not parse or shaping reports an error.
#[verifier::external_body]
fn shape_text(font: &'static [u8], text: &[char]) -> (r: Option<Vec<ShapedGlyph>>)
    ensures
        match r {
            Some(v) => harfrust_shape(font@, text@) matches Some(t) && as_glyphs(t) == v@,
            None => harfrust_shape(font@, text@) is None,
        },
{
    let face = harfrust::Font::new(font, 0)?;
    let shaper = harfrust::ShaperFont::new(&face);
    let mut buf = harfrust::Buffer::new();
    buf.push_str(&text.iter().collect::<String>());
    buf.guess_segment_properties();
    harfrust::shape(&shaper, &mut buf, harfrust::ShapeOptions::new()).ok()?;
    let pos = buf.glyph_positions();
    Some(buf.glyph_infos().iter().zip(pos).map(|(i, p)| ShapedGlyph {
        gid: i.glyph_id, cluster: i.cluster, x_offset: p.x_offset, y_offset: p.y_offset,
        x_advance: p.x_advance,
    }).collect())
}

/// Shape one word with the font and describe its clusters; `None` when
/// the font cannot shape it.
pub fn extract_word(font: &'static [u8], word: &[char]) -> (r: Option<Vec<ClusterRec>>)
    requires
        4 * word@.len() < usize::MAX,
    ensures
        match harfrust_shape(font@, word@) {
            None => r is None,
            Some(t) => r matches Some(recs) && word_records(recs@, word@, as_glyphs(t)),
        },
{
    match shape_text(font, word) {
        None => None,
        Some(gs) => Some(extract_clusters(word, gs.as_slice())),
    }
}

/// Shape a text and place its glyphs, in buffer order: `None` when the
/// font cannot shape it.
pub fn shape_and_place(font: &'static [u8], text: &[char]) -> (r: Option<(Vec<ShapedGlyph>, Vec<(i128, i128)>)>)
    ensures
        match harfrust_shape(font@, text@) {
            None => r is None,
            Some(t) => r matches Some(p) && p.0@ == as_glyphs(t) && p.1@.len() == t.len() && forall|k: int|
                0 <= k < t.len() ==> (#[trigger] p.1@[k]).0 == glyph_pos(as_glyphs(t), k).0
                    && p.1@[k].1 == glyph_pos(as_glyphs(t), k).1,
        },
{
    match shape_text(font, text) {
        None => None,
        Some(gs) => {
            let pos = glyph_positions(&gs);
            Some((gs, pos))
        },
    }
}

/// The maximal runs of equal values in `cl[..m]`, as index ranges.
pub open spec fn runs(cl: Seq<u32>, m: int) -> Seq<(int, int)>
    decreases m,
{
    if m <= 0 {
        seq![]
    } else {
        let p = runs(cl, m - 1);
        if m >= 2 && cl[m - 1] == cl[m - 2] {
            p.update(p.len() - 1, (p.last().0, m))
        } else {
            p.push((m - 1, m))
        }
    }
}

proof fn lemma_runs_nonempty(cl: Seq<u32>, m: int)
    requires
        m >= 1,
    ensures
        runs(cl, m).len() >= 1,
        runs(cl, m).last().1 == m,
    decreases m,
{
    if m >= 2 {
        lemma_runs_nonempty(cl, m - 1);
    }
}

/// The clusters of shaped glyphs in buffer order: the index ranges of
/// maximal runs of glyphs with one cluster value.
pub fn cluster_runs(gs: &[ShapedGlyph]) -> (r: Vec<(usize, usize)>)
    ensures
        r@.map_values(|p: (usize, usize)| (p.0 as int, p.1 as int)) == runs(
            gs@.map_values(|g: ShapedGlyph| g.cluster),
            gs@.len() as int,
        ),
{
    let ghost cl = gs@.map_values(|g: ShapedGlyph| g.cluster);
    let mut out: Vec<(usize, usize)> = Vec::new();
    let mut m: usize = 0;
    while m < gs.len()
        invariant
            m <= gs@.len(),
            cl == gs@.map_values(|g: ShapedGlyph| g.cluster),
            out@.map_values(|p: (usize, usize)| (p.0 as int, p.1 as int)) == runs(cl, m as int),
            forall|k: int| 0 <= k < out@.len() ==> (#[trigger] out@[k]).1 <= m,
        decreases gs@.len() - m,
    {
        let ghost before = out@.map_values(|p: (usize, usize)| (p.0 as int, p.1 as int));
        if m >= 1 && gs[m].cluster == gs[m - 1].cluster {
            proof {
                lemma_runs_nonempty(cl, m as int);
            }
            let last = out.len() - 1;
            let start = out[last].0;
            out.set(last, (start, m + 1));
            assert(out@.map_values(|p: (usize, usize)| (p.0 as int, p.1 as int)) =~= before.update(
                before.len() - 1,
                (before.last().0, m + 1),
            ));
        } else {
            out.push((m, m + 1));
            assert(out@.map_values(|p: (usize, usize)| (p.0 as int, p.1 as int)) =~= before.push(
                (m as int, m + 1),
            ));
        }
        m = m + 1;
    }
    out
}


/// Cluster runs partition the glyphs: they start at 0, end at the last
/// glyph, follow one another without gap, are never empty, hold one
/// cluster value each, and neighbouring runs differ in it.
pub proof fn lemma_runs_partition(cl: Seq<u32>, m: int)
    requires
        0 <= m <= cl.len(),
    ensures
        m == 0 ==> runs(cl, m).len() == 0,
        m > 0 ==> runs(cl, m).len() > 0 && runs(cl, m)[0].0 == 0 && runs(cl, m).last().1 == m,
        forall|k: int| 0 <= k < runs(cl, m).len() ==> (#[trigger] runs(cl, m)[k]).0 < runs(cl, m)[k].1,
        forall|k: int| 0 <= k < runs(cl, m).len() - 1 ==> (#[trigger] runs(cl, m)[k]).1 == runs(cl, m)[k + 1].0,
        forall|k: int, i: int|
            0 <= k < runs(cl, m).len() && (#[trigger] runs(cl, m)[k]).0 <= i < runs(cl, m)[k].1 ==> #[trigger] cl[i]
                == cl[runs(cl, m)[k].0],
        forall|k: int|
            1 <= k < runs(cl, m).len() ==> cl[(#[trigger] runs(cl, m)[k]).0] != cl[runs(cl, m)[k].0 - 1],
    decreases m,
{
    if m > 0 {
        lemma_runs_partition(cl, m - 1);
        let p = runs(cl, m - 1);
        let r = runs(cl, m);
        if m >= 2 && cl[m - 1] == cl[m - 2] {
            assert(r.len() == p.len());
            assert forall|k: int, i: int| 0 <= k < r.len() && (#[trigger] r[k]).0 <= i < r[k].1 implies #[trigger] cl[i]
                == cl[r[k].0] by {
                if k == r.len() - 1 && i == m - 1 {
                    assert(cl[i - 1] == cl[r[k].0] || i - 1 < r[k].0);
                }
            }
        }
    }
}

/// The records' letters, concatenated in order.
pub open spec fn all_letters(r: Seq<ClusterRec>) -> Seq<char>
    decreases r.len(),
{
    if r.len() == 0 {
        Seq::empty()
    } else {
        all_letters(r.drop_last()) + r.last().letters@
    }
}

proof fn lemma_offset_rises(word: Seq<char>, i: int, j: int)
    requires
        0 <= i < j,
    ensures
        byte_offset(word, i) < byte_offset(word, j),
    decreases j,
{
    if i < j - 1 {
        lemma_offset_rises(word, i, j - 1);
    }
}

proof fn lemma_between_none_below(word: Seq<char>, a: int, b: int, m: int)
    requires
        forall|k: int| 0 <= k < m ==> byte_offset(word, k) < a,
    ensures
        chars_between(word, a, b, m) == Seq::<char>::empty(),
    decreases m,
{
    if m > 0 {
        lemma_between_none_below(word, a, b, m - 1);
    }
}

proof fn lemma_between_split(word: Seq<char>, a: int, b: int, c: int, m: int)
    requires
        a <= b,
        0 <= m,
    ensures
        chars_between(word, a, b, m) + chars_between(word, b, c, m) == chars_between(
            word,
            a,
            if b < c { c } else { b },
            m,
        ),
    decreases m,
{
    if m > 0 {
        lemma_between_split(word, a, b, c, m - 1);
        let o = byte_offset(word, m - 1);
        let x = chars_between(word, a, b, m - 1);
        let y = chars_between(word, b, c, m - 1);
        if b <= o < c {
            assert(x + y.push(word[m - 1]) =~= (x + y).push(word[m - 1]));
        } else if a <= o < b {
            assert forall|k: int| 0 <= k < m - 1 implies byte_offset(word, k) < b by {
                lemma_offset_rises(word, k, m - 1);
            }
            lemma_between_none_below(word, b, c, m - 1);
            assert(x.push(word[m - 1]) + y =~= (x + y).push(word[m - 1]));
        }
    }
}

proof fn lemma_between_all(word: Seq<char>, x: int, m: int)
    requires
        0 <= m <= word.len(),
        x >= byte_offset(word, word.len() as int),
    ensures
        chars_between(word, 0, x, m) == word.take(m),
    decreases m,
{
    if m > 0 {
        lemma_between_all(word, x, m - 1);
        lemma_byte_offset_bounds(word, m - 1);
        if m < word.len() {
            lemma_offset_rises(word, m - 1, word.len() as int);
        } else {
            lemma_offset_rises(word, m - 1, m);
        }
        assert(word.take(m - 1).push(word[m - 1]) =~= word.take(m));
    }
}

proof fn lemma_between_empty_range(word: Seq<char>, a: int, b: int, m: int)
    requires
        b <= a,
    ensures
        chars_between(word, a, b, m) == Seq::<char>::empty(),
    decreases m,
{
    if m > 0 {
        lemma_between_empty_range(word, a, b, m - 1);
    }
}

proof fn lemma_letters_upto(r: Seq<ClusterRec>, word: Seq<char>, gs: Seq<ShapedGlyph>, keys: Seq<u32>, j: int)
    requires
        is_cluster_order(gs, keys),
        r.len() == keys.len(),
        forall|ci: int| 0 <= ci < keys.len() ==> is_cluster_record(#[trigger] r[ci], word, gs, keys, ci),
        0 <= j < keys.len(),
    ensures
        all_letters(r.take(j)) == chars_between(word, keys[0] as int, keys[j] as int, word.len() as int),
    decreases j,
{
    let n = word.len() as int;
    if j == 0 {
        assert(r.take(0) =~= Seq::<ClusterRec>::empty());
        lemma_between_empty_range(word, keys[0] as int, keys[0] as int, n);
    } else {
        lemma_letters_upto(r, word, gs, keys, j - 1);
        assert(is_cluster_record(r[j - 1], word, gs, keys, j - 1));
        assert(r.take(j).drop_last() =~= r.take(j - 1));
        if j - 1 > 0 {
            assert(keys[0] < keys[j - 1]);
        }
        assert(keys[j - 1] < keys[j]);
        lemma_between_split(word, keys[0] as int, keys[j - 1] as int, keys[j] as int, n);
    }
}

/// The records of a word spell it: their letters, in order, are the
/// word's characters, where some glyph belongs to the cluster at the
/// word's first byte (as every shaping of a non-empty word has one).
pub proof fn lemma_records_spell_word(r: Seq<ClusterRec>, word: Seq<char>, gs: Seq<ShapedGlyph>)
    requires
        word_records(r, word, gs),
        has_cluster(gs, 0),
    ensures
        all_letters(r) == word,
{
    let keys = choose|keys: Seq<u32>|
        is_cluster_order(gs, keys) && r.len() == keys.len() && forall|ci: int|
            0 <= ci < keys.len() ==> is_cluster_record(#[trigger] r[ci], word, gs, keys, ci);
    let n = word.len() as int;
    let total = byte_offset(word, n);
    assert(keys.contains(0u32));
    let z = choose|i: int| 0 <= i < keys.len() && keys[i] == 0u32;
    assert(keys[0] == 0u32) by {
        if z > 0 {
            assert(keys[0] < keys[z]);
        }
    }
    let last = keys.len() - 1;
    lemma_letters_upto(r, word, gs, keys, last);
    assert(is_cluster_record(r[last], word, gs, keys, last));
    assert(r.drop_last() =~= r.take(last));
    lemma_between_split(word, 0, keys[last] as int, total, n);
    let x = if keys[last] < total { total } else { keys[last] as int };
    lemma_between_all(word, x, n);
    assert(word.take(n) =~= word);
}

} // verus!
