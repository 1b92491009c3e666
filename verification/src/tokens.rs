//! Outline tokens: decoding a model's token stream back into drawing
//! commands. Coordinates are chained deltas in quantization steps; a
//! delta token `d<v>` with `|v| >= DMAX` continues into the next one.
use vstd::prelude::*;

use crate::text::{chars_of, parse_i64, push_char, push_decimal_nat, spec_parse_i64, decimal};

verus! {

/// Magnitude at which a delta token continues into the next.
pub const DMAX: i64 = 63;

/// Absolute value.
pub open spec fn abs(v: int) -> int {
    if v < 0 {
        -v
    } else {
        v
    }
}

/// Bound on the magnitude one token contributes to a coordinate.
pub open spec fn step_bound() -> int {
    0x8000_0000_0000_0000
}

/// The vocabulary entry of token `t`; unknown ids read as empty.
pub open spec fn name_of(vocab: Seq<Seq<char>>, t: u32) -> Seq<char> {
    if (t as int) < vocab.len() {
        vocab[t as int]
    } else {
        seq![]
    }
}

/// The names of a token stream.
pub open spec fn names_of(toks: Seq<u32>, vocab: Seq<Seq<char>>) -> Seq<Seq<char>> {
    toks.map_values(|t: u32| name_of(vocab, t))
}

/// The vocabulary as character sequences.
pub open spec fn vocab_view(vocab: Seq<String>) -> Seq<Seq<char>> {
    vocab.map_values(|s: String| s@)
}

/// The value of a delta token `d<int>`.
pub open spec fn delta_of(name: Seq<char>) -> Option<i64> {
    if name.len() > 0 && name[0] == 'd' {
        spec_parse_i64(name.drop_first())
    } else {
        None
    }
}

/// Read one chained delta starting at token `i`: sum delta tokens while
/// each has magnitude at least `DMAX`, through the first smaller one.
/// Returns (sum, position after the delta).
pub open spec fn read_delta(names: Seq<Seq<char>>, i: int) -> (int, int)
    decreases names.len() - i,
{
    if i < 0 || i >= names.len() {
        (0, i)
    } else {
        match delta_of(names[i]) {
            None => (0, i),
            Some(v) => if -DMAX < v < DMAX {
                (v as int, i + 1)
            } else {
                let (t, j) = read_delta(names, i + 1);
                (v + t, j)
            },
        }
    }
}

/// Number of points a drawing command takes; 0 for other tokens.
pub open spec fn arity(name: Seq<char>) -> nat {
    if name == seq!['M'] || name == seq!['L'] {
        1
    } else if name == seq!['Q'] {
        2
    } else if name == seq!['C'] {
        3
    } else {
        0
    }
}

/// Read `count` points from token `i` on, each an (x, y) pair of
/// deltas added to the running pen. Returns (points, next position,
/// pen x, pen y).
pub open spec fn read_points(names: Seq<Seq<char>>, i: int, count: nat, px: int, py: int) -> (
    Seq<(int, int)>,
    int,
    int,
    int,
)
    decreases count,
{
    if count == 0 {
        (seq![], i, px, py)
    } else {
        let (dx, i1) = read_delta(names, i);
        let (dy, i2) = read_delta(names, i1);
        let (rest, j, qx, qy) = read_points(names, i2, (count - 1) as nat, px + dx, py + dy);
        (seq![(px + dx, py + dy)] + rest, j, qx, qy)
    }
}

/// Reading a delta moves forward within the tokens, and each token
/// read adds at most one step.
pub proof fn lemma_read_delta(names: Seq<Seq<char>>, i: int)
    requires
        0 <= i,
    ensures
        i <= read_delta(names, i).1,
        i < names.len() ==> read_delta(names, i).1 <= names.len(),
        i >= names.len() ==> read_delta(names, i).1 == i,
        abs(read_delta(names, i).0) <= step_bound() * (read_delta(names, i).1 - i),
    decreases names.len() - i,
{
    if 0 <= i < names.len() {
        if let Some(v) = delta_of(names[i]) {
            assert(-step_bound() <= v <= step_bound());
            if !(-DMAX < v < DMAX) {
                lemma_read_delta(names, i + 1);
                let (t, j) = read_delta(names, i + 1);
                assert(read_delta(names, i) == (v + t, j));
                assert(step_bound() * (j - i) == step_bound() * (j - (i + 1)) + step_bound());
            }
        }
    }
}

/// Reading points moves forward within the tokens and yields `count`
/// points.
pub proof fn lemma_read_points(names: Seq<Seq<char>>, i: int, count: nat, px: int, py: int)
    requires
        0 <= i,
    ensures
        i <= read_points(names, i, count, px, py).1,
        i <= names.len() ==> read_points(names, i, count, px, py).1 <= names.len(),
        read_points(names, i, count, px, py).0.len() == count,
        ({
            let (_, j, qx, qy) = read_points(names, i, count, px, py);
            abs(qx - px) + abs(qy - py) <= step_bound() * (j - i)
        }),
    decreases count,
{
    if count > 0 {
        let (dx, i1) = read_delta(names, i);
        let (dy, i2) = read_delta(names, i1);
        lemma_read_delta(names, i);
        lemma_read_delta(names, i1);
        lemma_read_points(names, i2, (count - 1) as nat, px + dx, py + dy);
        let (_, j, qx, qy) = read_points(names, i2, (count - 1) as nat, px + dx, py + dy);
        assert(step_bound() * (j - i) == step_bound() * (j - i2) + step_bound() * (i2 - i1)
            + step_bound() * (i1 - i));
        assert(read_points(names, i, count, px, py).1 == j);
        assert(read_points(names, i, count, px, py).2 == qx);
        assert(read_points(names, i, count, px, py).3 == qy);
        assert(abs(qx - px) <= abs(qx - (px + dx)) + abs(dx));
        assert(abs(qy - py) <= abs(qy - (py + dy)) + abs(dy));
        assert(abs(dx) <= step_bound() * (i1 - i));
        assert(abs(dy) <= step_bound() * (i2 - i1));
    }
}

/// One coordinate as the trainer prints it: the pen position in font
/// units (two per quantization step) with one decimal.
pub open spec fn coord_text(v: int) -> Seq<char> {
    (if v < 0 {
        seq!['-']
    } else {
        seq![]
    }) + decimal((if v < 0 {
        -2 * v
    } else {
        2 * v
    }) as nat) + seq!['.', '0']
}

/// The text of a command's points: ` x y` per point.
pub open spec fn points_text(pts: Seq<(int, int)>) -> Seq<char>
    decreases pts.len(),
{
    if pts.len() == 0 {
        seq![]
    } else {
        seq![' '] + coord_text(pts[0].0) + seq![' '] + coord_text(pts[0].1) + points_text(
            pts.drop_first(),
        )
    }
}

/// Tokens from position `i` on, as an absolute SVG path string, with
/// the pen at (`px`, `py`): each drawing command prints its name and
/// its points followed by a space, `Z` prints `Z `, other tokens are
/// skipped.
pub open spec fn svg_text(names: Seq<Seq<char>>, i: int, px: int, py: int) -> Seq<char>
    decreases names.len() - i,
{
    if i < 0 || i >= names.len() {
        seq![]
    } else if names[i] == seq!['Z'] {
        seq!['Z', ' '] + svg_text(names, i + 1, px, py)
    } else if arity(names[i]) == 0 {
        svg_text(names, i + 1, px, py)
    } else {
        let (pts, j, qx, qy) = read_points(names, i + 1, arity(names[i]), px, py);
        proof {
            lemma_read_points(names, i + 1, arity(names[i]), px, py);
        }
        names[i] + points_text(pts) + seq![' '] + svg_text(names, j, qx, qy)
    }
}

/// The vocabulary entry of token `t`, as characters.
fn token_name(vocab: &[String], t: u32) -> (r: Vec<char>)
    ensures
        r@ == name_of(vocab_view(vocab@), t),
{
    if (t as usize) < vocab.len() {
        chars_of(vocab[t as usize].as_str())
    } else {
        Vec::new()
    }
}

fn is_single(name: &Vec<char>, c: char) -> (r: bool)
    ensures
        r == (name@ == seq![c]),
{
    let r = name.len() == 1 && name[0] == c;
    assert(r ==> name@ =~= seq![c]);
    r
}

fn command_arity(name: &Vec<char>) -> (r: usize)
    ensures
        r == arity(name@),
{
    if is_single(name, 'M') || is_single(name, 'L') {
        1
    } else if is_single(name, 'Q') {
        2
    } else if is_single(name, 'C') {
        3
    } else {
        0
    }
}

fn delta_value(name: &Vec<char>) -> (r: Option<i64>)
    ensures
        r == delta_of(name@),
{
    if name.len() > 0 && name[0] == 'd' {
        let mut rest: Vec<char> = Vec::new();
        let mut k: usize = 1;
        while k < name.len()
            invariant
                1 <= k <= name@.len(),
                rest@ == name@.subrange(1, k as int),
            decreases name@.len() - k,
        {
            rest.push(name[k]);
            k = k + 1;
            assert(rest@ =~= name@.subrange(1, k as int));
        }
        assert(rest@ =~= name@.drop_first());
        parse_i64(rest.as_slice())
    } else {
        None
    }
}

/// Read one chained delta at token `i`.
fn read_delta_at(toks: &[u32], vocab: &[String], i: usize) -> (r: (i128, usize))
    ensures
        (r.0 as int, r.1 as int) == read_delta(names_of(toks@, vocab_view(vocab@)), i as int),
    decreases toks@.len() - i,
{
    let ghost names = names_of(toks@, vocab_view(vocab@));
    proof {
        lemma_read_delta(names, i as int);
    }
    if i >= toks.len() {
        return (0, i);
    }
    let name = token_name(vocab, toks[i]);
    match delta_value(&name) {
        None => (0, i),
        Some(v) => {
            if -DMAX < v && v < DMAX {
                (v as i128, i + 1)
            } else {
                let (t, j) = read_delta_at(toks, vocab, i + 1);
                proof {
                    lemma_read_delta(names, i + 1);
                }
                (v as i128 + t, j)
            }
        },
    }
}

/// Append a coordinate as the trainer prints it.
fn push_coord(s: &mut String, v: i128)
    requires
        -0x8000_0000_0000_0000_0000_0000_0000_0000 < v,
    ensures
        final(s)@ == old(s)@ + coord_text(v as int),
{
    let ghost s0 = old(s)@;
    let mag: u128 = if v < 0 {
        push_char(s, '-');
        (-v) as u128 * 2
    } else {
        v as u128 * 2
    };
    push_decimal_nat(s, mag);
    push_char(s, '.');
    push_char(s, '0');
    assert(s@ =~= s0 + coord_text(v as int));
}

/// Tokens to an absolute SVG path string (font units, origin-relative):
/// chained deltas, `|DMAX|` continues, two font units per quantization
/// step, one decimal per coordinate.
pub fn detokenize(toks: &[u32], vocab: &[String]) -> (r: String)
    ensures
        r@ == svg_text(names_of(toks@, vocab_view(vocab@)), 0, 0, 0),
{
    let ghost names = names_of(toks@, vocab_view(vocab@));
    let n = toks.len();
    let mut out = String::new();
    let mut i: usize = 0;
    let mut px: i128 = 0;
    let mut py: i128 = 0;
    while i < n
        invariant
            n == toks@.len(),
            names == names_of(toks@, vocab_view(vocab@)),
            i <= n,
            abs(px as int) + abs(py as int) <= step_bound() * i,
            svg_text(names, 0, 0, 0) == out@ + svg_text(names, i as int, px as int, py as int),
        decreases n - i,
    {
        let ghost before = out@;
        let name = token_name(vocab, toks[i]);
        assert(name@ == names[i as int]);
        i = i + 1;
        let ghost i_start = i;
        if is_single(&name, 'Z') {
            push_char(&mut out, 'Z');
            push_char(&mut out, ' ');
            assert(out@ =~= before + seq!['Z', ' ']);
            continue;
        }
        let count = command_arity(&name);
        if count == 0 {
            continue;
        }
        push_chars(&mut out, name.as_slice());
        let mut k: usize = 0;
        while k < count
            invariant
                n == toks@.len(),
                names == names_of(toks@, vocab_view(vocab@)),
                1 <= i_start <= i <= n,
                k <= count,
                abs(px as int) + abs(py as int) <= step_bound() * i,
                svg_text(names, 0, 0, 0) == out@ + ({
                    let (pts, j, qx, qy) = read_points(names, i as int, (count - k) as nat, px as int, py as int);
                    points_text(pts) + seq![' '] + svg_text(names, j, qx, qy)
                }),
            decreases count - k,
        {
            let ghost b2 = out@;
            let ghost (pts, j, qx, qy) = read_points(names, i as int, (count - k) as nat, px as int, py as int);
            let (dx, i1) = read_delta_at(toks, vocab, i);
            proof {
                lemma_read_delta(names, i as int);
                lemma_read_delta(names, i1 as int);
            }
            let (dy, i2) = read_delta_at(toks, vocab, i1);
            px = px + dx;
            py = py + dy;
            i = i2;
            push_char(&mut out, ' ');
            push_coord(&mut out, px);
            push_char(&mut out, ' ');
            push_coord(&mut out, py);
            proof {
                let rest = read_points(names, i as int, (count - k - 1) as nat, px as int, py as int);
                assert(pts == seq![(px as int, py as int)] + rest.0);
                assert(pts.drop_first() =~= rest.0);
                assert(out@ =~= b2 + seq![' '] + coord_text(px as int) + seq![' '] + coord_text(py as int));
            }
            k = k + 1;
        }
        push_char(&mut out, ' ');
    }
    assert(svg_text(names, i as int, px as int, py as int) == Seq::<char>::empty());
    assert(out@ =~= svg_text(names, 0, 0, 0));
    out
}

/// Append characters to a string.
pub fn push_chars(s: &mut String, cs: &[char])
    ensures
        final(s)@ == old(s)@ + cs@,
{
    let ghost s0 = old(s)@;
    let mut k: usize = 0;
    while k < cs.len()
        invariant
            k <= cs@.len(),
            s@ == s0 + cs@.take(k as int),
        decreases cs@.len() - k,
    {
        push_char(s, cs[k]);
        k = k + 1;
        assert(s@ =~= s0 + cs@.take(k as int));
    }
    assert(cs@.take(cs@.len() as int) =~= cs@);
}

/// One drawing command of a decoded outline; coordinates are absolute,
/// in quantization steps (multiply by the font's step size for font
/// units, y-up).
#[derive(Clone, Copy, Debug, PartialEq, Eq, Structural)]
pub enum PathOp {
    MoveTo(i128, i128),
    LineTo(i128, i128),
    QuadTo(i128, i128, i128, i128),
    CurveTo(i128, i128, i128, i128, i128, i128),
    Close,
}

/// The command a drawing token makes of its points.
pub open spec fn op_of(name: Seq<char>, pts: Seq<(int, int)>) -> PathOp {
    if name == seq!['M'] {
        PathOp::MoveTo(pts[0].0 as i128, pts[0].1 as i128)
    } else if name == seq!['L'] {
        PathOp::LineTo(pts[0].0 as i128, pts[0].1 as i128)
    } else if name == seq!['Q'] {
        PathOp::QuadTo(pts[0].0 as i128, pts[0].1 as i128, pts[1].0 as i128, pts[1].1 as i128)
    } else {
        PathOp::CurveTo(
            pts[0].0 as i128,
            pts[0].1 as i128,
            pts[1].0 as i128,
            pts[1].1 as i128,
            pts[2].0 as i128,
            pts[2].1 as i128,
        )
    }
}

/// A `Close` when a contour is open.
pub open spec fn close_if(open: bool) -> Seq<PathOp> {
    if open {
        seq![PathOp::Close]
    } else {
        seq![]
    }
}

/// The outline drawn by tokens from position `i` on, with the pen at
/// (`px`, `py`) and a contour open or not: `M` closes any open contour
/// and starts one; `L`, `Q`, `C` draw only inside a contour (their
/// points are read either way); `Z` closes an open contour; other
/// tokens are skipped; an open contour is closed at the end.
pub open spec fn outline_from(names: Seq<Seq<char>>, i: int, px: int, py: int, open: bool) -> Seq<PathOp>
    decreases names.len() - i,
{
    if i < 0 || i >= names.len() {
        close_if(open)
    } else if names[i] == seq!['Z'] {
        close_if(open) + outline_from(names, i + 1, px, py, false)
    } else if arity(names[i]) == 0 {
        outline_from(names, i + 1, px, py, open)
    } else {
        let (pts, j, qx, qy) = read_points(names, i + 1, arity(names[i]), px, py);
        proof {
            lemma_read_points(names, i + 1, arity(names[i]), px, py);
        }
        if names[i] == seq!['M'] {
            close_if(open) + seq![op_of(names[i], pts)] + outline_from(names, j, qx, qy, true)
        } else if open {
            seq![op_of(names[i], pts)] + outline_from(names, j, qx, qy, true)
        } else {
            outline_from(names, j, qx, qy, false)
        }
    }
}

/// Tokens to an outline: chained deltas, `|DMAX|` continues; the pen
/// starts at the origin with no contour open.
pub fn outline_ops(toks: &[u32], vocab: &[String]) -> (r: Vec<PathOp>)
    ensures
        r@ == outline_from(names_of(toks@, vocab_view(vocab@)), 0, 0, 0, false),
{
    let ghost names = names_of(toks@, vocab_view(vocab@));
    let n = toks.len();
    let mut out: Vec<PathOp> = Vec::new();
    let mut i: usize = 0;
    let mut px: i128 = 0;
    let mut py: i128 = 0;
    let mut open = false;
    while i < n
        invariant
            n == toks@.len(),
            names == names_of(toks@, vocab_view(vocab@)),
            i <= n,
            abs(px as int) + abs(py as int) <= step_bound() * i,
            outline_from(names, 0, 0, 0, false) == out@ + outline_from(names, i as int, px as int, py as int, open),
        decreases n - i,
    {
        let ghost before = out@;
        let ghost was_open = open;
        let name = token_name(vocab, toks[i]);
        assert(name@ == names[i as int]);
        i = i + 1;
        if is_single(&name, 'Z') {
            if open {
                out.push(PathOp::Close);
                open = false;
            }
            assert(out@ =~= before + close_if(was_open));
            continue;
        }
        let count = command_arity(&name);
        if count == 0 {
            continue;
        }
        let ghost i0 = i as int;
        let ghost (px0, py0) = (px as int, py as int);
        let mut xs: Vec<i128> = Vec::new();
        let mut ys: Vec<i128> = Vec::new();
        let mut k: usize = 0;
        proof {
            lemma_read_points(names, i as int, count as nat, px as int, py as int);
        }
        while k < count
            invariant
                n == toks@.len(),
                names == names_of(toks@, vocab_view(vocab@)),
                1 <= i0 <= i <= n,
                k <= count,
                xs@.len() == k,
                ys@.len() == k,
                abs(px as int) + abs(py as int) <= step_bound() * i,
                ({
                    let (pts, j, qx, qy) = read_points(names, i0, count as nat, px0, py0);
                    let (rest, j2, qx2, qy2) = read_points(names, i as int, (count - k) as nat, px as int, py as int);
                    &&& j == j2 && qx == qx2 && qy == qy2
                    &&& pts.len() == count
                    &&& pts.skip(k as int) == rest
                    &&& forall|m: int| 0 <= m < k ==> pts[m] == (xs@[m] as int, ys@[m] as int)
                }),
            decreases count - k,
        {
            let (dx, i1) = read_delta_at(toks, vocab, i);
            proof {
                lemma_read_delta(names, i as int);
                lemma_read_delta(names, i1 as int);
            }
            let (dy, i2) = read_delta_at(toks, vocab, i1);
            let ghost rest = read_points(names, i as int, (count - k) as nat, px as int, py as int).0;
            px = px + dx;
            py = py + dy;
            i = i2;
            xs.push(px);
            ys.push(py);
            proof {
                let (pts, j, qx, qy) = read_points(names, i0, count as nat, px0, py0);
                let rest2 = read_points(names, i as int, (count - k - 1) as nat, px as int, py as int).0;
                assert(rest == seq![(px as int, py as int)] + rest2);
                assert(pts.skip(k + 1) =~= pts.skip(k as int).drop_first());
                assert(pts[k as int] == pts.skip(k as int)[0]);
            }
            k = k + 1;
        }
        proof {
            let (pts, j, qx, qy) = read_points(names, i0, count as nat, px0, py0);
            assert(j == i && qx == px && qy == py);
        }
        let op = if count == 1 {
            if is_single(&name, 'M') {
                PathOp::MoveTo(xs[0], ys[0])
            } else {
                PathOp::LineTo(xs[0], ys[0])
            }
        } else if count == 2 {
            PathOp::QuadTo(xs[0], ys[0], xs[1], ys[1])
        } else {
            PathOp::CurveTo(xs[0], ys[0], xs[1], ys[1], xs[2], ys[2])
        };
        if is_single(&name, 'M') {
            if open {
                out.push(PathOp::Close);
            }
            out.push(op);
            open = true;
        } else if open {
            out.push(op);
        }
        proof {
            let (pts, j, qx, qy) = read_points(names, i0, count as nat, px0, py0);
            assert(op == op_of(name@, pts));
            if name@ == seq!['M'] {
                assert(out@ =~= before + close_if(was_open) + seq![op]);
            } else if was_open {
                assert(out@ =~= before + seq![op]);
            } else {
                assert(out@ =~= before);
            }
        }
    }
    let ghost before = out@;
    if open {
        out.push(PathOp::Close);
    }
    assert(out@ =~= before + close_if(open));
    out
}

/// Are `ops` closed contours, from a state with a contour open or not:
/// each `MoveTo` starts a contour where none is open, lines and curves
/// draw only inside one, each `Close` ends an open one, and none is left
/// open at the end?
pub open spec fn closed_contours(ops: Seq<PathOp>, open: bool) -> bool
    decreases ops.len(),
{
    if ops.len() == 0 {
        !open
    } else {
        match ops[0] {
            PathOp::MoveTo(_, _) => !open && closed_contours(ops.drop_first(), true),
            PathOp::Close => open && closed_contours(ops.drop_first(), false),
            _ => open && closed_contours(ops.drop_first(), true),
        }
    }
}

proof fn lemma_closed_cons(op: PathOp, rest: Seq<PathOp>, open: bool)
    ensures
        closed_contours(seq![op] + rest, open) == match op {
            PathOp::MoveTo(_, _) => !open && closed_contours(rest, true),
            PathOp::Close => open && closed_contours(rest, false),
            _ => open && closed_contours(rest, true),
        },
{
    assert((seq![op] + rest).drop_first() =~= rest);
}

/// A decoded outline is made of closed contours: every contour a `MoveTo`
/// opens is closed exactly once, by a `Z` or by the next `M` or at the
/// end, and lines and curves are drawn only inside a contour.
pub proof fn lemma_outline_closed(names: Seq<Seq<char>>, i: int, px: int, py: int, open: bool)
    requires
        0 <= i,
    ensures
        closed_contours(outline_from(names, i, px, py, open), open),
    decreases names.len() - i,
{
    if i >= names.len() {
        if open {
            lemma_closed_cons(PathOp::Close, seq![], true);
            assert(close_if(open) =~= seq![PathOp::Close] + Seq::<PathOp>::empty());
        }
    } else if names[i] == seq!['Z'] {
        lemma_outline_closed(names, i + 1, px, py, false);
        let rest = outline_from(names, i + 1, px, py, false);
        if open {
            lemma_closed_cons(PathOp::Close, rest, true);
        } else {
            assert(close_if(open) + rest =~= rest);
        }
    } else if arity(names[i]) == 0 {
        lemma_outline_closed(names, i + 1, px, py, open);
    } else {
        let (pts, j, qx, qy) = read_points(names, i + 1, arity(names[i]), px, py);
        lemma_read_points(names, i + 1, arity(names[i]), px, py);
        lemma_outline_closed(names, j, qx, qy, true);
        lemma_outline_closed(names, j, qx, qy, false);
        let op = op_of(names[i], pts);
        if names[i] == seq!['M'] {
            let rest = outline_from(names, j, qx, qy, true);
            lemma_closed_cons(op, rest, false);
            if open {
                lemma_closed_cons(PathOp::Close, seq![op] + rest, true);
                assert(close_if(open) + seq![op] + rest =~= seq![PathOp::Close] + (seq![op] + rest));
            } else {
                assert(close_if(open) + seq![op] + rest =~= seq![op] + rest);
            }
        } else if open {
            let rest = outline_from(names, j, qx, qy, true);
            assert(!(op is MoveTo) && !(op is Close));
            lemma_closed_cons(op, rest, true);
        }
    }
}

/// The points one command draws (a `Close` draws none).
pub open spec fn op_points(op: PathOp) -> Seq<(int, int)> {
    match op {
        PathOp::MoveTo(x, y) => seq![(x as int, y as int)],
        PathOp::LineTo(x, y) => seq![(x as int, y as int)],
        PathOp::QuadTo(x1, y1, x, y) => seq![(x1 as int, y1 as int), (x as int, y as int)],
        PathOp::CurveTo(x1, y1, x2, y2, x, y) => seq![
            (x1 as int, y1 as int),
            (x2 as int, y2 as int),
            (x as int, y as int),
        ],
        PathOp::Close => seq![],
    }
}

/// The points a command list draws, in order.
pub open spec fn ops_points(ops: Seq<PathOp>) -> Seq<(int, int)>
    decreases ops.len(),
{
    if ops.len() == 0 {
        seq![]
    } else {
        op_points(ops[0]) + ops_points(ops.drop_first())
    }
}

/// The points `svg_text` prints from token `i` on, in order.
pub open spec fn svg_points(names: Seq<Seq<char>>, i: int, px: int, py: int) -> Seq<(int, int)>
    decreases names.len() - i,
{
    if i < 0 || i >= names.len() {
        seq![]
    } else if arity(names[i]) == 0 {
        svg_points(names, i + 1, px, py)
    } else {
        let (pts, j, qx, qy) = read_points(names, i + 1, arity(names[i]), px, py);
        proof {
            lemma_read_points(names, i + 1, arity(names[i]), px, py);
        }
        pts + svg_points(names, j, qx, qy)
    }
}

/// Do the tokens from `i` on draw lines and curves only inside a
/// contour: every `L`, `Q` and `C` after an `M` with no `Z` between?
pub open spec fn draws_inside(names: Seq<Seq<char>>, i: int, px: int, py: int, open: bool) -> bool
    decreases names.len() - i,
{
    if i < 0 || i >= names.len() {
        true
    } else if names[i] == seq!['Z'] {
        draws_inside(names, i + 1, px, py, false)
    } else if arity(names[i]) == 0 {
        draws_inside(names, i + 1, px, py, open)
    } else {
        let (pts, j, qx, qy) = read_points(names, i + 1, arity(names[i]), px, py);
        proof {
            lemma_read_points(names, i + 1, arity(names[i]), px, py);
        }
        (names[i] == seq!['M'] || open) && draws_inside(names, j, qx, qy, true)
    }
}

/// Does every coordinate fit an `i128`?
pub open spec fn points_fit(pts: Seq<(int, int)>) -> bool {
    forall|k: int|
        0 <= k < pts.len() ==> i128::MIN <= #[trigger] pts[k].0 <= i128::MAX && i128::MIN <= pts[k].1
            <= i128::MAX
}

proof fn lemma_ops_points_append(a: Seq<PathOp>, b: Seq<PathOp>)
    ensures
        ops_points(a + b) == ops_points(a) + ops_points(b),
    decreases a.len(),
{
    if a.len() == 0 {
        assert(a + b =~= b);
    } else {
        lemma_ops_points_append(a.drop_first(), b);
        assert((a + b).drop_first() =~= a.drop_first() + b);
    }
}

proof fn lemma_op_points(name: Seq<char>, pts: Seq<(int, int)>)
    requires
        arity(name) > 0,
        pts.len() == arity(name),
        points_fit(pts),
    ensures
        op_points(op_of(name, pts)) == pts,
{
    assert(i128::MIN <= pts[0].0 <= i128::MAX && i128::MIN <= pts[0].1 <= i128::MAX);
    if pts.len() >= 2 {
        assert(i128::MIN <= pts[1].0 <= i128::MAX && i128::MIN <= pts[1].1 <= i128::MAX);
    }
    if pts.len() >= 3 {
        assert(i128::MIN <= pts[2].0 <= i128::MAX && i128::MIN <= pts[2].1 <= i128::MAX);
    }
    assert(op_points(op_of(name, pts)) =~= pts);
}

proof fn lemma_close_no_points(open: bool)
    ensures
        ops_points(close_if(open)) == Seq::<(int, int)>::empty(),
{
    reveal_with_fuel(ops_points, 2);
    if open {
        assert(close_if(open).drop_first() =~= Seq::<PathOp>::empty());
    }
}

/// Decoding and printing agree: where lines and curves come only inside
/// a contour, the points of the decoded outline are, in order, the points
/// `detokenize` prints (in quantization steps; the text shows each doubled
/// with one decimal), for coordinates that fit the outline's integers.
pub proof fn lemma_outline_points(names: Seq<Seq<char>>, i: int, px: int, py: int, open: bool)
    requires
        0 <= i,
        draws_inside(names, i, px, py, open),
        points_fit(svg_points(names, i, px, py)),
    ensures
        ops_points(outline_from(names, i, px, py, open)) == svg_points(names, i, px, py),
    decreases names.len() - i,
{
    if i >= names.len() {
        lemma_close_no_points(open);
    } else if names[i] == seq!['Z'] {
        assert(arity(names[i]) == 0) by {
            assert(names[i][0] == 'Z');
        }
        lemma_outline_points(names, i + 1, px, py, false);
        let rest = outline_from(names, i + 1, px, py, false);
        lemma_ops_points_append(close_if(open), rest);
        lemma_close_no_points(open);
        assert(Seq::<(int, int)>::empty() + ops_points(rest) =~= ops_points(rest));
    } else if arity(names[i]) == 0 {
        lemma_outline_points(names, i + 1, px, py, open);
    } else {
        let (pts, j, qx, qy) = read_points(names, i + 1, arity(names[i]), px, py);
        lemma_read_points(names, i + 1, arity(names[i]), px, py);
        let all = svg_points(names, i, px, py);
        assert(all == pts + svg_points(names, j, qx, qy));
        assert(points_fit(pts)) by {
            assert forall|k: int| 0 <= k < pts.len() implies i128::MIN <= #[trigger] pts[k].0 <= i128::MAX
                && i128::MIN <= pts[k].1 <= i128::MAX by {
                assert(all[k] == pts[k]);
            }
        }
        assert(points_fit(svg_points(names, j, qx, qy))) by {
            let tail = svg_points(names, j, qx, qy);
            assert forall|k: int| 0 <= k < tail.len() implies i128::MIN <= #[trigger] tail[k].0
                <= i128::MAX && i128::MIN <= tail[k].1 <= i128::MAX by {
                assert(all[pts.len() + k] == tail[k]);
            }
        }
        lemma_outline_points(names, j, qx, qy, true);
        let op = op_of(names[i], pts);
        lemma_op_points(names[i], pts);
        let rest = outline_from(names, j, qx, qy, true);
        assert(ops_points(seq![op] + rest) == op_points(op) + ops_points(rest)) by {
            assert((seq![op] + rest).drop_first() =~= rest);
        }
        if names[i] == seq!['M'] {
            lemma_ops_points_append(close_if(open), seq![op] + rest);
            lemma_close_no_points(open);
            assert(close_if(open) + seq![op] + rest =~= close_if(open) + (seq![op] + rest));
            assert(Seq::<(int, int)>::empty() + ops_points(seq![op] + rest) =~= ops_points(
                seq![op] + rest,
            ));
        }
    }
}

/// The value of token `k` as a delta (0 for any other token).
pub open spec fn token_delta(names: Seq<Seq<char>>, k: int) -> int {
    match delta_of(names[k]) {
        Some(v) => v as int,
        None => 0,
    }
}

/// The sum of the delta values of tokens `i` up to `j`.
pub open spec fn delta_sum(names: Seq<Seq<char>>, i: int, j: int) -> int
    decreases j - i,
{
    if j <= i {
        0
    } else {
        token_delta(names, i) + delta_sum(names, i + 1, j)
    }
}

/// A chained delta is the sum of a run of delta tokens: starting at a
/// delta token, reading consumes delta tokens while each has magnitude
/// 63 or more (negative ones continue exactly as positive ones do), up to
/// and including the first smaller one (or until the deltas stop), and
/// its value is their sum. Reading at any other token gives 0 and
/// consumes nothing.
pub proof fn lemma_delta_chain(names: Seq<Seq<char>>, i: int)
    requires
        0 <= i < names.len(),
    ensures
        delta_of(names[i]) is None ==> read_delta(names, i) == (0int, i),
        delta_of(names[i]) is Some ==> ({
            let (d, j) = read_delta(names, i);
            &&& i < j <= names.len()
            &&& forall|k: int| i <= k < j ==> #[trigger] delta_of(names[k]) is Some
            &&& forall|k: int| i <= k < j - 1 ==> abs(#[trigger] token_delta(names, k)) >= 63
            &&& (abs(token_delta(names, j - 1)) < 63 || j == names.len() || delta_of(names[j]) is None)
            &&& d == delta_sum(names, i, j)
        }),
    decreases names.len() - i,
{
    if let Some(v) = delta_of(names[i]) {
        assert(delta_sum(names, i + 1, i + 1) == 0);
        assert(token_delta(names, i) == v);
        if !(-DMAX < v < DMAX) {
            if i + 1 < names.len() && delta_of(names[i + 1]) is Some {
                lemma_delta_chain(names, i + 1);
                let (t, j) = read_delta(names, i + 1);
                assert forall|k: int| i <= k < j implies #[trigger] delta_of(names[k]) is Some by {
                    if k > i {
                        assert(delta_of(names[k]) is Some);
                    }
                }
                assert forall|k: int| i <= k < j - 1 implies abs(#[trigger] token_delta(names, k)) >= 63 by {
                    if k > i {
                        assert(abs(token_delta(names, k)) >= 63);
                    }
                }
            } else {
                assert(read_delta(names, i + 1) == (0int, i + 1));
                assert(read_delta(names, i) == (v as int, i + 1));
            }
        } else {
            assert(read_delta(names, i) == (v as int, i + 1));
        }
    }
}

} // verus!
