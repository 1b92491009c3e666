//! The `.ntf` font container.
//!
//! Layout: the magic bytes "NTF0", the header length as a u32
//! little-endian, the JSON header, then the weights as raw f32
//! little-endian values. Exporters pad the header with spaces so the
//! weights start on a 4-byte boundary. The header lists the tensors
//! (or, for the grid MLP, the layer sizes) in storage order; this
//! module frames and unframes files and works out where each tensor's
//! bytes lie.
use vstd::prelude::*;
use vstd::slice::slice_subrange;
use crate::text::chars_of;

verus! {

/// The magic bytes "NTF0".
pub open spec fn magic() -> Seq<u8> {
    seq![0x4eu8, 0x54u8, 0x46u8, 0x30u8]
}

/// The little-endian u32 stored at `at`.
pub open spec fn le32(b: Seq<u8>, at: int) -> int {
    b[at] + 256 * b[at + 1] + 65536 * b[at + 2] + 16777216 * b[at + 3]
}

/// The little-endian bytes of `n`.
pub open spec fn le32_bytes(n: int) -> Seq<u8> {
    seq![
        (n % 256) as u8,
        (n / 256 % 256) as u8,
        (n / 65536 % 256) as u8,
        (n / 16777216 % 256) as u8,
    ]
}

/// Does `bytes` start like a container (magic and length present)?
pub open spec fn framed(bytes: Seq<u8>) -> bool {
    bytes.len() >= 8 && bytes.take(4) == magic()
}

/// The header length a framed file declares.
pub open spec fn header_len(bytes: Seq<u8>) -> int {
    le32(bytes, 4)
}

/// A framed file holds the whole header it declares.
pub open spec fn header_fits(bytes: Seq<u8>) -> bool {
    framed(bytes) ==> 8 + header_len(bytes) <= bytes.len()
}

/// The header bytes of a framed file.
pub open spec fn header_of(bytes: Seq<u8>) -> Seq<u8> {
    bytes.subrange(8, 8 + header_len(bytes))
}

/// A container: magic, header length, header, payload.
pub open spec fn container(header: Seq<u8>, payload: Seq<u8>) -> Seq<u8> {
    magic() + le32_bytes(header.len() as int) + header + payload
}

/// How many spaces bring a header of `n` bytes to a 4-byte boundary
/// (counting the 8 bytes before it).
pub open spec fn pad_len(n: int) -> int {
    (4 - (8 + n) % 4) % 4
}

/// A length-`n` run of spaces.
pub open spec fn spaces(n: int) -> Seq<u8> {
    Seq::new(n as nat, |i: int| 0x20u8)
}

/// The container holding `header` and `payload`.
pub fn frame(header: &[u8], payload: &[u8]) -> (r: Vec<u8>)
    requires
        header@.len() <= u32::MAX,
    ensures
        r@ == container(header@, payload@),
{
    let n = header.len();
    let mut out: Vec<u8> = Vec::new();
    out.push(0x4eu8);
    out.push(0x54u8);
    out.push(0x46u8);
    out.push(0x30u8);
    out.push((n % 256) as u8);
    out.push((n / 256 % 256) as u8);
    out.push((n / 65536 % 256) as u8);
    out.push((n / 16777216 % 256) as u8);
    assert(out@ == magic() + le32_bytes(n as int));
    out.extend_from_slice(header);
    assert(out@ == magic() + le32_bytes(n as int) + header@);
    out.extend_from_slice(payload);
    assert(out@ == container(header@, payload@));
    out
}

/// Pad a header with spaces so the payload after it starts on a 4-byte
/// boundary.
pub fn pad_header(h: &mut Vec<u8>)
    requires
        old(h)@.len() + 3 <= usize::MAX,
    ensures
        final(h)@ == old(h)@ + spaces(pad_len(old(h)@.len() as int)),
        (8 + final(h)@.len()) % 4 == 0,
{
    let ghost start = h@;
    // the 8 bytes before the header are a whole number of words
    while h.len() % 4 != 0
        invariant
            start.len() <= h@.len() <= start.len() + 3,
            start.len() + 3 <= usize::MAX,
            h@ == start + spaces(h@.len() - start.len()),
            h@.len() - start.len() <= pad_len(start.len() as int),
            (8 + h@.len()) % 4 == (8 + start.len() + (h@.len() - start.len())) % 4,
        decreases 3 - (h@.len() - start.len()),
    {
        h.push(0x20u8);
        assert(h@ == start + spaces(h@.len() - start.len()));
    }
}

/// The little-endian u32 at `at`.
pub fn read_le32(b: &[u8], at: usize) -> (r: u32)
    requires
        at + 4 <= b@.len(),
    ensures
        r == le32(b@, at as int),
{
    b[at] as u32 + 256 * (b[at + 1] as u32) + 65536 * (b[at + 2] as u32) + 16777216 * (b[at
        + 3] as u32)
}

/// The byte range of the header: `None` for a file that is not a
/// container (too short, or without the magic).
pub fn header_range(bytes: &[u8]) -> (r: Option<(usize, usize)>)
    requires
        header_fits(bytes@),
    ensures
        r is None <==> !framed(bytes@),
        match r {
            Some((a, b)) => a == 8 && b == 8 + header_len(bytes@),
            None => true,
        },
{
    if bytes.len() < 8 || bytes[0] != 0x4eu8 || bytes[1] != 0x54u8 || bytes[2] != 0x46u8
        || bytes[3] != 0x30u8 {
        proof {
            if bytes@.len() >= 8 && bytes@.take(4) == magic() {
                assert(bytes@.take(4)[0] == bytes@[0]);
                assert(bytes@.take(4)[1] == bytes@[1]);
                assert(bytes@.take(4)[2] == bytes@[2]);
                assert(bytes@.take(4)[3] == bytes@[3]);
            }
        }
        return None;
    }
    assert(bytes@.take(4) == magic());
    let hlen = read_le32(bytes, 4) as usize;
    Some((8, 8 + hlen))
}

/// Does the file hold the whole header it declares (or is it no
/// container at all)?
pub fn header_in_bounds(bytes: &[u8]) -> (r: bool)
    ensures
        r == header_fits(bytes@),
{
    if bytes.len() < 8 || bytes[0] != 0x4eu8 || bytes[1] != 0x54u8 || bytes[2] != 0x46u8
        || bytes[3] != 0x30u8 {
        proof {
            if bytes@.len() >= 8 && bytes@.take(4) == magic() {
                assert(bytes@.take(4)[0] == bytes@[0]);
                assert(bytes@.take(4)[1] == bytes@[1]);
                assert(bytes@.take(4)[2] == bytes@[2]);
                assert(bytes@.take(4)[3] == bytes@[3]);
            }
        }
        return true;
    }
    assert(bytes@.take(4) == magic());
    let hlen = read_le32(bytes, 4) as usize;
    hlen <= bytes.len() - 8
}

/// What a container gives back: the header and payload it was made of.
pub proof fn lemma_unframe(header: Seq<u8>, payload: Seq<u8>)
    requires
        header.len() <= u32::MAX,
    ensures
        framed(container(header, payload)),
        header_len(container(header, payload)) == header.len(),
        header_fits(container(header, payload)),
        header_of(container(header, payload)) == header,
        container(header, payload).subrange(
            8 + header.len() as int,
            container(header, payload).len() as int,
        ) == payload,
{
    let c = container(header, payload);
    let n = header.len() as int;
    assert(c.take(4) == magic());
    assert(le32(c, 4) == n);
    assert(c.subrange(8, 8 + n) == header);
    assert(c.subrange(8 + n, c.len() as int) == payload);
}

/// The number of values in a tensor of this shape (1 for no axes).
pub open spec fn product(shape: Seq<usize>) -> int
    decreases shape.len(),
{
    if shape.len() == 0 {
        1
    } else {
        product(shape.drop_last()) * shape.last()
    }
}

/// Where the tensors after the first `k` start, the first starting at
/// `start`: each takes four bytes per value.
pub open spec fn tensor_end(start: int, shapes: Seq<Seq<usize>>, k: int) -> int
    decreases k,
{
    if k <= 0 {
        start
    } else {
        tensor_end(start, shapes, k - 1) + 4 * product(shapes[k - 1])
    }
}

proof fn lemma_product_nonneg(shape: Seq<usize>)
    ensures
        product(shape) >= 0,
    decreases shape.len(),
{
    if shape.len() > 0 {
        lemma_product_nonneg(shape.drop_last());
        let p = product(shape.drop_last());
        let x = shape.last() as int;
        assert(p * x >= 0) by (nonlinear_arith)
            requires
                p >= 0,
                x >= 0,
        ;
    }
}

proof fn lemma_tensor_end_mono(start: int, shapes: Seq<Seq<usize>>, j: int, k: int)
    requires
        0 <= j <= k,
    ensures
        tensor_end(start, shapes, j) <= tensor_end(start, shapes, k),
    decreases k - j,
{
    if j < k {
        lemma_tensor_end_mono(start, shapes, j, k - 1);
        lemma_product_nonneg(shapes[k - 1]);
    }
}

/// The value count of one shape, or `None` when it exceeds `usize`.
fn shape_count(shape: &Vec<usize>) -> (r: Option<usize>)
    ensures
        match r {
            Some(n) => n == product(shape@),
            None => product(shape@) > usize::MAX,
        },
{
    let n = shape.len();
    let mut i: usize = 0;
    while i < n
        invariant
            n == shape@.len(),
            i <= n,
            forall|j: int| 0 <= j < i ==> shape@[j] != 0,
        decreases n - i,
    {
        if shape[i] == 0 {
            proof {
                lemma_product_zero(shape@, i as int);
            }
            return Some(0);
        }
        i = i + 1;
    }
    let mut acc: usize = 1;
    let mut k: usize = 0;
    while k < n
        invariant
            n == shape@.len(),
            k <= n,
            forall|j: int| 0 <= j < n ==> shape@[j] != 0,
            acc == product(shape@.take(k as int)),
        decreases n - k,
    {
        assert(shape@.take(k + 1).drop_last() == shape@.take(k as int));
        match acc.checked_mul(shape[k]) {
            Some(v) => {
                acc = v;
            },
            None => {
                proof {
                    lemma_product_grows(shape@, (k + 1) as int);
                }
                return None;
            },
        }
        k = k + 1;
    }
    assert(shape@.take(n as int) == shape@);
    Some(acc)
}

proof fn lemma_product_zero(shape: Seq<usize>, i: int)
    requires
        0 <= i < shape.len(),
        shape[i] == 0,
    ensures
        product(shape) == 0,
    decreases shape.len(),
{
    let p = product(shape.drop_last());
    let x = shape.last() as int;
    if i == shape.len() - 1 {
        assert(p * x == 0) by (nonlinear_arith)
            requires
                x == 0,
        ;
    } else {
        lemma_product_zero(shape.drop_last(), i);
        assert(p * x == 0) by (nonlinear_arith)
            requires
                p == 0,
        ;
    }
}

/// With no zero axis, a longer prefix has no smaller product.
proof fn lemma_product_grows(shape: Seq<usize>, k: int)
    requires
        0 <= k <= shape.len(),
        forall|j: int| 0 <= j < shape.len() ==> shape[j] != 0,
    ensures
        product(shape.take(k)) <= product(shape),
        product(shape.take(k)) >= 1,
    decreases shape.len() - k,
{
    if k == shape.len() {
        assert(shape.take(k) == shape);
        lemma_product_pos(shape);
    } else {
        lemma_product_grows(shape, k + 1);
        assert(shape.take(k + 1).drop_last() == shape.take(k));
        lemma_product_pos(shape.take(k));
        let p = product(shape.take(k));
        let x = shape[k] as int;
        assert(p <= p * x) by (nonlinear_arith)
            requires
                p >= 1,
                x >= 1,
        ;
    }
}

proof fn lemma_product_pos(shape: Seq<usize>)
    requires
        forall|j: int| 0 <= j < shape.len() ==> shape[j] != 0,
    ensures
        product(shape) >= 1,
    decreases shape.len(),
{
    if shape.len() > 0 {
        lemma_product_pos(shape.drop_last());
        let p = product(shape.drop_last());
        let x = shape.last() as int;
        assert(p * x >= 1) by (nonlinear_arith)
            requires
                p >= 1,
                x >= 1,
        ;
    }
}

/// The byte range of each tensor, stored one after another from
/// `start` at four bytes per value; `None` when the file (of `total`
/// bytes) ends before the last one does.
pub fn tensor_ranges(start: usize, shapes: &Vec<Vec<usize>>, total: usize) -> (r: Option<
    Vec<(usize, usize)>,
>)
    requires
        start <= total,
    ensures
        r is None <==> tensor_end(start as int, shapes@.map_values(|s: Vec<usize>| s@), shapes@.len() as int) > total,
        r is Some ==> r->0@.len() == shapes@.len() && forall|k: int|
            0 <= k < shapes@.len() ==> #[trigger] r->0@[k] == (
                tensor_end(start as int, shapes@.map_values(|s: Vec<usize>| s@), k) as usize,
                tensor_end(start as int, shapes@.map_values(|s: Vec<usize>| s@), k + 1) as usize,
            ),
{
    let ghost ss = shapes@.map_values(|s: Vec<usize>| s@);
    let n = shapes.len();
    let mut out: Vec<(usize, usize)> = Vec::new();
    let mut off = start;
    let mut k: usize = 0;
    while k < n
        invariant
            n == shapes@.len(),
            ss == shapes@.map_values(|s: Vec<usize>| s@),
            k <= n,
            off == tensor_end(start as int, ss, k as int),
            off <= total,
            out@.len() == k,
            forall|j: int|
                0 <= j < k ==> #[trigger] out@[j] == (
                    tensor_end(start as int, ss, j) as usize,
                    tensor_end(start as int, ss, j + 1) as usize,
                ),
        decreases n - k,
    {
        assert(ss[k as int] == shapes@[k as int]@);
        let count = shape_count(&shapes[k]);
        let end: usize = match count {
            None => {
                proof {
                    lemma_tensor_end_mono(start as int, ss, k + 1, n as int);
                }
                return None;
            },
            Some(c) => {
                if c > (total - off) / 4 {
                    proof {
                        lemma_tensor_end_mono(start as int, ss, k + 1, n as int);
                    }
                    return None;
                }
                off + 4 * c
            },
        };
        out.push((off, end));
        off = end;
        k = k + 1;
    }
    Some(out)
}

/// The `format` string of a JSON header, if the header is a JSON
/// document whose `format` member is a string.
pub uninterp spec fn json_format(header: Seq<u8>) -> Option<Seq<char>>;

/// Reads the `format` member of a JSON header.
///
/// Parses the bytes with `serde_json::from_slice` into a
/// `serde_json::Value` and takes `value["format"].as_str()`; the
/// contract only names that result (`json_format`), as a function of
/// the header bytes: `None` when the bytes are not JSON or the member is
/// missing or not a string.
#[verifier::external_body]
fn header_format(header: &[u8]) -> (r: Option<Vec<char>>)
    ensures
        match r {
            Some(v) => json_format(header@) == Some(v@),
            None => json_format(header@) == None::<Seq<char>>,
        },
{
    let v: serde_json::Value = serde_json::from_slice(header).ok()?;
    v["format"].as_str().map(|s| s.chars().collect())
}

/// Does `s` begin with `prefix`?
pub open spec fn starts_with(s: Seq<char>, prefix: Seq<char>) -> bool {
    prefix.len() <= s.len() && s.take(prefix.len() as int) == prefix
}

/// Does `s` begin with `prefix`?
pub(crate) fn has_prefix(s: &[char], prefix: &[char]) -> (r: bool)
    ensures
        r == starts_with(s@, prefix@),
{
    if prefix.len() > s.len() {
        return false;
    }
    let mut i: usize = 0;
    while i < prefix.len()
        invariant
            prefix@.len() <= s@.len(),
            i <= prefix@.len(),
            forall|j: int| 0 <= j < i ==> s@[j] == prefix@[j],
        decreases prefix@.len() - i,
    {
        if s[i] != prefix[i] {
            assert(s@.take(prefix@.len() as int)[i as int] != prefix@[i as int]);
            return false;
        }
        i = i + 1;
    }
    assert(s@.take(prefix@.len() as int) =~= prefix@);
    true
}

/// Does a header's format (as read by `json_format`) begin with
/// `prefix`? No format matches nothing.
pub fn format_matches(format: &Option<Vec<char>>, prefix: &[char]) -> (r: bool)
    ensures
        r == match format {
            Some(f) => starts_with(f@, prefix@),
            None => false,
        },
{
    match format {
        None => false,
        Some(f) => has_prefix(f.as_slice(), prefix),
    }
}

/// Is `bytes` a container whose header declares a format starting with
/// `prefix`?
pub open spec fn has_format(bytes: Seq<u8>, prefix: Seq<char>) -> bool {
    framed(bytes) && match json_format(header_of(bytes)) {
        Some(f) => starts_with(f, prefix),
        None => false,
    }
}

fn container_format_is(bytes: &[u8], prefix: &[char]) -> (r: bool)
    requires
        header_fits(bytes@),
    ensures
        r == has_format(bytes@, prefix@),
{
    match header_range(bytes) {
        None => false,
        Some((a, b)) => {
            assert(b == 8 + header_len(bytes@));
            let header = slice_subrange(bytes, a, b);
            assert(header@ == header_of(bytes@));
            let format = header_format(header);
            format_matches(&format, prefix)
        },
    }
}

/// Is this a field font (format "neuraltype-field...")?
pub fn is_field_font(bytes: &[u8]) -> (r: bool)
    requires
        header_fits(bytes@),
    ensures
        r == has_format(bytes@, "neuraltype-field"@),
{
    let prefix = chars_of("neuraltype-field");
    container_format_is(bytes, prefix.as_slice())
}

/// Is this a vector font (format "neuraltype-vector...")?
pub fn is_vector_font(bytes: &[u8]) -> (r: bool)
    requires
        header_fits(bytes@),
    ensures
        r == has_format(bytes@, "neuraltype-vector"@),
{
    let prefix = chars_of("neuraltype-vector");
    container_format_is(bytes, prefix.as_slice())
}

/// Why a font file was refused.
#[derive(Clone, Copy, Debug, PartialEq, Eq, Structural)]
pub enum LoadError {
    /// Too short, or without the magic bytes.
    NotContainer,
    /// The header names another format.
    UnsupportedFormat,
    /// The file ends before the last tensor does.
    Truncated,
}

/// The byte range of each tensor of a font file of `total` bytes whose
/// header (ending at `start`) declares `format` and the tensor
/// `shapes`; the font kind reads `expected` formats only.
pub fn tensor_layout(
    format: &str,
    expected: &str,
    start: usize,
    shapes: &Vec<Vec<usize>>,
    total: usize,
) -> (r: Result<Vec<(usize, usize)>, LoadError>)
    requires
        start <= total,
    ensures
        format@ != expected@ ==> r == Err::<Vec<(usize, usize)>, LoadError>(
            LoadError::UnsupportedFormat,
        ),
        format@ == expected@ ==> match r {
            Ok(v) => tensor_end(start as int, shapes@.map_values(|s: Vec<usize>| s@), shapes@.len() as int) <= total
                && v@.len() == shapes@.len() && forall|k: int|
                0 <= k < shapes@.len() ==> #[trigger] v@[k] == (
                    tensor_end(start as int, shapes@.map_values(|s: Vec<usize>| s@), k) as usize,
                    tensor_end(start as int, shapes@.map_values(|s: Vec<usize>| s@), k + 1) as usize,
                ),
            Err(e) => e == LoadError::Truncated && tensor_end(
                start as int,
                shapes@.map_values(|s: Vec<usize>| s@),
                shapes@.len() as int,
            ) > total,
        },
{
    let f = chars_of(format);
    let x = chars_of(expected);
    if f.len() != x.len() {
        return Err(LoadError::UnsupportedFormat);
    }
    let mut i: usize = 0;
    while i < f.len()
        invariant
            f@ == format@,
            x@ == expected@,
            f@.len() == x@.len(),
            i <= f@.len(),
            forall|j: int| 0 <= j < i ==> f@[j] == x@[j],
        decreases f@.len() - i,
    {
        if f[i] != x[i] {
            return Err(LoadError::UnsupportedFormat);
        }
        i = i + 1;
    }
    assert(f@ =~= x@);
    match tensor_ranges(start, shapes, total) {
        Some(v) => Ok(v),
        None => Err(LoadError::Truncated),
    }
}

/// One layer of the grid model: sizes, whether a ReLU follows, and the
/// byte ranges of its weight matrix and bias.
#[derive(Clone, Copy, Debug, PartialEq, Eq, Structural)]
pub struct LayerPlan {
    pub n_in: usize,
    pub n_out: usize,
    pub relu: bool,
    /// Byte range of the weight matrix.
    pub w_start: usize,
    pub w_end: usize,
    /// Byte range of the bias.
    pub b_start: usize,
    pub b_end: usize,
}

/// The stored tensors of the grid model with these layer sizes: per
/// layer an `n_in x n_out` weight matrix, then an `n_out` bias.
pub open spec fn mlp_shapes(sizes: Seq<usize>) -> Seq<Seq<usize>> {
    Seq::new(
        (2 * (sizes.len() - 1)) as nat,
        |k: int|
            if k % 2 == 0 {
                seq![sizes[k / 2], sizes[k / 2 + 1]]
            } else {
                seq![sizes[k / 2 + 1]]
            },
    )
}

/// The layers of a grid model with these sizes whose weights start at
/// `start` in a file of `total` bytes; the last layer is linear, the
/// others end in a ReLU. `None` when the file is truncated.
pub fn mlp_plan(sizes: &[usize], start: usize, total: usize) -> (r: Option<Vec<LayerPlan>>)
    requires
        sizes@.len() >= 1,
        start <= total,
    ensures
        r is None <==> tensor_end(start as int, mlp_shapes(sizes@), 2 * (sizes@.len() - 1)) > total,
        r is Some ==> r->0@.len() == sizes@.len() - 1 && forall|i: int|
            0 <= i < sizes@.len() - 1 ==> #[trigger] r->0@[i] == (LayerPlan {
                n_in: sizes@[i],
                n_out: sizes@[i + 1],
                relu: i + 2 < sizes@.len(),
                w_start: tensor_end(start as int, mlp_shapes(sizes@), 2 * i) as usize,
                w_end: tensor_end(start as int, mlp_shapes(sizes@), 2 * i + 1) as usize,
                b_start: tensor_end(start as int, mlp_shapes(sizes@), 2 * i + 1) as usize,
                b_end: tensor_end(start as int, mlp_shapes(sizes@), 2 * i + 2) as usize,
            }),
{
    let n = sizes.len() - 1;
    let mut shapes: Vec<Vec<usize>> = Vec::new();
    let mut i: usize = 0;
    while i < n
        invariant
            n == sizes@.len() - 1,
            i <= n,
            shapes@.len() == 2 * i,
            forall|k: int|
                0 <= k < 2 * i ==> #[trigger] shapes@[k]@ == mlp_shapes(sizes@)[k],
        decreases n - i,
    {
        let mut w: Vec<usize> = Vec::new();
        w.push(sizes[i]);
        w.push(sizes[i + 1]);
        let mut b: Vec<usize> = Vec::new();
        b.push(sizes[i + 1]);
        proof {
            assert((2 * i) as int % 2 == 0 && (2 * i) as int / 2 == i);
            assert((2 * i + 1) as int % 2 == 1 && (2 * i + 1) as int / 2 == i);
            assert(w@ == mlp_shapes(sizes@)[2 * i as int]);
            assert(b@ == mlp_shapes(sizes@)[2 * i + 1]);
        }
        shapes.push(w);
        shapes.push(b);
        i = i + 1;
    }
    let ghost ss = shapes@.map_values(|s: Vec<usize>| s@);
    assert(ss =~= mlp_shapes(sizes@));
    let ranges = match tensor_ranges(start, &shapes, total) {
        None => {
            return None;
        },
        Some(v) => v,
    };
    let mut out: Vec<LayerPlan> = Vec::new();
    let mut i: usize = 0;
    while i < n
        invariant
            n == sizes@.len() - 1,
            i <= n,
            ranges@.len() == 2 * n,
            forall|k: int|
                0 <= k < 2 * n ==> #[trigger] ranges@[k] == (
                    tensor_end(start as int, mlp_shapes(sizes@), k) as usize,
                    tensor_end(start as int, mlp_shapes(sizes@), k + 1) as usize,
                ),
            out@.len() == i,
            forall|j: int|
                0 <= j < i ==> #[trigger] out@[j] == (LayerPlan {
                    n_in: sizes@[j],
                    n_out: sizes@[j + 1],
                    relu: j + 2 < sizes@.len(),
                    w_start: tensor_end(start as int, mlp_shapes(sizes@), 2 * j) as usize,
                    w_end: tensor_end(start as int, mlp_shapes(sizes@), 2 * j + 1) as usize,
                    b_start: tensor_end(start as int, mlp_shapes(sizes@), 2 * j + 1) as usize,
                    b_end: tensor_end(start as int, mlp_shapes(sizes@), 2 * j + 2) as usize,
                }),
        decreases n - i,
    {
        assert(2 * i + 1 < ranges.len());
        let wr = ranges[2 * i];
        let br = ranges[2 * i + 1];
        out.push(
            LayerPlan {
                n_in: sizes[i],
                n_out: sizes[i + 1],
                relu: i + 2 < sizes.len(),
                w_start: wr.0,
                w_end: wr.1,
                b_start: br.0,
                b_end: br.1,
            },
        );
        i = i + 1;
    }
    Some(out)
}

/// The layer sizes a grid-model header records for layers of these
/// (inputs, outputs): the first layer's inputs, then each layer's outputs.
pub open spec fn sizes_of(dims: Seq<(usize, usize)>) -> Seq<usize> {
    seq![dims[0].0] + dims.map_values(|d: (usize, usize)| d.1)
}

/// The header's layer sizes for layers of these (inputs, outputs).
pub fn layer_sizes(dims: &[(usize, usize)]) -> (r: Vec<usize>)
    requires
        dims@.len() > 0,
    ensures
        r@ == sizes_of(dims@),
{
    let mut out: Vec<usize> = Vec::new();
    out.push(dims[0].0);
    let mut i: usize = 0;
    while i < dims.len()
        invariant
            i <= dims@.len(),
            dims@.len() > 0,
            out@ == seq![dims@[0].0] + dims@.take(i as int).map_values(|d: (usize, usize)| d.1),
        decreases dims@.len() - i,
    {
        out.push(dims[i].1);
        i = i + 1;
        assert(dims@.take(i as int).map_values(|d: (usize, usize)| d.1) =~= dims@.take(
            (i - 1) as int,
        ).map_values(|d: (usize, usize)| d.1).push(dims@[i - 1].1));
    }
    assert(dims@.take(i as int) =~= dims@);
    out
}

/// The sizes a grid model's header records give back, pair by pair, each
/// layer's inputs and outputs, where every layer takes what the layer
/// before it gives: the layers `mlp_plan` reads are those that were saved.
pub proof fn lemma_sizes_round_trip(dims: Seq<(usize, usize)>)
    requires
        dims.len() > 0,
        forall|i: int| 0 <= i < dims.len() - 1 ==> #[trigger] dims[i].1 == dims[i + 1].0,
    ensures
        sizes_of(dims).len() == dims.len() + 1,
        forall|i: int|
            0 <= i < dims.len() ==> #[trigger] sizes_of(dims)[i] == dims[i].0 && sizes_of(dims)[i + 1]
                == dims[i].1,
{
    assert forall|i: int| 0 <= i < dims.len() implies #[trigger] sizes_of(dims)[i] == dims[i].0
        && sizes_of(dims)[i + 1] == dims[i].1 by {
        if i > 0 {
            assert(dims[i - 1].1 == dims[i].0);
        }
    }
}

} // verus!
