//! The tensor layout that font export writes and inference reads: the
//! fixed order of the named weight tensors, the decoder's seed grid, and
//! the field model's architecture as read back from a checkpoint.
use vstd::prelude::*;
use crate::text::{decimal, push_char, push_decimal_nat};

verus! {

/// `a` followed by `b`.
pub open spec fn cat(a: Seq<char>, b: Seq<char>) -> Seq<char> {
    a + b
}

/// `.weight`
pub open spec fn weight() -> Seq<char> {
    seq!['.', 'w', 'e', 'i', 'g', 'h', 't']
}

/// `.bias`
pub open spec fn bias() -> Seq<char> {
    seq!['.', 'b', 'i', 'a', 's']
}

/// The names of deconvolution `i`'s weight and bias: `d{i}.weight`,
/// `d{i}.bias`.
pub open spec fn deconv_names(i: nat) -> Seq<Seq<char>> {
    seq![seq!['d'] + decimal(i) + weight(), seq!['d'] + decimal(i) + bias()]
}

/// The field model's fixed head: embedding, two dense layers and the
/// displacement head.
pub open spec fn field_head() -> Seq<Seq<char>> {
    seq![
        seq!['e', 'm', 'b'] + weight(),
        seq!['l', '1'] + weight(),
        seq!['l', '1'] + bias(),
        seq!['l', '2'] + weight(),
        seq!['l', '2'] + bias(),
        seq!['d', 'i', 's', 'p'] + weight(),
        seq!['d', 'i', 's', 'p'] + bias(),
    ]
}

/// The field model's tensors in file order: the head, then each
/// deconvolution's weight and bias.
pub open spec fn field_names(n: nat) -> Seq<Seq<char>>
    decreases n,
{
    if n == 0 {
        field_head()
    } else {
        field_names((n - 1) as nat) + deconv_names((n - 1) as nat)
    }
}

fn push_str_chars(s: &mut String, cs: &[char])
    ensures
        final(s)@ == old(s)@ + cs@,
{
    let mut i: usize = 0;
    while i < cs.len()
        invariant
            i <= cs@.len(),
            s@ == old(s)@ + cs@.take(i as int),
        decreases cs@.len() - i,
    {
        push_char(s, cs[i]);
        i = i + 1;
        assert(s@ =~= old(s)@ + cs@.take(i as int));
    }
    assert(cs@.take(i as int) =~= cs@);
}

fn name_of(prefix: &[char], index: Option<u64>, suffix: &[char]) -> (r: String)
    ensures
        r@ == prefix@ + (match index {
            Some(i) => decimal(i as nat),
            None => Seq::<char>::empty(),
        }) + suffix@,
{
    let mut s = String::new();
    assert(s@ =~= Seq::<char>::empty());
    push_str_chars(&mut s, prefix);
    match index {
        Some(i) => push_decimal_nat(&mut s, i as u128),
        None => {},
    }
    push_str_chars(&mut s, suffix);
    assert(s@ =~= prefix@ + (match index {
        Some(i) => decimal(i as nat),
        None => Seq::<char>::empty(),
    }) + suffix@);
    s
}

/// The value of a list of names.
pub open spec fn names_view(v: Seq<String>) -> Seq<Seq<char>> {
    v.map_values(|s: String| s@)
}

/// The field model's tensor names in file order, for `n` deconvolutions.
pub fn field_tensor_names(n: u64) -> (r: Vec<String>)
    ensures
        names_view(r@) == field_names(n as nat),
{
    let w = ['.', 'w', 'e', 'i', 'g', 'h', 't'];
    let b = ['.', 'b', 'i', 'a', 's'];
    assert(w@ =~= weight());
    assert(b@ =~= bias());
    let mut out: Vec<String> = Vec::new();
    let emb = ['e', 'm', 'b'];
    let l1 = ['l', '1'];
    let l2 = ['l', '2'];
    let disp = ['d', 'i', 's', 'p'];
    out.push(name_of(&emb, None, &w));
    out.push(name_of(&l1, None, &w));
    out.push(name_of(&l1, None, &b));
    out.push(name_of(&l2, None, &w));
    out.push(name_of(&l2, None, &b));
    out.push(name_of(&disp, None, &w));
    out.push(name_of(&disp, None, &b));
    assert(emb@ =~= seq!['e', 'm', 'b']);
    assert(l1@ =~= seq!['l', '1']);
    assert(l2@ =~= seq!['l', '2']);
    assert(disp@ =~= seq!['d', 'i', 's', 'p']);
    assert(names_view(out@) =~= field_head());
    let d = ['d'];
    assert(d@ =~= seq!['d']);
    let mut i: u64 = 0;
    while i < n
        invariant
            i <= n,
            w@ == weight(),
            b@ == bias(),
            d@ == seq!['d'],
            names_view(out@) == field_names(i as nat),
        decreases n - i,
    {
        let ghost before = names_view(out@);
        out.push(name_of(&d, Some(i), &w));
        out.push(name_of(&d, Some(i), &b));
        assert(names_view(out@) =~= before + deconv_names(i as nat));
        i = i + 1;
    }
    out
}

/// `v` divided by two `n` times, rounding up.
pub open spec fn halved_up(v: int, n: nat) -> int {
    let p = vstd::arithmetic::power2::pow2(n) as int;
    (v + p - 1) / p
}

/// Two to the power `n`, for `n` below 64.
pub fn pow2_u64(n: u32) -> (r: u64)
    requires
        n < 64,
    ensures
        r == vstd::arithmetic::power2::pow2(n as nat),
        r >= 1,
{
    let mut div: u64 = 1;
    let mut k: u32 = 0;
    proof {
        vstd::arithmetic::power2::lemma2_to64();
    }
    while k < n
        invariant
            k <= n < 64,
            div == vstd::arithmetic::power2::pow2(k as nat),
        decreases n - k,
    {
        proof {
            vstd::arithmetic::power2::lemma_pow2_strictly_increases((k + 1) as nat, 64);
            vstd::arithmetic::power2::lemma2_to64();
            assert(vstd::arithmetic::power2::pow2((k + 1) as nat) == 2 * vstd::arithmetic::power2::pow2(k as nat)) by {
                vstd::arithmetic::power2::lemma_pow2_adds(k as nat, 1);
            }
        }
        div = div * 2;
        k = k + 1;
    }
    proof {
        vstd::arithmetic::power2::lemma_pow2_pos(n as nat);
    }
    div
}

/// The decoder's seed grid: the field's height and width divided by two
/// per deconvolution, rounding up.
pub fn seed_grid(h: u64, w: u64, n: u32) -> (r: (u64, u64))
    requires
        n < 64,
        h + vstd::arithmetic::power2::pow2(n as nat) - 1 <= u64::MAX,
        w + vstd::arithmetic::power2::pow2(n as nat) - 1 <= u64::MAX,
    ensures
        r.0 == halved_up(h as int, n as nat),
        r.1 == halved_up(w as int, n as nat),
{
    let div = pow2_u64(n);
    ((h + (div - 1)) / div, (w + (div - 1)) / div)
}

/// The six sublayers of a transformer block, in file order.
pub open spec fn sublayers() -> Seq<Seq<char>> {
    seq![
        seq!['l', 'n', '1'],
        seq!['q', 'k', 'v'],
        seq!['p', 'r', 'o', 'j'],
        seq!['l', 'n', '2'],
        seq!['f', 'c', '1'],
        seq!['f', 'c', '2'],
    ]
}

/// Block `i`'s tensor names from sublayer `j` on: `b{i}.{sub}.weight`
/// and `b{i}.{sub}.bias` for each.
pub open spec fn block_names(i: nat, j: int) -> Seq<Seq<char>>
    decreases 6 - j,
{
    if j >= 6 || j < 0 {
        seq![]
    } else {
        let stem = seq!['b'] + decimal(i) + seq!['.'] + sublayers()[j];
        seq![stem + weight(), stem + bias()] + block_names(i, j + 1)
    }
}

/// The vector model's tensors in file order: the three embeddings, each
/// block, the final norm and the output head.
pub open spec fn vector_names(layers: nat) -> Seq<Seq<char>> {
    seq![
        seq!['t', 'o', 'k', '_', 'e', 'm', 'b'] + weight(),
        seq!['c', 't', 'x', '_', 'e', 'm', 'b'] + weight(),
        seq!['p', 'o', 's', '_', 'e', 'm', 'b'] + weight(),
    ] + blocks(layers) + seq![
        seq!['l', 'n', '_', 'f'] + weight(),
        seq!['l', 'n', '_', 'f'] + bias(),
        seq!['h', 'e', 'a', 'd'] + weight(),
        seq!['h', 'e', 'a', 'd'] + bias(),
    ]
}

/// The names of the first `n` blocks.
pub open spec fn blocks(n: nat) -> Seq<Seq<char>>
    decreases n,
{
    if n == 0 {
        seq![]
    } else {
        blocks((n - 1) as nat) + block_names((n - 1) as nat, 0)
    }
}

fn push_all(v: &mut Vec<char>, cs: &[char])
    ensures
        final(v)@ == old(v)@ + cs@,
{
    let mut i: usize = 0;
    while i < cs.len()
        invariant
            i <= cs@.len(),
            v@ == old(v)@ + cs@.take(i as int),
        decreases cs@.len() - i,
    {
        v.push(cs[i]);
        i = i + 1;
        assert(v@ =~= old(v)@ + cs@.take(i as int));
    }
    assert(cs@.take(i as int) =~= cs@);
}

fn sublayer(j: usize) -> (r: Vec<char>)
    requires
        j < 6,
    ensures
        r@ == sublayers()[j as int],
{
    let r = if j == 0 {
        vec!['l', 'n', '1']
    } else if j == 1 {
        vec!['q', 'k', 'v']
    } else if j == 2 {
        vec!['p', 'r', 'o', 'j']
    } else if j == 3 {
        vec!['l', 'n', '2']
    } else if j == 4 {
        vec!['f', 'c', '1']
    } else {
        vec!['f', 'c', '2']
    };
    assert(r@ =~= sublayers()[j as int]);
    r
}

/// The vector model's tensor names in file order, for `layers` blocks.
pub fn vector_tensor_names(layers: u64) -> (r: Vec<String>)
    ensures
        names_view(r@) == vector_names(layers as nat),
{
    let w = ['.', 'w', 'e', 'i', 'g', 'h', 't'];
    let b = ['.', 'b', 'i', 'a', 's'];
    assert(w@ =~= weight());
    assert(b@ =~= bias());
    let mut out: Vec<String> = Vec::new();
    let tok = ['t', 'o', 'k', '_', 'e', 'm', 'b'];
    let ctx = ['c', 't', 'x', '_', 'e', 'm', 'b'];
    let pos = ['p', 'o', 's', '_', 'e', 'm', 'b'];
    out.push(name_of(&tok, None, &w));
    out.push(name_of(&ctx, None, &w));
    out.push(name_of(&pos, None, &w));
    assert(tok@ =~= seq!['t', 'o', 'k', '_', 'e', 'm', 'b']);
    assert(ctx@ =~= seq!['c', 't', 'x', '_', 'e', 'm', 'b']);
    assert(pos@ =~= seq!['p', 'o', 's', '_', 'e', 'm', 'b']);
    let ghost head = names_view(out@);
    assert(blocks(0) =~= Seq::<Seq<char>>::empty());
    assert(head =~= head + blocks(0));
    let bee = ['b'];
    assert(bee@ =~= seq!['b']);
    let mut i: u64 = 0;
    while i < layers
        invariant
            i <= layers,
            w@ == weight(),
            b@ == bias(),
            bee@ == seq!['b'],
            names_view(out@) == head + blocks(i as nat),
        decreases layers - i,
    {
        let mut j: usize = 0;
        let ghost start = names_view(out@);
        while j < 6
            invariant
                j <= 6,
                w@ == weight(),
                b@ == bias(),
                bee@ == seq!['b'],
                names_view(out@) + block_names(i as nat, j as int) == start + block_names(i as nat, 0),
            decreases 6 - j,
        {
            let sub = sublayer(j);
            let mut stem: Vec<char> = Vec::new();
            stem.push('.');
            let mut k: usize = 0;
            while k < sub.len()
                invariant
                    k <= sub@.len(),
                    stem@ == seq!['.'] + sub@.take(k as int),
                decreases sub@.len() - k,
            {
                stem.push(sub[k]);
                k = k + 1;
                assert(stem@ =~= seq!['.'] + sub@.take(k as int));
            }
            assert(sub@.take(k as int) =~= sub@);
            let ghost before = names_view(out@);
            let mut sw: Vec<char> = Vec::new();
            let mut sb: Vec<char> = Vec::new();
            push_all(&mut sw, &stem);
            push_all(&mut sw, &w);
            push_all(&mut sb, &stem);
            push_all(&mut sb, &b);
            let full_w = name_of(&bee, Some(i), &sw);
            let full_b = name_of(&bee, Some(i), &sb);
            out.push(full_w);
            out.push(full_b);
            proof {
                let stem_s = seq!['b'] + decimal(i as nat) + seq!['.'] + sublayers()[j as int];
                assert(full_w@ =~= stem_s + weight());
                assert(full_b@ =~= stem_s + bias());
                assert(names_view(out@) =~= before + seq![stem_s + weight(), stem_s + bias()]);
                assert(block_names(i as nat, j as int) =~= seq![stem_s + weight(), stem_s + bias()]
                    + block_names(i as nat, j + 1));
            }
            j = j + 1;
        }
        assert(block_names(i as nat, 6) =~= Seq::<Seq<char>>::empty());
        assert(names_view(out@) =~= start + block_names(i as nat, 0));
        i = i + 1;
    }
    let ln_f = ['l', 'n', '_', 'f'];
    let hd = ['h', 'e', 'a', 'd'];
    assert(ln_f@ =~= seq!['l', 'n', '_', 'f']);
    assert(hd@ =~= seq!['h', 'e', 'a', 'd']);
    let ghost mid = names_view(out@);
    assert(head =~= seq![
        seq!['t', 'o', 'k', '_', 'e', 'm', 'b'] + weight(),
        seq!['c', 't', 'x', '_', 'e', 'm', 'b'] + weight(),
        seq!['p', 'o', 's', '_', 'e', 'm', 'b'] + weight(),
    ]);
    out.push(name_of(&ln_f, None, &w));
    out.push(name_of(&ln_f, None, &b));
    out.push(name_of(&hd, None, &w));
    out.push(name_of(&hd, None, &b));
    assert(names_view(out@) =~= vector_names(layers as nat));
    out
}

/// A tensor as a checkpoint stores it: whether its elements are 32-bit
/// floats, its shape, and its raw bytes.
struct CheckpointTensor {
    is_f32: bool,
    shape: Vec<usize>,
    data: Vec<u8>,
}

/// What safetensors reads for the tensor `name` of the checkpoint `bytes`:
/// whether its dtype is F32, its shape and its data bytes; `None` where the
/// bytes do not parse as a safetensors file or hold no tensor of that name.
pub uninterp spec fn safetensors_tensor(bytes: Seq<u8>, name: Seq<char>) -> Option<(bool, Seq<usize>, Seq<u8>)>;

/// Reads one tensor of a checkpoint with `safetensors::SafeTensors::deserialize`
/// and `SafeTensors::tensor`. Trusted: the result is `safetensors_tensor` of
/// the bytes and the name, the dtype reduced to whether it is F32, the shape
/// and data copied out; a parse error or a missing name gives `None`.
#[verifier::external_body]
fn checkpoint_tensor(bytes: &[u8], name: &str) -> (r: Option<CheckpointTensor>)
    ensures
        match r {
            Some(t) => safetensors_tensor(bytes@, name@) == Some((t.is_f32, t.shape@, t.data@)),
            None => safetensors_tensor(bytes@, name@) is None,
        },
{
    let st = safetensors::SafeTensors::deserialize(bytes).ok()?;
    let t = st.tensor(name).ok()?;
    Some(CheckpointTensor {
        is_f32: matches!(t.dtype(), safetensors::Dtype::F32),
        shape: t.shape().to_vec(),
        data: t.data().to_vec(),
    })
}

/// Why a field-model checkpoint cannot be exported.
#[derive(Clone, Copy, Debug, PartialEq, Eq)]
pub enum ExportError {
    /// A tensor the export needs is not in the checkpoint (or the
    /// checkpoint does not parse).
    Missing,
    /// A tensor to be written does not hold 32-bit floats.
    NotF32,
    /// A tensor's shape has fewer axes than the architecture reads.
    BadShape,
    /// The checkpoint has 64 or more deconvolutions: the seed grid's
    /// divisor, two to that power, does not fit a machine word.
    TooDeep,
    /// The canvas height or width plus the divisor overflows.
    GridTooLarge,
}

/// The field model's architecture and weights, read from a checkpoint.
pub struct FieldExport {
    /// Width of the letter embedding.
    pub emb: usize,
    /// Width of the latent code.
    pub latent: usize,
    /// Channels before the first deconvolution, then after each.
    pub chans: Vec<usize>,
    /// The decoder's seed grid (height, width).
    pub grid0: (u64, u64),
    /// Each written tensor's name and shape, in file order.
    pub tensors: Vec<(String, Vec<usize>)>,
    /// The tensors' data bytes concatenated in the same order.
    pub weights: Vec<u8>,
}

impl View for FieldExport {
    type V = (usize, usize, Seq<usize>, (u64, u64), Seq<(Seq<char>, Seq<usize>)>, Seq<u8>);

    open spec fn view(&self) -> Self::V {
        (
            self.emb,
            self.latent,
            self.chans@,
            self.grid0,
            metas_view(self.tensors@),
            self.weights@,
        )
    }
}

/// `d{i}.weight`
pub open spec fn deconv_weight(i: nat) -> Seq<char> {
    seq!['d'] + decimal(i) + weight()
}

/// How many of `d{i}.weight`, `d{i+1}.weight`, ... are present in a row,
/// counted up to index 64.
pub open spec fn deconv_run(b: Seq<u8>, i: nat) -> nat
    decreases 64 - i,
{
    if i >= 64 {
        i
    } else if safetensors_tensor(b, deconv_weight(i)) is Some {
        deconv_run(b, i + 1)
    } else {
        i
    }
}

/// Axis `k` of the named tensor's shape.
pub open spec fn dim(b: Seq<u8>, name: Seq<char>, k: nat) -> Result<usize, ExportError> {
    match safetensors_tensor(b, name) {
        None => Err(ExportError::Missing),
        Some((_, shape, _)) => if k < shape.len() {
            Ok(shape[k as int])
        } else {
            Err(ExportError::BadShape)
        },
    }
}

/// The output channels of the first `k` deconvolutions (axis 1 of each
/// weight), or the first failure.
pub open spec fn chans_upto(b: Seq<u8>, k: nat) -> Result<Seq<usize>, ExportError>
    decreases k,
{
    if k == 0 {
        Ok(seq![])
    } else {
        match chans_upto(b, (k - 1) as nat) {
            Err(e) => Err(e),
            Ok(s) => match dim(b, deconv_weight((k - 1) as nat), 1) {
                Err(e) => Err(e),
                Ok(c) => Ok(s.push(c)),
            },
        }
    }
}

/// The first `k` of `names` read from the checkpoint: each name with its
/// shape, and the data bytes concatenated; or the first failure.
pub open spec fn gather_upto(b: Seq<u8>, names: Seq<Seq<char>>, k: nat) -> Result<
    (Seq<(Seq<char>, Seq<usize>)>, Seq<u8>),
    ExportError,
>
    decreases k,
{
    if k == 0 {
        Ok((seq![], seq![]))
    } else {
        match gather_upto(b, names, (k - 1) as nat) {
            Err(e) => Err(e),
            Ok((metas, data)) => match safetensors_tensor(b, names[k - 1]) {
                None => Err(ExportError::Missing),
                Some((is_f32, shape, bytes)) => if is_f32 {
                    Ok((metas.push((names[k - 1], shape)), data + bytes))
                } else {
                    Err(ExportError::NotF32)
                },
            },
        }
    }
}

/// What exporting a field-model checkpoint gives for a canvas of height
/// `h` and width `w`. The number of deconvolutions is the length of the
/// run `d0.weight`, `d1.weight`, ... present; `emb` is axis 1 of
/// `emb.weight`, `latent` axis 0 of `l1.weight`; the channels are axis 0
/// of `d0.weight`, then axis 1 of each deconvolution's weight; the tensors
/// are written in `field_names` order, each of them F32; the seed grid is
/// the canvas halved once per deconvolution, rounding up.
pub open spec fn spec_field_export(b: Seq<u8>, h: u64, w: u64) -> Result<
    (usize, usize, Seq<usize>, (u64, u64), Seq<(Seq<char>, Seq<usize>)>, Seq<u8>),
    ExportError,
> {
    let n = deconv_run(b, 0);
    match dim(b, seq!['e', 'm', 'b'] + weight(), 1) {
        Err(e) => Err(e),
        Ok(emb) => match dim(b, seq!['l', '1'] + weight(), 0) {
            Err(e) => Err(e),
            Ok(latent) => match dim(b, deconv_weight(0), 0) {
                Err(e) => Err(e),
                Ok(c0) => match chans_upto(b, n) {
                    Err(e) => Err(e),
                    Ok(rest) => if n >= 64 {
                        Err(ExportError::TooDeep)
                    } else {
                        match gather_upto(b, field_names(n), field_names(n).len()) {
                            Err(e) => Err(e),
                            Ok((metas, data)) => {
                                let p = vstd::arithmetic::power2::pow2(n);
                                if h + p - 1 > u64::MAX || w + p - 1 > u64::MAX {
                                    Err(ExportError::GridTooLarge)
                                } else {
                                    Ok((
                                        emb,
                                        latent,
                                        seq![c0] + rest,
                                        (halved_up(h as int, n) as u64, halved_up(w as int, n) as u64),
                                        metas,
                                        data,
                                    ))
                                }
                            },
                        }
                    },
                },
            },
        },
    }
}

proof fn lemma_chans_err_stays(b: Seq<u8>, k: nat, m: nat)
    requires
        k <= m,
        chans_upto(b, k) is Err,
    ensures
        chans_upto(b, m) == chans_upto(b, k),
    decreases m - k,
{
    if k < m {
        lemma_chans_err_stays(b, k, (m - 1) as nat);
    }
}

proof fn lemma_gather_err_stays(b: Seq<u8>, names: Seq<Seq<char>>, k: nat, m: nat)
    requires
        k <= m,
        gather_upto(b, names, k) is Err,
    ensures
        gather_upto(b, names, m) == gather_upto(b, names, k),
    decreases m - k,
{
    if k < m {
        lemma_gather_err_stays(b, names, k, (m - 1) as nat);
    }
}

fn deconv_weight_name(i: u64) -> (r: String)
    ensures
        r@ == deconv_weight(i as nat),
{
    let d = ['d'];
    let w = ['.', 'w', 'e', 'i', 'g', 'h', 't'];
    assert(d@ =~= seq!['d']);
    assert(w@ =~= weight());
    name_of(&d, Some(i), &w)
}

fn tensor_dim(b: &[u8], name: &str, k: usize) -> (r: Result<usize, ExportError>)
    ensures
        r == dim(b@, name@, k as nat),
{
    match checkpoint_tensor(b, name) {
        None => Err(ExportError::Missing),
        Some(t) => if k < t.shape.len() {
            Ok(t.shape[k])
        } else {
            Err(ExportError::BadShape)
        },
    }
}

/// The value of a list of written tensors: each name with its shape.
pub open spec fn metas_view(v: Seq<(String, Vec<usize>)>) -> Seq<(Seq<char>, Seq<usize>)> {
    v.map_values(|t: (String, Vec<usize>)| (t.0@, t.1@))
}

/// Reads the named tensors of a checkpoint in the given order: each name
/// with its shape, and all their data bytes concatenated.
fn read_tensors(checkpoint: &[u8], order: &Vec<String>) -> (r: Result<
    (Vec<(String, Vec<usize>)>, Vec<u8>),
    ExportError,
>)
    ensures
        match r {
            Ok((ts, ws)) => gather_upto(checkpoint@, names_view(order@), order@.len())
                == Ok::<_, ExportError>((metas_view(ts@), ws@)),
            Err(e) => gather_upto(checkpoint@, names_view(order@), order@.len()) == Err::<
                (Seq<(Seq<char>, Seq<usize>)>, Seq<u8>),
                ExportError,
            >(e),
        },
{
    let ghost b = checkpoint@;
    let ghost names = names_view(order@);
    let mut tensors: Vec<(String, Vec<usize>)> = Vec::new();
    let mut weights: Vec<u8> = Vec::new();
    let mut k: usize = 0;
    assert(metas_view(tensors@) =~= Seq::empty());
    assert(weights@ =~= Seq::<u8>::empty());
    while k < order.len()
        invariant
            b == checkpoint@,
            names == names_view(order@),
            k <= order@.len(),
            gather_upto(b, names, k as nat) == Ok::<_, ExportError>((metas_view(tensors@), weights@)),
        decreases order@.len() - k,
    {
        let ghost gv = metas_view(tensors@);
        assert(order@[k as int]@ == names[k as int]);
        match checkpoint_tensor(checkpoint, order[k].as_str()) {
            None => {
                proof {
                    assert(gather_upto(b, names, (k + 1) as nat) is Err);
                    lemma_gather_err_stays(b, names, (k + 1) as nat, names.len());
                }
                return Err(ExportError::Missing);
            },
            Some(t) => {
                if !t.is_f32 {
                    proof {
                        assert(gather_upto(b, names, (k + 1) as nat) is Err);
                        lemma_gather_err_stays(b, names, (k + 1) as nat, names.len());
                    }
                    return Err(ExportError::NotF32);
                }
                let mut data = t.data;
                weights.append(&mut data);
                tensors.push((order[k].clone(), t.shape));
                assert(metas_view(tensors@) =~= gv.push((names[k as int], t.shape@)));
            },
        }
        k = k + 1;
    }
    Ok((tensors, weights))
}

/// Reads a field-model checkpoint's architecture and weights for export
/// with a canvas of height `h` and width `w`.
pub fn field_export(checkpoint: &[u8], h: u64, w: u64) -> (r: Result<FieldExport, ExportError>)
    ensures
        match r {
            Ok(fe) => spec_field_export(checkpoint@, h, w) == Ok::<_, ExportError>(fe@),
            Err(e) => spec_field_export(checkpoint@, h, w) == Err::<
                (usize, usize, Seq<usize>, (u64, u64), Seq<(Seq<char>, Seq<usize>)>, Seq<u8>),
                ExportError,
            >(e),
        },
{
    let ghost b = checkpoint@;
    // the run of deconvolutions
    let mut n: u64 = 0;
    while n < 64
        invariant
            b == checkpoint@,
            n <= 64,
            deconv_run(b, 0) == deconv_run(b, n as nat),
        ensures
            n <= 64,
            deconv_run(b, 0) == n,
        decreases 64 - n,
    {
        let name = deconv_weight_name(n);
        match checkpoint_tensor(checkpoint, name.as_str()) {
            Some(_) => {
                assert(deconv_run(b, n as nat) == deconv_run(b, (n + 1) as nat));
            },
            None => {
                assert(deconv_run(b, n as nat) == n);
                break;
            },
        }
        n = n + 1;
    }
    let emb_name = name_of(&['e', 'm', 'b'], None, &['.', 'w', 'e', 'i', 'g', 'h', 't']);
    let l1_name = name_of(&['l', '1'], None, &['.', 'w', 'e', 'i', 'g', 'h', 't']);
    assert(emb_name@ =~= seq!['e', 'm', 'b'] + weight());
    assert(l1_name@ =~= seq!['l', '1'] + weight());
    let emb = match tensor_dim(checkpoint, emb_name.as_str(), 1) {
        Err(e) => {
            return Err(e);
        },
        Ok(v) => v,
    };
    let latent = match tensor_dim(checkpoint, l1_name.as_str(), 0) {
        Err(e) => {
            return Err(e);
        },
        Ok(v) => v,
    };
    let d0 = deconv_weight_name(0);
    let c0 = match tensor_dim(checkpoint, d0.as_str(), 0) {
        Err(e) => {
            return Err(e);
        },
        Ok(v) => v,
    };
    let mut chans: Vec<usize> = vec![c0];
    assert(chans@.drop_first() =~= Seq::<usize>::empty());
    let mut i: u64 = 0;
    while i < n
        invariant
            b == checkpoint@,
            dim(b, seq!['e', 'm', 'b'] + weight(), 1) == Ok::<usize, ExportError>(emb),
            dim(b, seq!['l', '1'] + weight(), 0) == Ok::<usize, ExportError>(latent),
            dim(b, deconv_weight(0), 0) == Ok::<usize, ExportError>(c0),
            deconv_run(b, 0) == n,
            i <= n <= 64,
            chans_upto(b, i as nat) == Ok::<Seq<usize>, ExportError>(chans@.drop_first()),
            chans@.len() >= 1,
            chans@[0] == c0,
        decreases n - i,
    {
        let name = deconv_weight_name(i);
        match tensor_dim(checkpoint, name.as_str(), 1) {
            Err(e) => {
                proof {
                    assert(chans_upto(b, (i + 1) as nat) == Err::<Seq<usize>, ExportError>(e));
                    lemma_chans_err_stays(b, (i + 1) as nat, n as nat);
                }
                return Err(e);
            },
            Ok(c) => {
                let ghost prev = chans@.drop_first();
                chans.push(c);
                assert(chans@.drop_first() =~= prev.push(c));
                assert(chans_upto(b, (i + 1) as nat) == Ok::<Seq<usize>, ExportError>(prev.push(c)));
            },
        }
        i = i + 1;
    }
    assert(chans@ =~= seq![c0] + chans@.drop_first());
    if n >= 64 {
        return Err(ExportError::TooDeep);
    }
    let order = field_tensor_names(n);
    assert(names_view(order@).len() == order@.len());
    let (tensors, weights) = match read_tensors(checkpoint, &order) {
        Err(e) => {
            return Err(e);
        },
        Ok(read) => read,
    };
    let div = pow2_u64(n as u32);
    if h > u64::MAX - (div - 1) || w > u64::MAX - (div - 1) {
        return Err(ExportError::GridTooLarge);
    }
    let grid0 = seed_grid(h, w, n as u32);
    Ok(FieldExport { emb, latent, chans, grid0, tensors, weights })
}

/// A vector-model checkpoint's tensors as the export writes them.
pub struct VectorExport {
    /// Each written tensor's name and shape, in file order.
    pub tensors: Vec<(String, Vec<usize>)>,
    /// The tensors' data bytes concatenated in the same order.
    pub weights: Vec<u8>,
    /// The longest sequence the model reads: axis 0 of `pos_emb.weight`.
    pub max_pos: usize,
}

impl View for VectorExport {
    type V = (Seq<(Seq<char>, Seq<usize>)>, Seq<u8>, usize);

    open spec fn view(&self) -> Self::V {
        (metas_view(self.tensors@), self.weights@, self.max_pos)
    }
}

/// What exporting a vector-model checkpoint with `layers` blocks gives:
/// the tensors in `vector_names` order, each of them F32, and the model's
/// longest sequence.
pub open spec fn spec_vector_export(b: Seq<u8>, layers: u64) -> Result<
    (Seq<(Seq<char>, Seq<usize>)>, Seq<u8>, usize),
    ExportError,
> {
    let names = vector_names(layers as nat);
    match gather_upto(b, names, names.len()) {
        Err(e) => Err(e),
        Ok((metas, data)) => match dim(b, seq!['p', 'o', 's', '_', 'e', 'm', 'b'] + weight(), 0) {
            Err(e) => Err(e),
            Ok(max_pos) => Ok((metas, data, max_pos)),
        },
    }
}

/// Reads a vector-model checkpoint with `layers` blocks for export.
pub fn vector_export(checkpoint: &[u8], layers: u64) -> (r: Result<VectorExport, ExportError>)
    ensures
        match r {
            Ok(ve) => spec_vector_export(checkpoint@, layers) == Ok::<_, ExportError>(ve@),
            Err(e) => spec_vector_export(checkpoint@, layers) == Err::<
                (Seq<(Seq<char>, Seq<usize>)>, Seq<u8>, usize),
                ExportError,
            >(e),
        },
{
    let order = vector_tensor_names(layers);
    assert(names_view(order@).len() == order@.len());
    let (tensors, weights) = match read_tensors(checkpoint, &order) {
        Err(e) => {
            return Err(e);
        },
        Ok(read) => read,
    };
    let pos = name_of(&['p', 'o', 's', '_', 'e', 'm', 'b'], None, &['.', 'w', 'e', 'i', 'g', 'h', 't']);
    assert(pos@ =~= seq!['p', 'o', 's', '_', 'e', 'm', 'b'] + weight());
    let max_pos = match tensor_dim(checkpoint, pos.as_str(), 0) {
        Err(e) => {
            return Err(e);
        },
        Ok(v) => v,
    };
    Ok(VectorExport { tensors, weights, max_pos })
}

} // verus!
