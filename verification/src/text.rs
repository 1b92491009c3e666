//! Character-level helpers: building strings, decimal numbers.
use vstd::prelude::*;

verus! {

/// Appends one character to a string.
///
/// Calls `String::push`, whose documentation says it appends the given
/// char to the end of the string; the contract states exactly that.
#[verifier::external_body]
pub(crate) fn push_char(s: &mut String, c: char)
    ensures
        final(s)@ == old(s)@.push(c),
{
    s.push(c);
}

/// A string holding exactly the given characters.
pub fn string_of(cs: &[char]) -> (r: String)
    ensures
        r@ == cs@,
{
    let mut r = String::new();
    let mut i: usize = 0;
    while i < cs.len()
        invariant
            i <= cs@.len(),
            r@ == cs@.take(i as int),
        decreases cs@.len() - i,
    {
        push_char(&mut r, cs[i]);
        i = i + 1;
        assert(r@ =~= cs@.take(i as int));
    }
    assert(cs@.take(cs@.len() as int) =~= cs@);
    r
}

/// The characters of a string.
pub fn chars_of(text: &str) -> (v: Vec<char>)
    ensures
        v@ == text@,
{
    let mut v: Vec<char> = Vec::new();
    for c in it: text.chars()
        invariant
            v@ == it.seq().take(it.index() as int),
    {
        v.push(c);
    }
    v
}

/// An ASCII decimal digit.
pub open spec fn is_digit(c: char) -> bool {
    '0' <= c <= '9'
}

/// The value of a digit character.
pub open spec fn digit_value(c: char) -> int {
    c as int - '0' as int
}

/// The value of a string of decimal digits (most significant first).
pub open spec fn digits_value(ds: Seq<char>) -> int
    decreases ds.len(),
{
    if ds.len() == 0 {
        0
    } else {
        digits_value(ds.drop_last()) * 10 + digit_value(ds.last())
    }
}

/// Decimal parsing of a signed 64-bit integer: an optional `+` or `-`
/// followed by one or more ASCII digits, the value in range.
pub open spec fn spec_parse_i64(s: Seq<char>) -> Option<i64> {
    let ds = unsigned_part(s);
    let v = if s.len() > 0 && s[0] == '-' {
        -digits_value(ds)
    } else {
        digits_value(ds)
    };
    if ds.len() == 0 || !all_digits(ds) {
        None
    } else if i64::MIN <= v <= i64::MAX {
        Some(v as i64)
    } else {
        None
    }
}

/// The text after an optional leading sign.
pub open spec fn unsigned_part(s: Seq<char>) -> Seq<char> {
    if s.len() > 0 && (s[0] == '-' || s[0] == '+') {
        s.drop_first()
    } else {
        s
    }
}

/// Every character is an ASCII digit.
pub open spec fn all_digits(ds: Seq<char>) -> bool {
    forall|k: int| 0 <= k < ds.len() ==> is_digit(#[trigger] ds[k])
}

proof fn lemma_digits_value_nonneg(ds: Seq<char>)
    requires
        forall|k: int| 0 <= k < ds.len() ==> is_digit(#[trigger] ds[k]),
    ensures
        digits_value(ds) >= 0,
    decreases ds.len(),
{
    if ds.len() > 0 {
        assert forall|k: int| 0 <= k < ds.drop_last().len() implies is_digit(#[trigger] ds.drop_last()[k]) by {
            assert(ds.drop_last()[k] == ds[k]);
        }
        lemma_digits_value_nonneg(ds.drop_last());
        assert(is_digit(ds[ds.len() - 1]));
    }
}

proof fn lemma_digits_value_grows(ds: Seq<char>, n: int)
    requires
        0 <= n <= ds.len(),
        forall|k: int| 0 <= k < ds.len() ==> is_digit(#[trigger] ds[k]),
    ensures
        digits_value(ds.take(n)) <= digits_value(ds),
    decreases ds.len() - n,
{
    if n < ds.len() {
        lemma_digits_value_grows(ds, n + 1);
        let t = ds.take(n + 1);
        assert(t.drop_last() =~= ds.take(n));
        assert forall|k: int| 0 <= k < ds.take(n).len() implies is_digit(#[trigger] ds.take(n)[k]) by {
            assert(ds.take(n)[k] == ds[k]);
        }
        lemma_digits_value_nonneg(ds.take(n));
        assert(is_digit(ds[n]));
    } else {
        assert(ds.take(n) =~= ds);
    }
}

/// Parse a decimal `i64` the way `str::parse::<i64>` does.
pub fn parse_i64(s: &[char]) -> (r: Option<i64>)
    ensures
        r == spec_parse_i64(s@),
{
    let n = s.len();
    let neg = n > 0 && s[0] == '-';
    let start: usize = if n > 0 && (s[0] == '-' || s[0] == '+') {
        1
    } else {
        0
    };
    let ghost ds = unsigned_part(s@);
    assert(ds =~= s@.skip(start as int));
    if start == n {
        return None;
    }
    // Accumulate the magnitude; i128 holds any value that could still fit.
    let mut acc: i128 = 0;
    let mut i: usize = start;
    while i < n
        invariant
            n == s@.len(),
            start <= i <= n,
            ds =~= s@.skip(start as int),
            ds == unsigned_part(s@),
            forall|k: int| 0 <= k < i - start ==> is_digit(#[trigger] ds[k]),
            acc == digits_value(ds.take(i - start)),
            0 <= acc <= 0x8000_0000_0000_0000,
        decreases n - i,
    {
        let c = s[i];
        if !('0' <= c && c <= '9') {
            assert(!is_digit(ds[i - start]));
            assert(!all_digits(ds));
            return None;
        }
        let d = (c as u32 - '0' as u32) as i128;
        let ghost prev = ds.take(i - start);
        assert(ds.take(i + 1 - start).drop_last() =~= prev);
        let next = acc * 10 + d;
        if next > 0x8000_0000_0000_0000 {
            proof {
                assert(digits_value(ds.take(i + 1 - start)) == next);
                if all_digits(ds) {
                    lemma_digits_value_grows(ds, i + 1 - start);
                    assert(digits_value(ds) > 0x8000_0000_0000_0000);
                }
                assert(spec_parse_i64(s@) is None);
            }
            return None;
        }
        acc = next;
        i = i + 1;
    }
    assert(ds.take(n - start) =~= ds);
    if neg {
        Some((-acc) as i64)
    } else if acc <= 0x7fff_ffff_ffff_ffff {
        Some(acc as i64)
    } else {
        None
    }
}

/// The decimal digits of a natural number.
pub open spec fn decimal(n: nat) -> Seq<char>
    decreases n,
{
    if n < 10 {
        seq![(n + '0' as int) as char]
    } else {
        decimal(n / 10).push(((n % 10) + '0' as int) as char)
    }
}

/// The decimal form of an integer, with a `-` for negatives.
pub open spec fn signed_decimal(v: int) -> Seq<char> {
    if v < 0 {
        seq!['-'] + decimal((-v) as nat)
    } else {
        decimal(v as nat)
    }
}

/// Append the decimal digits of `n`.
pub fn push_decimal_nat(s: &mut String, n: u128)
    ensures
        final(s)@ == old(s)@ + decimal(n as nat),
    decreases n,
{
    if n < 10 {
        push_char(s, ((n as u8) + 48u8) as char);
        assert(decimal(n as nat) =~= seq![((n + '0' as int) as char)]);
    } else {
        push_decimal_nat(s, n / 10);
        push_char(s, (((n % 10) as u8) + 48u8) as char);
    }
}

/// Append the decimal form of `v`.
pub fn push_decimal(s: &mut String, v: i128)
    ensures
        final(s)@ == old(s)@ + signed_decimal(v as int),
{
    if v < 0 {
        push_char(s, '-');
        let m: u128 = if v == i128::MIN {
            0x8000_0000_0000_0000_0000_0000_0000_0000
        } else {
            (-v) as u128
        };
        push_decimal_nat(s, m);
    } else {
        push_decimal_nat(s, v as u128);
    }
}


/// A character with the Unicode `White_Space` property (what
/// `char::is_whitespace` tests).
pub open spec fn is_ws(c: char) -> bool {
    ('\u{9}' <= c <= '\u{d}') || c == ' ' || c == '\u{85}' || c == '\u{a0}' || c == '\u{1680}' || (
    '\u{2000}' <= c <= '\u{200a}') || c == '\u{2028}' || c == '\u{2029}' || c == '\u{202f}' || c
        == '\u{205f}' || c == '\u{3000}'
}

/// Is `c` whitespace?
pub fn whitespace(c: char) -> (r: bool)
    ensures
        r == is_ws(c),
{
    ('\u{9}' <= c && c <= '\u{d}') || c == ' ' || c == '\u{85}' || c == '\u{a0}' || c == '\u{1680}'
        || ('\u{2000}' <= c && c <= '\u{200a}') || c == '\u{2028}' || c == '\u{2029}' || c
        == '\u{202f}' || c == '\u{205f}' || c == '\u{3000}'
}

/// The characters a strip removes: whitespace, or (for `parens`) the
/// characters `(`, `)` and `s`.
pub open spec fn strip_set(c: char, parens: bool) -> bool {
    if parens {
        c == '(' || c == ')' || c == 's'
    } else {
        is_ws(c)
    }
}

fn in_strip_set(c: char, parens: bool) -> (r: bool)
    ensures
        r == strip_set(c, parens),
{
    if parens {
        c == '(' || c == ')' || c == 's'
    } else {
        whitespace(c)
    }
}

/// `s` without its leading characters of the strip set.
pub open spec fn strip_front(s: Seq<char>, parens: bool) -> Seq<char>
    decreases s.len(),
{
    if s.len() > 0 && strip_set(s[0], parens) {
        strip_front(s.drop_first(), parens)
    } else {
        s
    }
}

/// `s` without its trailing characters of the strip set.
pub open spec fn strip_back(s: Seq<char>, parens: bool) -> Seq<char>
    decreases s.len(),
{
    if s.len() > 0 && strip_set(s.last(), parens) {
        strip_back(s.drop_last(), parens)
    } else {
        s
    }
}

/// `s` without leading and trailing characters of the strip set (with
/// `parens` false: `str::trim`).
pub open spec fn spec_strip(s: Seq<char>, parens: bool) -> Seq<char> {
    strip_back(strip_front(s, parens), parens)
}

/// Strip the characters of the strip set from both ends of `s`.
pub fn strip(s: &[char], parens: bool) -> (r: Vec<char>)
    ensures
        r@ == spec_strip(s@, parens),
{
    let n = s.len();
    let mut a: usize = 0;
    assert(s@.skip(0) =~= s@);
    while a < n && in_strip_set(s[a], parens)
        invariant
            n == s@.len(),
            a <= n,
            strip_front(s@, parens) == strip_front(s@.skip(a as int), parens),
        decreases n - a,
    {
        assert(s@.skip(a as int).drop_first() =~= s@.skip(a as int + 1));
        a = a + 1;
    }
    let ghost f = s@.skip(a as int);
    assert(strip_front(f, parens) == f);
    let mut b: usize = n;
    assert(f.take(f.len() as int) =~= f);
    while b > a && in_strip_set(s[b - 1], parens)
        invariant
            n == s@.len(),
            a <= b <= n,
            f == s@.skip(a as int),
            strip_back(f, parens) == strip_back(f.take(b - a), parens),
        decreases b,
    {
        assert(f.take(b - a).drop_last() =~= f.take(b - 1 - a));
        assert(f.take(b - a).last() == s@[b - 1]);
        b = b - 1;
    }
    let mut r: Vec<char> = Vec::new();
    let mut i: usize = a;
    while i < b
        invariant
            a <= i <= b <= n,
            n == s@.len(),
            r@ == s@.subrange(a as int, i as int),
        decreases b - i,
    {
        r.push(s[i]);
        i = i + 1;
        assert(r@ =~= s@.subrange(a as int, i as int));
    }
    assert(f.take(b - a) =~= s@.subrange(a as int, b as int));
    if b > a {
        assert(f.take(b - a).last() == s@[b - 1]);
    }
    r
}

/// The words of `s[i..]`, given the word `cur` in progress: maximal
/// runs of non-whitespace characters (what `str::split_whitespace`
/// yields).
pub open spec fn words_from(s: Seq<char>, i: int, cur: Seq<char>) -> Seq<Seq<char>>
    decreases s.len() - i,
{
    let done: Seq<Seq<char>> = if cur.len() > 0 {
        seq![cur]
    } else {
        seq![]
    };
    if i >= s.len() || i < 0 {
        done
    } else if is_ws(s[i]) {
        done + words_from(s, i + 1, seq![])
    } else {
        words_from(s, i + 1, cur.push(s[i]))
    }
}

/// The whitespace-separated words of `s`.
pub open spec fn words(s: Seq<char>) -> Seq<Seq<char>> {
    words_from(s, 0, seq![])
}

/// Split `s` into its whitespace-separated words.
pub fn split_words(s: &[char]) -> (r: Vec<Vec<char>>)
    ensures
        r@.map_values(|w: Vec<char>| w@) == words(s@),
{
    let n = s.len();
    let mut out: Vec<Vec<char>> = Vec::new();
    let mut cur: Vec<char> = Vec::new();
    let mut i: usize = 0;
    while i < n
        invariant
            n == s@.len(),
            i <= n,
            words(s@) == out@.map_values(|w: Vec<char>| w@) + words_from(s@, i as int, cur@),
        decreases n - i,
    {
        let ghost before = out@.map_values(|w: Vec<char>| w@);
        let ghost cv = cur@;
        if whitespace(s[i]) {
            if cur.len() > 0 {
                out.push(cur);
                assert(out@.map_values(|w: Vec<char>| w@) =~= before.push(cv));
            }
            cur = Vec::new();
            assert(words_from(s@, i as int, cv) == (if cv.len() > 0 {
                seq![cv]
            } else {
                Seq::<Seq<char>>::empty()
            }) + words_from(s@, i + 1, seq![]));
            assert(cur@ =~= Seq::<char>::empty());
            proof {
                if cv.len() > 0 {
                    assert(before + (seq![cv] + words_from(s@, i + 1, seq![])) =~= before.push(cv) + words_from(s@, i + 1, seq![]));
                } else {
                    assert(before + (Seq::<Seq<char>>::empty() + words_from(s@, i + 1, seq![])) =~= before + words_from(s@, i + 1, seq![]));
                }
            }
        } else {
            cur.push(s[i]);
        }
        i = i + 1;
    }
    let ghost before = out@.map_values(|w: Vec<char>| w@);
    let ghost cv = cur@;
    if cur.len() > 0 {
        out.push(cur);
        assert(out@.map_values(|w: Vec<char>| w@) =~= before.push(cv));
        assert(before + seq![cv] =~= before.push(cv));
    } else {
        assert(before + Seq::<Seq<char>>::empty() =~= before);
    }
    out
}

/// Decimal parsing of an unsigned 32-bit integer: an optional `+`
/// followed by one or more ASCII digits, the value in range (what
/// `str::parse::<u32>` accepts).
pub open spec fn spec_parse_u32(s: Seq<char>) -> Option<u32> {
    if s.len() > 0 && s[0] == '-' {
        None
    } else {
        match spec_parse_i64(s) {
            Some(v) => if 0 <= v <= u32::MAX {
                Some(v as u32)
            } else {
                None
            },
            None => None,
        }
    }
}

/// Parse a decimal `u32` the way `str::parse::<u32>` does.
pub fn parse_u32(s: &[char]) -> (r: Option<u32>)
    ensures
        r == spec_parse_u32(s@),
{
    if s.len() > 0 && s[0] == '-' {
        return None;
    }
    match parse_i64(s) {
        Some(v) => if 0 <= v && v <= 0xffff_ffff {
            Some(v as u32)
        } else {
            None
        },
        None => None,
    }
}


/// The pieces of `s[i..]` between occurrences of `sep`, given the piece
/// `cur` in progress (what `str::split` with a char yields: empty
/// pieces included).
pub open spec fn pieces_from(s: Seq<char>, sep: char, i: int, cur: Seq<char>) -> Seq<Seq<char>>
    decreases s.len() - i,
{
    if i >= s.len() || i < 0 {
        seq![cur]
    } else if s[i] == sep {
        seq![cur] + pieces_from(s, sep, i + 1, seq![])
    } else {
        pieces_from(s, sep, i + 1, cur.push(s[i]))
    }
}

/// The pieces of `s` between occurrences of `sep`.
pub open spec fn pieces(s: Seq<char>, sep: char) -> Seq<Seq<char>> {
    pieces_from(s, sep, 0, seq![])
}

/// Split `s` at every `sep`.
pub fn split_at_char(s: &[char], sep: char) -> (r: Vec<Vec<char>>)
    ensures
        r@.map_values(|w: Vec<char>| w@) == pieces(s@, sep),
{
    let n = s.len();
    let mut out: Vec<Vec<char>> = Vec::new();
    let mut cur: Vec<char> = Vec::new();
    let mut i: usize = 0;
    while i < n
        invariant
            n == s@.len(),
            i <= n,
            pieces(s@, sep) == out@.map_values(|w: Vec<char>| w@) + pieces_from(s@, sep, i as int, cur@),
        decreases n - i,
    {
        let ghost before = out@.map_values(|w: Vec<char>| w@);
        let ghost cv = cur@;
        if s[i] == sep {
            out.push(cur);
            cur = Vec::new();
            assert(out@.map_values(|w: Vec<char>| w@) =~= before.push(cv));
            assert(cur@ =~= Seq::<char>::empty());
            assert(before + (seq![cv] + pieces_from(s@, sep, i + 1, seq![])) =~= before.push(cv)
                + pieces_from(s@, sep, i + 1, seq![]));
        } else {
            cur.push(s[i]);
        }
        i = i + 1;
    }
    let ghost before = out@.map_values(|w: Vec<char>| w@);
    let ghost cv = cur@;
    out.push(cur);
    assert(out@.map_values(|w: Vec<char>| w@) =~= before.push(cv));
    assert(before + seq![cv] =~= before.push(cv));
    out
}

} // verus!
