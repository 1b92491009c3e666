//! Training-run log bookkeeping for the dashboard: cumulative epoch
//! numbers across resumed runs, and the remaining-time label.
use vstd::prelude::*;
use crate::container::{has_prefix, starts_with};
use crate::text::{
    decimal, parse_u32, pieces, push_char, push_decimal_nat, spec_parse_u32, spec_strip, split_at_char,
    split_words, string_of, strip, words,
};

verus! {

/// After the first `k` epoch lines: the offset added to raw counters,
/// and the last cumulative epoch number (0 before any).
pub open spec fn epoch_state(raw: Seq<u32>, k: int) -> (int, int)
    decreases k,
{
    if k <= 0 {
        (0, 0)
    } else {
        let (off, last) = epoch_state(raw, k - 1);
        let off2 = if raw[k - 1] + off <= last {
            last
        } else {
            off
        };
        (off2, raw[k - 1] + off2)
    }
}

/// The cumulative number of epoch line `k`.
pub open spec fn epoch_number(raw: Seq<u32>, k: int) -> int {
    epoch_state(raw, k + 1).1
}

/// Number the epoch lines of a log cumulatively: a resumed run restarts
/// its counter in the same log, so whenever a raw counter fails to move
/// past the last number, the numbering continues from that last number.
pub fn epoch_numbers(raw: &[u32]) -> (r: Vec<u32>)
    requires
        forall|k: int| 0 <= k < raw@.len() ==> #[trigger] epoch_number(raw@, k) <= u32::MAX,
    ensures
        r@.len() == raw@.len(),
        forall|k: int| 0 <= k < raw@.len() ==> #[trigger] r@[k] == epoch_number(raw@, k),
{
    let n = raw.len();
    let mut out: Vec<u32> = Vec::new();
    let mut off: u32 = 0;
    let mut last: u32 = 0;
    let mut k: usize = 0;
    while k < n
        invariant
            n == raw@.len(),
            k <= n,
            forall|j: int| 0 <= j < raw@.len() ==> #[trigger] epoch_number(raw@, j) <= u32::MAX,
            (off as int, last as int) == epoch_state(raw@, k as int),
            out@.len() == k,
            forall|j: int| 0 <= j < k ==> #[trigger] out@[j] == epoch_number(raw@, j),
        decreases n - k,
    {
        proof {
            lemma_epoch_offset(raw@, k as int);
            assert(epoch_number(raw@, k as int) <= u32::MAX);
        }
        if raw[k] as u64 + off as u64 <= last as u64 {
            off = last;
        }
        let e = raw[k] + off;
        out.push(e);
        last = e;
        k = k + 1;
    }
    out
}

proof fn lemma_epoch_offset(raw: Seq<u32>, k: int)
    requires
        0 <= k,
    ensures
        0 <= epoch_state(raw, k).0 <= epoch_state(raw, k).1,
    decreases k,
{
    if k > 0 {
        lemma_epoch_offset(raw, k - 1);
    }
}

/// Epoch numbers never go back, and a line whose raw counter is at
/// least 1 always gets a new, larger number.
pub proof fn lemma_epochs_rise(raw: Seq<u32>, k: int)
    requires
        1 <= k < raw.len(),
    ensures
        epoch_number(raw, k - 1) <= epoch_number(raw, k),
        raw[k] >= 1 ==> epoch_number(raw, k - 1) < epoch_number(raw, k),
{
    lemma_epoch_offset(raw, k);
}

/// A number below 100 as two digits, with a leading zero if needed.
pub open spec fn two_digits(n: nat) -> Seq<char> {
    if n < 10 {
        seq!['0'] + decimal(n)
    } else {
        decimal(n)
    }
}

/// The remaining-time label for `s` whole seconds: hours and minutes
/// from an hour up, else minutes and seconds.
pub open spec fn eta_label(s: nat) -> Seq<char> {
    if s >= 3600 {
        decimal(s / 3600) + seq!['h', ' '] + two_digits((s % 3600) / 60) + seq!['m']
    } else {
        decimal(s / 60) + seq!['m', ' '] + two_digits(s % 60) + seq!['s']
    }
}

fn push_two_digits(out: &mut String, n: u64)
    requires
        n < 100,
    ensures
        final(out)@ == old(out)@ + two_digits(n as nat),
{
    if n < 10 {
        push_char(out, '0');
    }
    push_decimal_nat(out, n as u128);
    assert(final(out)@ =~= old(out)@ + two_digits(n as nat));
}

/// Format a remaining time of `s` seconds, as "1h 05m" or "4m 09s".
pub fn fmt_eta(s: u64) -> (r: String)
    ensures
        r@ == eta_label(s as nat),
{
    let mut out = String::new();
    if s >= 3600 {
        push_decimal_nat(&mut out, (s / 3600) as u128);
        push_char(&mut out, 'h');
        push_char(&mut out, ' ');
        push_two_digits(&mut out, (s % 3600) / 60);
        push_char(&mut out, 'm');
    } else {
        push_decimal_nat(&mut out, (s / 60) as u128);
        push_char(&mut out, 'm');
        push_char(&mut out, ' ');
        push_two_digits(&mut out, s % 60);
        push_char(&mut out, 's');
    }
    assert(out@ =~= eta_label(s as nat));
    out
}


/// A run setting that the trainer logs on a line of its own.
pub enum Setting {
    Device,
    Rows,
    Model,
    Lr,
    Batch,
    Oversample,
}

/// The text a setting's line starts with.
pub open spec fn setting_prefix(st: Setting) -> Seq<char> {
    match st {
        Setting::Device => seq!['d', 'e', 'v', 'i', 'c', 'e', ':'],
        Setting::Rows => seq!['r', 'o', 'w', 's', ':'],
        Setting::Model => seq!['m', 'o', 'd', 'e', 'l', ':'],
        Setting::Lr => seq!['l', 'r', ':'],
        Setting::Batch => seq!['b', 'a', 't', 'c', 'h', ' ', 's', 'i', 'z', 'e', ':'],
        Setting::Oversample => seq!['o', 'v', 'e', 'r', 's', 'a', 'm', 'p', 'l', 'i', 'n', 'g'],
    }
}

/// The setting a line reports, trying the prefixes in the order device,
/// rows, model, lr, batch size, oversampling.
pub open spec fn setting_of(s: Seq<char>) -> Option<Setting> {
    if starts_with(s, setting_prefix(Setting::Device)) {
        Some(Setting::Device)
    } else if starts_with(s, setting_prefix(Setting::Rows)) {
        Some(Setting::Rows)
    } else if starts_with(s, setting_prefix(Setting::Model)) {
        Some(Setting::Model)
    } else if starts_with(s, setting_prefix(Setting::Lr)) {
        Some(Setting::Lr)
    } else if starts_with(s, setting_prefix(Setting::Batch)) {
        Some(Setting::Batch)
    } else if starts_with(s, setting_prefix(Setting::Oversample)) {
        Some(Setting::Oversample)
    } else {
        None
    }
}

/// The start of the line a resumed run logs.
pub open spec fn resumed_prefix() -> Seq<char> {
    seq!['r', 'e', 's', 'u', 'm', 'e', 'd', ' ', 'f', 'r', 'o', 'm']
}

/// The first word of an epoch line.
pub open spec fn epoch_word() -> Seq<char> {
    seq!['e', 'p', 'o', 'c', 'h']
}

/// An epoch line: `epoch N train loss X val mse Y val IoU Z (Ss)`, at
/// least twelve words, the first `epoch`.
pub open spec fn is_epoch_line(s: Seq<char>) -> bool {
    words(s).len() >= 12 && words(s)[0] == epoch_word()
}

/// The fields of an epoch line: the raw epoch counter (0 when it does
/// not parse), and the texts of the train loss, validation error,
/// validation IoU and seconds.
pub struct EpochLine {
    pub raw: u32,
    pub loss: String,
    pub mse: String,
    pub iou: String,
    pub secs: String,
}

/// What one line of a training log says.
pub enum LogLine {
    Setting(Setting, String),
    Resumed,
    Epoch(EpochLine),
    Other,
}

/// `r` is what the log line `s` says: a setting with the rest of the
/// line trimmed; a resumed run; an epoch line's words 1, 4, 7, 10 and
/// 11 (the last without its parentheses and `s` unit); or nothing.
pub open spec fn reads_as(s: Seq<char>, r: LogLine) -> bool {
    match setting_of(s) {
        Some(st) => r matches LogLine::Setting(st2, v) && st2 == st && v@ == spec_strip(
            s.skip(setting_prefix(st).len() as int),
            false,
        ),
        None => if starts_with(s, resumed_prefix()) {
            r is Resumed
        } else if is_epoch_line(s) {
            let w = words(s);
            r matches LogLine::Epoch(e) && e.raw == (match spec_parse_u32(w[1]) {
                Some(v) => v,
                None => 0,
            }) && e.loss@ == w[4] && e.mse@ == w[7] && e.iou@ == w[10] && e.secs@ == spec_strip(w[11], true)
        } else {
            r is Other
        },
    }
}

fn prefix_chars(st: &Setting) -> (r: Vec<char>)
    ensures
        r@ == setting_prefix(*st),
{
    let r = match st {
        Setting::Device => vec!['d', 'e', 'v', 'i', 'c', 'e', ':'],
        Setting::Rows => vec!['r', 'o', 'w', 's', ':'],
        Setting::Model => vec!['m', 'o', 'd', 'e', 'l', ':'],
        Setting::Lr => vec!['l', 'r', ':'],
        Setting::Batch => vec!['b', 'a', 't', 'c', 'h', ' ', 's', 'i', 'z', 'e', ':'],
        Setting::Oversample => vec!['o', 'v', 'e', 'r', 's', 'a', 'm', 'p', 'l', 'i', 'n', 'g'],
    };
    assert(r@ =~= setting_prefix(*st));
    r
}

fn find_setting(s: &[char]) -> (r: Option<Setting>)
    ensures
        r == setting_of(s@),
{
    if has_prefix(s, &prefix_chars(&Setting::Device)) {
        return Some(Setting::Device);
    }
    if has_prefix(s, &prefix_chars(&Setting::Rows)) {
        return Some(Setting::Rows);
    }
    if has_prefix(s, &prefix_chars(&Setting::Model)) {
        return Some(Setting::Model);
    }
    if has_prefix(s, &prefix_chars(&Setting::Lr)) {
        return Some(Setting::Lr);
    }
    if has_prefix(s, &prefix_chars(&Setting::Batch)) {
        return Some(Setting::Batch);
    }
    if has_prefix(s, &prefix_chars(&Setting::Oversample)) {
        return Some(Setting::Oversample);
    }
    None
}

fn same_chars(a: &[char], b: &[char]) -> (r: bool)
    ensures
        r == (a@ == b@),
{
    if a.len() != b.len() {
        return false;
    }
    let mut i: usize = 0;
    while i < a.len()
        invariant
            a@.len() == b@.len(),
            i <= a@.len(),
            forall|k: int| 0 <= k < i ==> a@[k] == b@[k],
        decreases a@.len() - i,
    {
        if a[i] != b[i] {
            return false;
        }
        i = i + 1;
    }
    assert(a@ =~= b@);
    true
}

/// Read one line of a training log.
pub fn read_line(line: &str) -> (r: LogLine)
    ensures
        reads_as(line@, r),
{
    let s = crate::text::chars_of(line);
    match find_setting(&s) {
        Some(st) => {
            let p = prefix_chars(&st);
            let plen = p.len();
            let mut rest: Vec<char> = Vec::new();
            let mut i: usize = plen;
            while i < s.len()
                invariant
                    plen <= i <= s@.len(),
                    rest@ == s@.subrange(plen as int, i as int),
                decreases s@.len() - i,
            {
                rest.push(s[i]);
                i = i + 1;
                assert(rest@ =~= s@.subrange(plen as int, i as int));
            }
            assert(rest@ =~= s@.skip(plen as int));
            let v = strip(&rest, false);
            LogLine::Setting(st, string_of(&v))
        },
        None => {
            let resumed = vec!['r', 'e', 's', 'u', 'm', 'e', 'd', ' ', 'f', 'r', 'o', 'm'];
            assert(resumed@ =~= resumed_prefix());
            if has_prefix(&s, &resumed) {
                return LogLine::Resumed;
            }
            let w = split_words(&s);
            let ghost wv = w@.map_values(|x: Vec<char>| x@);
            let ep = vec!['e', 'p', 'o', 'c', 'h'];
            assert(ep@ =~= epoch_word());
            if w.len() >= 12 && same_chars(&w[0], &ep) {
                assert(wv[0] == w@[0]@);
                assert(wv[1] == w@[1]@);
                assert(wv[4] == w@[4]@);
                assert(wv[7] == w@[7]@);
                assert(wv[10] == w@[10]@);
                assert(wv[11] == w@[11]@);
                let raw = match parse_u32(&w[1]) {
                    Some(v) => v,
                    None => 0,
                };
                let secs = strip(&w[11], true);
                LogLine::Epoch(
                    EpochLine {
                        raw,
                        loss: string_of(&w[4]),
                        mse: string_of(&w[7]),
                        iou: string_of(&w[10]),
                        secs: string_of(&secs),
                    },
                )
            } else {
                proof {
                    if wv.len() >= 12 {
                        assert(wv[0] == w@[0]@);
                    }
                }
                LogLine::Other
            }
        },
    }
}


/// A number as `str::parse::<u16>` reads it, 0 when it does not parse.
pub open spec fn u16_or_zero(s: Seq<char>) -> u16 {
    match spec_parse_u32(s) {
        Some(v) => if v <= u16::MAX {
            v as u16
        } else {
            0
        },
        None => 0,
    }
}

/// The GPU query's fields: utilization and temperature as integers (0
/// when they do not parse), and the texts of the memory in use, the
/// memory in all and the power draw.
pub struct GpuLine {
    pub util: u16,
    pub mem_used: String,
    pub mem_total: String,
    pub temp: u16,
    pub watts: String,
}

/// The trimmed comma-separated fields of the trimmed text.
pub open spec fn gpu_fields(s: Seq<char>) -> Seq<Seq<char>> {
    pieces(spec_strip(s, false), ',').map_values(|f: Seq<char>| spec_strip(f, false))
}

/// Read the GPU query's output (utilization, memory used, memory total,
/// temperature, power draw, comma-separated): `None` when it has fewer
/// than five fields.
pub fn read_gpu_line(out: &str) -> (r: Option<GpuLine>)
    ensures
        gpu_fields(out@).len() < 5 <==> r is None,
        r matches Some(g) ==> {
            let f = gpu_fields(out@);
            &&& g.util == u16_or_zero(f[0])
            &&& g.mem_used@ == f[1]
            &&& g.mem_total@ == f[2]
            &&& g.temp == u16_or_zero(f[3])
            &&& g.watts@ == f[4]
        },
{
    let s = crate::text::chars_of(out);
    let t = strip(&s, false);
    let ps = split_at_char(&t, ',');
    let ghost pv = ps@.map_values(|w: Vec<char>| w@);
    let ghost fv = gpu_fields(out@);
    assert(fv.len() == pv.len());
    if ps.len() < 5 {
        return None;
    }
    let mut f: Vec<Vec<char>> = Vec::new();
    let mut k: usize = 0;
    while k < 5
        invariant
            k <= 5 <= ps@.len(),
            pv == ps@.map_values(|w: Vec<char>| w@),
            fv == pv.map_values(|x: Seq<char>| spec_strip(x, false)),
            f@.len() == k,
            forall|q: int| 0 <= q < k ==> (#[trigger] f@[q])@ == fv[q],
        decreases 5 - k,
    {
        assert(pv[k as int] == ps@[k as int]@);
        f.push(strip(&ps[k], false));
        k = k + 1;
    }
    let util = match parse_u32(&f[0]) {
        Some(v) => if v <= 0xffff {
            v as u16
        } else {
            0
        },
        None => 0,
    };
    let temp = match parse_u32(&f[3]) {
        Some(v) => if v <= 0xffff {
            v as u16
        } else {
            0
        },
        None => 0,
    };
    Some(
        GpuLine {
            util,
            mem_used: string_of(&f[1]),
            mem_total: string_of(&f[2]),
            temp,
            watts: string_of(&f[4]),
        },
    )
}

} // verus!
