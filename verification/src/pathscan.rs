//! The outline text that extraction writes for each glyph (`M`, `L`,
//! `Q`, `C` and `Z` commands with space-separated numbers), split into
//! commands and their number texts.
use vstd::prelude::*;

verus! {

/// A command letter of the outline text.
pub open spec fn is_command(c: char) -> bool {
    c == 'M' || c == 'L' || c == 'Q' || c == 'C' || c == 'Z'
}

/// The scanner's state: the commands applied so far (each with its
/// number texts), the pending command (`' '` for none), the numbers
/// read since the last application, and the number text in progress.
pub type ScanState = (Seq<(char, Seq<Seq<char>>)>, char, Seq<Seq<char>>, Seq<char>);

/// `nums` with the number text `cur` appended, when there is one.
pub open spec fn flushed(nums: Seq<Seq<char>>, cur: Seq<char>) -> Seq<Seq<char>> {
    if cur.len() > 0 {
        nums.push(cur)
    } else {
        nums
    }
}

/// The scanner after reading `c`. A command letter ends the number in
/// progress and applies the pending command to the numbers read (a
/// pending none keeps them); `Z` applies at once. A space ends the
/// number in progress; any other character extends it.
pub open spec fn scan_step(st: ScanState, c: char) -> ScanState {
    let (ops, cmd, nums, cur) = st;
    if is_command(c) {
        let n1 = flushed(nums, cur);
        let (ops1, n2) = if cmd != ' ' {
            (ops.push((cmd, n1)), Seq::<Seq<char>>::empty())
        } else {
            (ops, n1)
        };
        if c == 'Z' {
            (ops1.push(('Z', n2)), ' ', Seq::<Seq<char>>::empty(), Seq::<char>::empty())
        } else {
            (ops1, c, n2, Seq::<char>::empty())
        }
    } else if c == ' ' {
        (ops, cmd, flushed(nums, cur), Seq::<char>::empty())
    } else {
        (ops, cmd, nums, cur.push(c))
    }
}

/// The scanner after the first `k` characters of `d`.
pub open spec fn scan(d: Seq<char>, k: int) -> ScanState
    decreases k,
{
    if k <= 0 {
        (Seq::empty(), ' ', Seq::empty(), Seq::empty())
    } else {
        scan_step(scan(d, k - 1), d[k - 1])
    }
}

/// The commands of an outline text in order, each with its number
/// texts: at the end the number in progress is read and a pending
/// command applied.
pub open spec fn spec_path_ops(d: Seq<char>) -> Seq<(char, Seq<Seq<char>>)> {
    let (ops, cmd, nums, cur) = scan(d, d.len() as int);
    let n1 = flushed(nums, cur);
    if cmd != ' ' {
        ops.push((cmd, n1))
    } else {
        ops
    }
}

/// The value of a list of commands.
pub open spec fn ops_view(v: Seq<(char, Vec<Vec<char>>)>) -> Seq<(char, Seq<Seq<char>>)> {
    v.map_values(|o: (char, Vec<Vec<char>>)| (o.0, o.1@.map_values(|t: Vec<char>| t@)))
}

fn flush(nums: &mut Vec<Vec<char>>, cur: &mut Vec<char>)
    ensures
        final(nums)@.map_values(|t: Vec<char>| t@) == flushed(
            old(nums)@.map_values(|t: Vec<char>| t@),
            old(cur)@,
        ),
        final(cur)@ == Seq::<char>::empty(),
{
    let ghost n0 = old(nums)@.map_values(|t: Vec<char>| t@);
    if cur.len() > 0 {
        let mut t: Vec<char> = Vec::new();
        std::mem::swap(&mut t, cur);
        let ghost tv = t@;
        nums.push(t);
        assert(nums@.map_values(|t: Vec<char>| t@) =~= n0.push(tv));
    }
}

/// Split an outline text into its commands and their number texts.
pub fn path_ops(d: &[char]) -> (r: Vec<(char, Vec<Vec<char>>)>)
    ensures
        ops_view(r@) == spec_path_ops(d@),
{
    let mut ops: Vec<(char, Vec<Vec<char>>)> = Vec::new();
    let mut cmd: char = ' ';
    let mut nums: Vec<Vec<char>> = Vec::new();
    let mut cur: Vec<char> = Vec::new();
    let mut k: usize = 0;
    while k < d.len()
        invariant
            k <= d@.len(),
            scan(d@, k as int) == (ops_view(ops@), cmd, nums@.map_values(|t: Vec<char>| t@), cur@),
        decreases d@.len() - k,
    {
        let c = d[k];
        let ghost st = scan(d@, k as int);
        if c == 'M' || c == 'L' || c == 'Q' || c == 'C' || c == 'Z' {
            flush(&mut nums, &mut cur);
            if cmd != ' ' {
                let ghost o0 = ops_view(ops@);
                let ghost nv = nums@.map_values(|t: Vec<char>| t@);
                let mut taken: Vec<Vec<char>> = Vec::new();
                std::mem::swap(&mut taken, &mut nums);
                ops.push((cmd, taken));
                assert(ops_view(ops@) =~= o0.push((cmd, nv)));
                assert(nums@.map_values(|t: Vec<char>| t@) =~= Seq::<Seq<char>>::empty());
            }
            if c == 'Z' {
                let ghost o0 = ops_view(ops@);
                let ghost nv = nums@.map_values(|t: Vec<char>| t@);
                let mut taken: Vec<Vec<char>> = Vec::new();
                std::mem::swap(&mut taken, &mut nums);
                ops.push(('Z', taken));
                assert(ops_view(ops@) =~= o0.push(('Z', nv)));
                assert(nums@.map_values(|t: Vec<char>| t@) =~= Seq::<Seq<char>>::empty());
                cmd = ' ';
            } else {
                cmd = c;
            }
        } else if c == ' ' {
            flush(&mut nums, &mut cur);
        } else {
            cur.push(c);
        }
        k = k + 1;
    }
    flush(&mut nums, &mut cur);
    if cmd != ' ' {
        let ghost o0 = ops_view(ops@);
        let ghost nv = nums@.map_values(|t: Vec<char>| t@);
        ops.push((cmd, nums));
        assert(ops_view(ops@) =~= o0.push((cmd, nv)));
    }
    ops
}

} // verus!
