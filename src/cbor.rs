//! A structural check of DAG-CBOR bytes: one data item, definite lengths
//! only, every length within the bytes that remain, nesting bounded. Bytes
//! that pass can be walked item by item without reading past their end.
use vstd::prelude::*;

verus! {

/// The deepest nesting of arrays, maps and tags that the check admits.
pub const MAX_NESTING: usize = 64;

/// The code of the DAG-CBOR codec in a CID.
pub const DAG_CBOR: u64 = 0x71;

/// The length of a header whose additional information is `ai` (at most 27).
pub open spec fn header_len(ai: int) -> int {
    if ai < 24 { 1 } else if ai == 24 { 2 } else if ai == 25 { 3 } else if ai == 26 { 5 } else { 9 }
}

/// The big-endian number held by the `n` bytes from `start`.
pub open spec fn be_value(d: Seq<u8>, start: int, n: int) -> int
    decreases n,
{
    if n <= 0 { 0 } else { be_value(d, start, n - 1) * 256 + d[start + n - 1] as int }
}

/// The argument of the header at `pos`.
pub open spec fn argument(d: Seq<u8>, pos: int) -> int {
    let ai = (d[pos] % 32) as int;
    if ai < 24 { ai } else { be_value(d, pos + 1, header_len(ai) - 1) }
}

/// Drops the finished containers from the top of the stack.
pub open spec fn trim(s: Seq<int>) -> Seq<int>
    decreases s.len(),
{
    if s.len() > 0 && s.last() == 0 { trim(s.drop_last()) } else { s }
}

/// Reads the item headers from `pos`; `stack` holds, per open container,
/// how many items it still expects.
pub open spec fn scan(d: Seq<u8>, pos: int, stack: Seq<int>, fuel: nat) -> bool
    decreases fuel,
{
    if stack.len() == 0 {
        pos == d.len()
    } else if fuel == 0 || pos < 0 || pos >= d.len() {
        false
    } else {
        let ai = (d[pos] % 32) as int;
        let major = (d[pos] / 32) as int;
        if ai > 27 || pos + header_len(ai) > d.len() {
            false
        } else {
            let arg = argument(d, pos);
            let next = pos + header_len(ai);
            let rest = d.len() - next;
            let skip = if major == 2 || major == 3 { arg } else { 0 };
            let children = if major == 4 { arg } else if major == 5 { 2 * arg } else if major == 6 { 1 } else { 0 };
            if skip > rest || children > rest {
                false
            } else {
                let s1 = stack.update(stack.len() - 1, stack.last() - 1);
                let s2 = if children > 0 { s1.push(children) } else { s1 };
                if s2.len() > MAX_NESTING {
                    false
                } else {
                    scan(d, next + skip, trim(s2), (fuel - 1) as nat)
                }
            }
        }
    }
}

/// `d` is exactly one well-formed DAG-CBOR item.
pub open spec fn cbor_wf(d: Seq<u8>) -> bool {
    scan(d, 0, seq![1], (d.len() + 1) as nat)
}

/// The counts of a stack of open containers, as integers.
pub open spec fn stack_view(s: Seq<u64>) -> Seq<int> {
    s.map_values(|x: u64| x as int)
}

pub open spec fn pow256(n: int) -> int
    decreases n,
{
    if n <= 0 { 1 } else { 256 * pow256(n - 1) }
}

proof fn lemma_pow256_mono(j: int)
    requires
        0 <= j <= 7,
    ensures
        1 <= pow256(j) <= 0x100000000000000,
    decreases j,
{
    reveal_with_fuel(pow256, 8);
    if j > 0 {
        lemma_pow256_mono(j - 1);
    }
}

fn read_be(d: &Vec<u8>, start: usize, n: usize) -> (r: u64)
    requires
        start + n <= d@.len(),
        n <= 8,
    ensures
        r == be_value(d@, start as int, n as int),
{
    let dl = d.len();
    let mut v: u64 = 0;
    let mut j: usize = 0;
    while j < n
        invariant
            dl == d@.len(),
            start + n <= d@.len(),
            n <= 8,
            0 <= j <= n,
            v == be_value(d@, start as int, j as int),
            0 <= v < pow256(j as int),
        decreases n - j,
    {
        proof {
            lemma_pow256_mono(j as int);
        }
        let b = d[start + j];
        assert(v * 256 + b < pow256(j as int) * 256) by (nonlinear_arith)
            requires v < pow256(j as int), b < 256;
        assert(v * 256 + b <= u64::MAX) by (nonlinear_arith)
            requires v < pow256(j as int), pow256(j as int) <= 0x100000000000000, b < 256;
        v = v * 256 + b as u64;
        j = j + 1;
    }
    v
}

proof fn lemma_trim_positive(s: Seq<int>)
    requires
        forall|k: int| 0 <= k < s.len() ==> s[k] >= 0,
    ensures
        forall|k: int| 0 <= k < trim(s).len() ==> trim(s)[k] >= 0,
        trim(s).len() > 0 ==> trim(s).last() > 0,
        trim(s).len() <= s.len(),
    decreases s.len(),
{
    if s.len() > 0 && s.last() == 0 {
        lemma_trim_positive(s.drop_last());
    }
}

/// Checks that `d` is exactly one well-formed DAG-CBOR item.
pub fn cbor_well_formed(d: &Vec<u8>) -> (r: bool)
    ensures
        r == cbor_wf(d@),
{
    let mut stack: Vec<u64> = Vec::new();
    stack.push(1);
    let mut pos: usize = 0;
    assert(stack_view(stack@) =~= seq![1int]);
    let ghost goal = cbor_wf(d@);
    let mut fuel_left: usize = d.len();
    while stack.len() > 0
        invariant
            goal == cbor_wf(d@),
            goal == scan(d@, pos as int, stack_view(stack@), (fuel_left + 1) as nat),
            pos <= d@.len(),
            stack@.len() <= MAX_NESTING,
            d@.len() - pos <= fuel_left,
            stack@.len() > 0 ==> stack@[stack@.len() - 1] > 0,
        decreases fuel_left,
    {
        let ghost sv = stack_view(stack@);
        assert(sv.len() == stack@.len());
        assert(goal == scan(d@, pos as int, sv, (fuel_left + 1) as nat));
        if pos >= d.len() {
            return false;
        }
        let b = d[pos];
        let ai = b % 32;
        let major = b / 32;
        assert(ai as int == (d@[pos as int] % 32) as int);
        assert(major as int == (d@[pos as int] / 32) as int);
        if ai > 27 {
            return false;
        }
        let hl: usize = if ai < 24 { 1 } else if ai == 24 { 2 } else if ai == 25 { 3 } else if ai == 26 { 5 } else { 9 };
        assert(hl == header_len(ai as int));
        if hl > d.len() - pos {
            return false;
        }
        let arg: u64 = if ai < 24 { ai as u64 } else { read_be(d, pos + 1, hl - 1) };
        assert(arg == argument(d@, pos as int));
        let next = pos + hl;
        let rest = d.len() - next;
        if (major == 2 || major == 3) && arg > rest as u64 {
            return false;
        }
        let children: u64 = if major == 4 {
            if arg > rest as u64 {
                return false;
            }
            arg
        } else if major == 5 {
            if arg > (rest as u64) / 2 {
                assert(2 * arg > rest) by (nonlinear_arith)
                    requires arg > rest / 2;
                return false;
            }
            assert(2 * arg <= rest) by (nonlinear_arith)
                requires arg <= rest / 2;
            2 * arg
        } else if major == 6 {
            if rest == 0 {
                return false;
            }
            1
        } else {
            0
        };
        let skip: usize = if major == 2 || major == 3 { arg as usize } else { 0 };
        let top = stack.len() - 1;
        let t = stack[top];
        stack.set(top, t - 1);
        let ghost s1 = sv.update(sv.len() - 1, sv.last() - 1);
        assert(stack_view(stack@) =~= s1);
        if children > 0 {
            stack.push(children);
            assert(stack_view(stack@) =~= s1.push(children as int));
        }
        if stack.len() > MAX_NESTING {
            return false;
        }
        let ghost s2 = stack_view(stack@);
        proof {
            lemma_trim_positive(s2);
        }
        while stack.len() > 0 && stack[stack.len() - 1] == 0
            invariant
                trim(stack_view(stack@)) == trim(s2),
                stack@.len() <= MAX_NESTING,
            decreases stack@.len(),
        {
            let ghost before = stack_view(stack@);
            stack.pop();
            assert(stack_view(stack@) =~= before.drop_last());
        }
        assert(trim(stack_view(stack@)) == stack_view(stack@));
        pos = next + skip;
        fuel_left = fuel_left - 1;
        proof {
            lemma_trim_positive(s2);
            if stack@.len() > 0 {
                assert(stack_view(stack@)[stack@.len() - 1] == stack@[stack@.len() - 1] as int);
            }
        }
    }
    pos == d.len()
}

} // verus!
