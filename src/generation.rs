//! Segment file names: `<N>.log`, with `N` a decimal generation number.

use vstd::prelude::*;
use vstd::string::StrSliceExecFns;

verus! {

pub open spec fn is_digit(c: char) -> bool {
    '0' <= c <= '9'
}

/// The number that a string of decimal digits stands for.
pub open spec fn decimal_value(s: Seq<char>) -> nat
    decreases s.len(),
{
    if s.len() == 0 {
        0
    } else {
        decimal_value(s.drop_last()) * 10 + (s.last() as nat - '0' as nat) as nat
    }
}

pub open spec fn log_suffix() -> Seq<char> {
    seq!['.', 'l', 'o', 'g']
}

/// The generation that a file name stands for, if it is one of a segment:
/// one or more decimal digits, whose value fits in a `u64`, then `.log`.
pub open spec fn generation_of(name: Seq<char>) -> Option<u64> {
    let n = name.len() - 4;
    if name.len() > 4 && name.subrange(n, name.len() as int) == log_suffix() && (forall|i: int|
        0 <= i < n ==> is_digit(#[trigger] name[i])) && decimal_value(name.subrange(0, n))
        <= u64::MAX {
        Some(decimal_value(name.subrange(0, n)) as u64)
    } else {
        None
    }
}

pub open spec fn strictly_increasing(v: Seq<u64>) -> bool {
    forall|a: int, b: int| 0 <= a < b < v.len() ==> v[a] < v[b]
}

/// The generation that a file name stands for; `None` for a name that is not
/// a segment's.
pub fn generation_of_name(name: &str) -> (r: Option<u64>)
    ensures
        r == generation_of(name@),
{
    let len = name.unicode_len();
    if len <= 4 {
        return None;
    }
    let n = len - 4;
    if name.get_char(n) != '.' || name.get_char(n + 1) != 'l' || name.get_char(n + 2) != 'o'
        || name.get_char(n + 3) != 'g' {
        return None;
    }
    assert(name@.subrange(n as int, len as int) =~= log_suffix());
    let mut value: u64 = 0;
    let mut i: usize = 0;
    while i < n
        invariant
            i <= n,
            n + 4 == len,
            len == name@.len(),
            name@.subrange(n as int, len as int) == log_suffix(),
            forall|j: int| 0 <= j < i ==> is_digit(#[trigger] name@[j]),
            value == decimal_value(name@.subrange(0, i as int)),
        decreases n - i,
    {
        let c = name.get_char(i);
        if c < '0' || c > '9' {
            return None;
        }
        let d = (c as u32 - '0' as u32) as u64;
        assert(name@.subrange(0, i + 1).drop_last() =~= name@.subrange(0, i as int));
        if value > (u64::MAX - d) / 10 {
            proof {
                lemma_decimal_grows(name@.subrange(0, n as int), i as int + 1);
                assert(name@.subrange(0, n as int).subrange(0, i + 1) =~= name@.subrange(0, i + 1));
            }
            return None;
        }
        value = value * 10 + d;
        i = i + 1;
    }
    Some(value)
}

/// A prefix of digits stands for no more than the whole.
proof fn lemma_decimal_grows(s: Seq<char>, i: int)
    requires
        0 <= i <= s.len(),
    ensures
        decimal_value(s.subrange(0, i)) <= decimal_value(s),
    decreases s.len() - i,
{
    if i < s.len() {
        lemma_decimal_grows(s, i + 1);
        assert(s.subrange(0, i + 1).drop_last() =~= s.subrange(0, i));
    } else {
        assert(s.subrange(0, i) =~= s);
    }
}

fn insert_sorted(v: &mut Vec<u64>, g: u64)
    requires
        strictly_increasing(old(v)@),
    ensures
        strictly_increasing(final(v)@),
        forall|x: u64| final(v)@.contains(x) <==> (old(v)@.contains(x) || x == g),
{
    let mut i: usize = 0;
    while i < v.len() && v[i] < g
        invariant
            v@ == old(v)@,
            i <= v@.len(),
            forall|j: int| 0 <= j < i ==> v@[j] < g,
        decreases v@.len() - i,
    {
        i = i + 1;
    }
    if i < v.len() && v[i] == g {
        assert(v@.contains(g)) by {
            assert(v@[i as int] == g);
        }
        return;
    }
    let ghost before = v@;
    v.insert(i, g);
    assert forall|x: u64| v@.contains(x) <==> (before.contains(x) || x == g) by {
        if v@.contains(x) {
            let j = choose|j: int| 0 <= j < v@.len() && v@[j] == x;
            if j < i {
                assert(before[j] == x);
            } else if j > i {
                assert(before[j - 1] == x);
            }
        }
        if before.contains(x) {
            let j = choose|j: int| 0 <= j < before.len() && before[j] == x;
            if j < i {
                assert(v@[j] == x);
            } else {
                assert(v@[j + 1] == x);
            }
        }
        if x == g {
            assert(v@[i as int] == g);
        }
    }
}

/// The generations of the segment files among `names`, each once, in
/// increasing order. Names that are not a segment's are passed over.
pub fn log_generations(names: &Vec<String>) -> (r: Vec<u64>)
    ensures
        strictly_increasing(r@),
        forall|g: u64| r@.contains(g) <==> exists|i: int| 0 <= i < names@.len() && generation_of(#[trigger] names@[i]@) == Some(g),
{
    let mut out: Vec<u64> = Vec::new();
    let mut i: usize = 0;
    while i < names.len()
        invariant
            i <= names@.len(),
            strictly_increasing(out@),
            forall|g: u64| out@.contains(g) <==> exists|j: int| 0 <= j < i && generation_of(#[trigger] names@[j]@) == Some(g),
        decreases names@.len() - i,
    {
        let found = generation_of_name(names[i].as_str());
        if let Some(g) = found {
            insert_sorted(&mut out, g);
        }
        assert forall|g: u64| out@.contains(g) <==> exists|j: int| 0 <= j < i + 1 && generation_of(#[trigger] names@[j]@) == Some(g) by {
            if exists|j: int| 0 <= j < i + 1 && generation_of(#[trigger] names@[j]@) == Some(g) {
                let j = choose|j: int| 0 <= j < i + 1 && generation_of(#[trigger] names@[j]@) == Some(g);
                if j < i {
                }
            }
        }
        i = i + 1;
    }
    out
}

} // verus!
