//! Stones that change each time one blinks: a zero becomes a one, a number
//! with an even count of digits splits into its two halves, any other number
//! is multiplied by 2024.
use crate::sums::{add_term, sum};
use crate::text::{digits_value, field_spans, fields, is_number, line_spans, lines, parse_number, pow10, spans_are};
use std::collections::HashMap;
use vstd::prelude::*;
use vstd::string::StringSliceAdditionalSpecFns;

verus! {

broadcast use vstd::std_specs::hash::group_hash_axioms;

/// The number of decimal digits of `n`.
pub open spec fn digit_count(n: nat) -> nat
    decreases n,
{
    if n < 10 {
        1
    } else {
        1 + digit_count(n / 10)
    }
}

/// A stone splits in two when its number is not zero and has an even count
/// of digits.
pub open spec fn splits(n: nat) -> bool {
    n != 0 && digit_count(n) % 2 == 0
}

/// Ten to the power of half the digit count of `n`.
pub open spec fn half_scale(n: nat) -> nat {
    pow10(digit_count(n) / 2) as nat
}

/// The first stone that `n` becomes after one blink: the left half of its
/// digits when it splits, else one for zero, else `n` times 2024.
pub open spec fn first_after(n: nat) -> nat {
    if n == 0 {
        1
    } else if splits(n) {
        n / half_scale(n)
    } else {
        n * 2024
    }
}

/// The second stone, the right half of the digits, when `n` splits.
pub open spec fn second_after(n: nat) -> nat {
    n % half_scale(n)
}

/// How many stones one stone engraved with `n` becomes after `k` blinks.
pub open spec fn stone_count(n: nat, k: nat) -> nat
    decreases k,
{
    if k == 0 {
        1
    } else if splits(n) {
        stone_count(first_after(n), (k - 1) as nat) + stone_count(second_after(n), (k - 1) as nat)
    } else {
        stone_count(first_after(n), (k - 1) as nat)
    }
}

/// Every stone that `n` becomes within `k` blinks, and the count of the
/// stones it becomes after `k` blinks, fit in a `u64`.
pub open spec fn fits(n: nat, k: nat) -> bool
    decreases k,
{
    &&& n <= u64::MAX
    &&& k > 0 ==> {
        &&& fits(first_after(n), (k - 1) as nat)
        &&& splits(n) ==> fits(second_after(n), (k - 1) as nat)
        &&& stone_count(n, k) <= u64::MAX
    }
}

/// A line of numbers separated by spaces, the only line of the input.
pub open spec fn is_stone_list(b: Seq<u8>) -> bool {
    &&& lines(b).len() == 1
    &&& forall|i: int| 0 <= i < fields(lines(b)[0]).len() ==> is_number(#[trigger] fields(lines(b)[0])[i])
}

pub open spec fn stones(b: Seq<u8>) -> Seq<u64> {
    fields(lines(b)[0]).map_values(|f: Seq<u8>| digits_value(f) as u64)
}

/// The number of stones after `k` blinks.
pub open spec fn total_count(s: Seq<u64>, k: nat) -> int {
    sum(Seq::new(s.len(), |i: int| stone_count(s[i] as nat, k) as int))
}

pub open spec fn all_fit(s: Seq<u64>, k: nat) -> bool {
    &&& forall|i: int| 0 <= i < s.len() ==> #[trigger] fits(s[i] as nat, k)
    &&& total_count(s, k) <= u64::MAX
}

/// The memo table maps `n * 256 + k` to the count of stone `n` after `k` blinks.
pub open spec fn memo_ok(m: Map<u128, u64>) -> bool {
    forall|key: u128|
        #[trigger] m.contains_key(key) ==> {
            let n = (key / 256) as nat;
            let k = (key % 256) as nat;
            &&& fits(n, k)
            &&& m[key] == stone_count(n, k)
        }
}

pub(crate) proof fn lemma_digit_count_bound(n: nat, j: nat)
    requires
        j >= 1,
        n < pow10(j),
    ensures
        1 <= digit_count(n) <= j,
    decreases n,
{
    if n >= 10 {
        if j == 1 {
            assert(pow10(1) == 10) by {
                reveal_with_fuel(pow10, 2);
            }
        } else {
            assert(pow10(j) == 10 * pow10((j - 1) as nat));
            lemma_digit_count_bound(n / 10, (j - 1) as nat);
        }
    }
}

proof fn lemma_u64_below_pow10_20()
    ensures
        u64::MAX < pow10(20),
{
    reveal_with_fuel(pow10, 21);
}

/// The number of decimal digits of `n`.
pub fn digits(n: u64) -> (r: u32)
    ensures
        r == digit_count(n as nat),
        1 <= r <= 20,
{
    proof {
        lemma_u64_below_pow10_20();
        lemma_digit_count_bound(n as nat, 20);
    }
    let mut m = n;
    let mut d: u32 = 1;
    while m >= 10
        invariant
            1 <= d,
            d + digit_count(m as nat) == digit_count(n as nat) + 1,
            digit_count(n as nat) <= 20,
        decreases m,
    {
        m = m / 10;
        d += 1;
    }
    d
}

/// Ten to the power `e`.
pub(crate) fn pow10_u64(e: u32) -> (r: u64)
    requires
        e <= 19,
    ensures
        r == pow10(e as nat),
{
    let mut p: u64 = 1;
    let mut i: u32 = 0;
    while i < e
        invariant
            i <= e <= 19,
            p == pow10(i as nat),
        decreases e - i,
    {
        proof {
            crate::text::lemma_pow10_monotone((i + 1) as nat, 19);
            reveal_with_fuel(pow10, 20);
        }
        p = p * 10;
        i += 1;
    }
    p
}

/// The stones that `n` becomes after one blink; `None` when one does not
/// fit in a `u64`.
pub fn blink(n: u64) -> (r: Option<(u64, Option<u64>)>)
    ensures
        r.is_none() == (first_after(n as nat) > u64::MAX || (splits(n as nat) && second_after(n as nat)
            > u64::MAX)),
        r.is_some() ==> ({
            let (a, b) = r.unwrap();
            &&& a == first_after(n as nat)
            &&& b.is_some() == splits(n as nat)
            &&& b.is_some() ==> b.unwrap() == second_after(n as nat)
        }),
{
    if n == 0 {
        return Some((1, None));
    }
    let d = digits(n);
    if d % 2 == 0 {
        let p = pow10_u64(d / 2);
        proof {
            crate::text::lemma_pow10_monotone(0, (d / 2) as nat);
        }
        Some((n / p, Some(n % p)))
    } else {
        match n.checked_mul(2024) {
            Some(v) => Some((v, None)),
            None => None,
        }
    }
}

/// The number of stones that `n` becomes after `k` blinks; `None` when a
/// stone on the way or the count does not fit in a `u64`.
pub fn count_stones(n: u64, k: u32, memo: &mut HashMap<u128, u64>) -> (r: Option<u64>)
    requires
        k < 256,
        memo_ok(old(memo)@),
    ensures
        memo_ok(final(memo)@),
        r.is_some() == fits(n as nat, k as nat),
        r.is_some() ==> r.unwrap() == stone_count(n as nat, k as nat),
    decreases k,
{
    if k == 0 {
        return Some(1);
    }
    let key: u128 = n as u128 * 256 + k as u128;
    proof {
        assert(key / 256 == n && key % 256 == k) by (nonlinear_arith)
            requires key == n * 256 + k, 0 <= k < 256, n >= 0;
    }
    match memo.get(&key) {
        Some(c) => {
            return Some(*c);
        },
        None => {},
    }
    let b = blink(n);
    let (a, rest) = match b {
        Some(p) => p,
        None => {
            proof {
                if first_after(n as nat) > u64::MAX {
                    assert(!fits(first_after(n as nat), (k - 1) as nat));
                } else {
                    assert(!fits(second_after(n as nat), (k - 1) as nat));
                }
            }
            return None;
        },
    };
    let ca = match count_stones(a, k - 1, memo) {
        Some(c) => c,
        None => {
            return None;
        },
    };
    let total = match rest {
        None => ca,
        Some(b2) => {
            let cb = match count_stones(b2, k - 1, memo) {
                Some(c) => c,
                None => {
                    return None;
                },
            };
            match ca.checked_add(cb) {
                Some(t) => t,
                None => {
                    return None;
                },
            }
        },
    };
    memo.insert(key, total);
    Some(total)
}

/// The stones of `input`, or `None` when it is not one line of numbers.
pub fn parse_input(input: &[u8]) -> (r: Option<Vec<u64>>)
    ensures
        r.is_some() == is_stone_list(input@),
        r.is_some() ==> r.unwrap()@ == stones(input@),
{
    let spans = line_spans(input);
    if spans.len() != 1 {
        return None;
    }
    let ghost l = lines(input@)[0];
    let f = field_spans(input, spans[0].0, spans[0].1);
    let mut out: Vec<u64> = Vec::new();
    let mut k: usize = 0;
    while k < f.len()
        invariant
            k <= f@.len(),
            lines(input@).len() == 1,
            l == lines(input@)[0],
            spans_are(input@, f@, fields(l)),
            forall|i: int| 0 <= i < k ==> is_number(#[trigger] fields(l)[i]),
            out@ == stones(input@).subrange(0, k as int),
        decreases f@.len() - k,
    {
        match parse_number(input, f[k].0, f[k].1) {
            Some(v) => {
                out.push(v);
                proof {
                    assert(out@ =~= stones(input@).subrange(0, k + 1));
                }
            },
            None => {
                assert(!is_number(fields(l)[k as int]));
                return None;
            },
        }
        k += 1;
    }
    proof {
        assert(out@ =~= stones(input@));
    }
    Some(out)
}

/// The number of stones that the stones `s` become after `k` blinks;
/// `None` when a stone on the way or a count does not fit in a `u64`.
pub fn handle_blinking(s: &Vec<u64>, k: u32) -> (r: Option<u64>)
    requires
        k < 256,
    ensures
        r.is_some() == all_fit(s@, k as nat),
        r.is_some() ==> r.unwrap() == total_count(s@, k as nat),
{
    let mut memo: HashMap<u128, u64> = HashMap::new();
    let ghost terms = Seq::new(s@.len(), |i: int| stone_count(s@[i] as nat, k as nat) as int);
    let mut acc: u64 = 0;
    let mut i: usize = 0;
    proof {
        assert(terms.subrange(0, 0) =~= Seq::<int>::empty());
    }
    while i < s.len()
        invariant
            i <= s@.len() == terms.len(),
            k < 256,
            memo_ok(memo@),
            total_count(s@, k as nat) == sum(terms),
            forall|j: int| 0 <= j < terms.len() ==> #[trigger] terms[j] == stone_count(s@[j] as nat, k as nat) as int,
            forall|j: int| 0 <= j < i ==> #[trigger] fits(s@[j] as nat, k as nat),
            acc == sum(terms.subrange(0, i as int)),
        decreases s@.len() - i,
    {
        let c = match count_stones(s[i], k, &mut memo) {
            Some(c) => c,
            None => {
                return None;
            },
        };
        match add_term(acc, c, Ghost(terms), Ghost(i as int)) {
            Some(v) => {
                acc = v;
            },
            None => {
                return None;
            },
        }
        i += 1;
    }
    proof {
        assert(terms.subrange(0, i as int) =~= terms);
    }
    Some(acc)
}

/// The number of stones after 25 blinks; `None` when `input` is not one
/// line of numbers or a number on the way does not fit in a `u64`.
pub fn first_part(input: &str) -> (r: Option<u64>)
    ensures
        r.is_some() == (is_stone_list(input.spec_bytes()) && all_fit(stones(input.spec_bytes()), 25)),
        r.is_some() ==> r.unwrap() == total_count(stones(input.spec_bytes()), 25),
{
    match parse_input(input.as_bytes()) {
        Some(s) => handle_blinking(&s, 25),
        None => None,
    }
}

/// The number of stones after 75 blinks; `None` when `input` is not one
/// line of numbers or a number on the way does not fit in a `u64`.
pub fn second_part(input: &str) -> (r: Option<u64>)
    ensures
        r.is_some() == (is_stone_list(input.spec_bytes()) && all_fit(stones(input.spec_bytes()), 75)),
        r.is_some() ==> r.unwrap() == total_count(stones(input.spec_bytes()), 75),
{
    match parse_input(input.as_bytes()) {
        Some(s) => handle_blinking(&s, 75),
        None => None,
    }
}

} // verus!


