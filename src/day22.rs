//! Pseudo-random secret numbers of market buyers.
use crate::sums::{add_term, sum};
use crate::text::{digits_value, is_number, line_spans, lines, parse_number, spans_are};
use vstd::prelude::*;
use vstd::string::StringSliceAdditionalSpecFns;

verus! {

/// One step of the secret sequence: mix in the secret times 64, prune to 24
/// bits, mix in the secret divided by 32, mix in the secret times 2048,
/// prune again.
pub open spec fn next_secret(n: u32) -> u32 {
    let a = (n ^ (n << 6u32)) & 0xffffffu32;
    let b = a ^ (a >> 5u32);
    (b ^ (b << 11u32)) & 0xffffffu32
}

/// The secret after `k` steps from `n`.
pub open spec fn secret_after(n: u32, k: nat) -> u32
    decreases k,
{
    if k == 0 {
        n
    } else {
        next_secret(secret_after(n, (k - 1) as nat))
    }
}

/// A list of initial secrets, one number per line, each below 2^32.
pub open spec fn is_secret_list(b: Seq<u8>) -> bool {
    forall|i: int|
        0 <= i < lines(b).len() ==> is_number(#[trigger] lines(b)[i]) && digits_value(lines(b)[i])
            <= u32::MAX
}

pub open spec fn secrets(b: Seq<u8>) -> Seq<u32> {
    lines(b).map_values(|l: Seq<u8>| digits_value(l) as u32)
}

/// The sum of the two-thousandth secret of each buyer.
pub open spec fn secret_sum(s: Seq<u32>) -> int {
    sum(Seq::new(s.len(), |i: int| secret_after(s[i], 2000) as int))
}

/// The next secret after `num`.
pub fn get_next(num: u32) -> (r: u32)
    ensures
        r == next_secret(num),
{
    let mut num = num;
    num ^= num << 6u32;
    num &= 0xffffffu32;
    num ^= num >> 5u32;
    num ^= num << 11u32;
    num &= 0xffffffu32;
    num
}

/// The initial secrets of `input`, or `None` when a line is not a number
/// below 2^32.
pub fn get_numbers(input: &[u8]) -> (r: Option<Vec<u32>>)
    ensures
        r.is_some() == is_secret_list(input@),
        r.is_some() ==> r.unwrap()@ == secrets(input@),
{
    let spans = line_spans(input);
    let ghost ls = lines(input@);
    let mut out: Vec<u32> = Vec::new();
    let mut k: usize = 0;
    while k < spans.len()
        invariant
            k <= spans@.len(),
            ls == lines(input@),
            spans_are(input@, spans@, ls),
            forall|i: int| 0 <= i < k ==> is_number(#[trigger] ls[i]) && digits_value(ls[i]) <= u32::MAX,
            out@ == secrets(input@).subrange(0, k as int),
        decreases spans@.len() - k,
    {
        let (lo, hi) = spans[k];
        match parse_number(input, lo, hi) {
            Some(v) => {
                if v > 0xffff_ffffu64 {
                    return None;
                }
                out.push(v as u32);
                proof {
                    assert(out@ =~= secrets(input@).subrange(0, k + 1));
                }
            },
            None => {
                return None;
            },
        }
        k += 1;
    }
    proof {
        assert(out@ =~= secrets(input@));
    }
    Some(out)
}

/// The secret after two thousand steps from `n`.
pub fn secret_2000(n: u32) -> (r: u32)
    ensures
        r == secret_after(n, 2000),
{
    let mut s = n;
    let mut i: u32 = 0;
    while i < 2000
        invariant
            i <= 2000,
            s == secret_after(n, i as nat),
        decreases 2000 - i,
    {
        s = get_next(s);
        i += 1;
    }
    s
}

/// The sum of the two-thousandth secrets, or `None` when it does not fit in
/// a `u64`.
pub fn sum_of_secrets(s: &Vec<u32>) -> (r: Option<u64>)
    ensures
        r.is_some() == (secret_sum(s@) <= u64::MAX),
        r.is_some() ==> r.unwrap() == secret_sum(s@),
{
    let ghost terms = Seq::new(s@.len(), |i: int| secret_after(s@[i], 2000) as int);
    let mut acc: u64 = 0;
    let mut i: usize = 0;
    proof {
        assert(terms.subrange(0, 0) =~= Seq::<int>::empty());
    }
    while i < s.len()
        invariant
            i <= s@.len() == terms.len(),
            secret_sum(s@) == sum(terms),
            forall|j: int| 0 <= j < terms.len() ==> #[trigger] terms[j] == secret_after(s@[j], 2000) as int,
            acc == sum(terms.subrange(0, i as int)),
        decreases s@.len() - i,
    {
        let t = secret_2000(s[i]);
        match add_term(acc, t as u64, Ghost(terms), Ghost(i as int)) {
            Some(v) => {
                acc = v;
            },
            None => {
                return None;
            },
        }
        i += 1;
    }
    proof {
        assert(terms.subrange(0, i as int) =~= terms);
    }
    Some(acc)
}

/// The sum of the two-thousandth secret of each buyer of `input`; `None`
/// when a line is not a number below 2^32 or the sum does not fit in a `u64`.
pub fn first_part(input: &str) -> (r: Option<u64>)
    ensures
        r.is_some() == (is_secret_list(input.spec_bytes()) && secret_sum(secrets(input.spec_bytes()))
            <= u64::MAX),
        r.is_some() ==> r.unwrap() == secret_sum(secrets(input.spec_bytes())),
{
    match get_numbers(input.as_bytes()) {
        Some(v) => sum_of_secrets(&v),
        None => None,
    }
}

/// The price a buyer offers after `k` steps: the last digit of its secret.
pub open spec fn price(n: u32, k: nat) -> int {
    (secret_after(n, k) % 10) as int
}

/// The price change at step `k` (from 1 on).
pub open spec fn change(n: u32, k: nat) -> int {
    price(n, k) - price(n, (k - 1) as nat)
}

/// The number of the four changes that end at step `k` (from 4 on): each
/// change plus 9 is a digit in base 19.
pub open spec fn window(n: u32, k: nat) -> int {
    (change(n, (k - 3) as nat) + 9) * 6859 + (change(n, (k - 2) as nat) + 9) * 361 + (change(n, (k - 1) as nat) + 9) * 19 + (change(n, k) + 9)
}

/// What a buyer pays when the monkey waits for the changes `q`: the price
/// at the first step from `k` to 2000 where they occur, else nothing.
pub open spec fn sale_from(n: u32, q: int, k: nat) -> int
    decreases 2001 - k,
{
    if k > 2000 {
        0
    } else if window(n, k) == q {
        price(n, k)
    } else {
        sale_from(n, q, k + 1)
    }
}

/// The bananas all buyers pay for the changes `q`.
pub open spec fn bananas(s: Seq<u32>, q: int) -> int {
    sum(Seq::new(s.len(), |b: int| sale_from(s[b], q, 4)))
}

/// The secrets of a buyer, from step 0 to step 2000.
fn secrets_of(n: u32) -> (r: Vec<u32>)
    ensures
        r@.len() == 2001,
        forall|k: int| 0 <= k < 2001 ==> #[trigger] r@[k] == secret_after(n, k as nat),
{
    let mut out: Vec<u32> = Vec::new();
    out.push(n);
    let mut s = n;
    let mut i: usize = 1;
    while i < 2001
        invariant
            1 <= i <= 2001,
            out@.len() == i,
            s == secret_after(n, (i - 1) as nat),
            forall|k: int| 0 <= k < i ==> #[trigger] out@[k] == secret_after(n, k as nat),
        decreases 2001 - i,
    {
        s = get_next(s);
        out.push(s);
        i += 1;
    }
    out
}

/// Adds what the buyer with initial secret `n` pays for each sequence of
/// four changes to `totals`.
fn cache_sequence(totals: &mut Vec<u64>, n: u32, done: Ghost<Seq<u32>>)
    requires
        old(totals)@.len() == 130321,
        forall|q: int| 0 <= q < 130321 ==> #[trigger] old(totals)@[q] == bananas(done@, q),
        forall|q: int| 0 <= q < 130321 ==> #[trigger] old(totals)@[q] <= 9 * done@.len(),
        done@.len() < 0x1000_0000_0000_0000,
    ensures
        final(totals)@.len() == 130321,
        forall|q: int| 0 <= q < 130321 ==> #[trigger] final(totals)@[q] == bananas(done@.push(n), q),
        forall|q: int| 0 <= q < 130321 ==> #[trigger] final(totals)@[q] <= 9 * (done@.len() + 1),
{
    let secrets = secrets_of(n);
    let mut seen: Vec<bool> = Vec::new();
    let mut i: usize = 0;
    while i < 130321
        invariant
            i <= 130321,
            seen@.len() == i,
            forall|q: int| 0 <= q < i ==> !#[trigger] seen@[q],
        decreases 130321 - i,
    {
        seen.push(false);
        i += 1;
    }
    let ghost start = totals@;
    let mut k: usize = 4;
    while k <= 2000
        invariant
            4 <= k <= 2001,
            secrets@.len() == 2001,
            forall|j: int| 0 <= j < 2001 ==> #[trigger] secrets@[j] == secret_after(n, j as nat),
            seen@.len() == 130321,
            totals@.len() == 130321,
            forall|q: int|
                0 <= q < 130321 ==> if #[trigger] seen@[q] {
                    totals@[q] == start[q] + sale_from(n, q, 4)
                } else {
                    totals@[q] == start[q] && sale_from(n, q, 4) == sale_from(n, q, k as nat)
                },
            forall|q: int| 0 <= q < 130321 ==> #[trigger] start[q] <= 9 * done@.len(),
            forall|q: int| 0 <= q < 130321 ==> #[trigger] start[q] == bananas(done@, q),
            done@.len() < 0x1000_0000_0000_0000,
        decreases 2001 - k,
    {
        let p0 = (secrets[k - 4] % 10) as i64;
        let p1 = (secrets[k - 3] % 10) as i64;
        let p2 = (secrets[k - 2] % 10) as i64;
        let p3 = (secrets[k - 1] % 10) as i64;
        let p4 = (secrets[k] % 10) as i64;
        let id = ((p1 - p0 + 9) * 6859 + (p2 - p1 + 9) * 361 + (p3 - p2 + 9) * 19 + (p4 - p3 + 9)) as usize;
        proof {
            assert(id as int == window(n, k as nat));
        }
        if !seen[id] {
            seen.set(id, true);
            let t = totals[id];
            proof {
                assert(sale_from(n, id as int, k as nat) == price(n, k as nat));
                assert(t <= 9 * done@.len());
            }
            totals.set(id, t + p4 as u64);
        }
        proof {
            assert forall|q: int| 0 <= q < 130321 && !#[trigger] seen@[q] implies sale_from(n, q, k as nat) == sale_from(n, q, (k + 1) as nat) by {
                assert(window(n, k as nat) != q);
            }
        }
        k += 1;
    }
    proof {
        assert forall|q: int| 0 <= q < 130321 implies #[trigger] totals@[q] == bananas(done@.push(n), q) && totals@[q] <= 9 * (done@.len() + 1) by {
            let d2 = done@.push(n);
            let t1 = Seq::new(d2.len(), |b: int| sale_from(d2[b], q, 4));
            let t0 = Seq::new(done@.len(), |b: int| sale_from(done@[b], q, 4));
            assert(t1.drop_last() =~= t0);
            assert(t1.last() == sale_from(n, q, 4));
            assert(sum(t1) == sum(t0) + sale_from(n, q, 4));
            lemma_sale_digit(n, q, 4);
            assert(sale_from(n, q, 2001) == 0);
            if seen@[q] {
                assert(totals@[q] == start[q] + sale_from(n, q, 4));
            } else {
                assert(totals@[q] == start[q]);
            }
        }
    }
}

proof fn lemma_sale_digit(n: u32, q: int, k: nat)
    ensures
        0 <= sale_from(n, q, k) <= 9,
    decreases 2001 - k,
{
    if k <= 2000 && window(n, k) != q {
        lemma_sale_digit(n, q, k + 1);
    }
}

/// The most bananas the buyers with initial secrets `s` pay for one
/// sequence of four changes.
pub fn most_bananas(s: &Vec<u32>) -> (r: u64)
    requires
        s@.len() < 0x1000_0000_0000_0000,
    ensures
        forall|q: int| 0 <= q < 130321 ==> #[trigger] bananas(s@, q) <= r,
        exists|q: int| 0 <= q < 130321 && #[trigger] bananas(s@, q) == r,
{
    let mut totals: Vec<u64> = Vec::new();
    let mut q: usize = 0;
    while q < 130321
        invariant
            q <= 130321,
            totals@.len() == q,
            forall|j: int| 0 <= j < q ==> #[trigger] totals@[j] == 0,
        decreases 130321 - q,
    {
        totals.push(0);
        q += 1;
    }
    proof {
        assert forall|j: int| 0 <= j < 130321 implies #[trigger] totals@[j] == bananas(s@.subrange(0, 0), j) by {
            assert(Seq::new(0, |b: int| sale_from(s@.subrange(0, 0)[b], j, 4)) =~= Seq::<int>::empty());
        }
    }
    let mut i: usize = 0;
    while i < s.len()
        invariant
            i <= s@.len() < 0x1000_0000_0000_0000,
            totals@.len() == 130321,
            forall|j: int| 0 <= j < 130321 ==> #[trigger] totals@[j] == bananas(s@.subrange(0, i as int), j),
            forall|j: int| 0 <= j < 130321 ==> #[trigger] totals@[j] <= 9 * i,
        decreases s@.len() - i,
    {
        cache_sequence(&mut totals, s[i], Ghost(s@.subrange(0, i as int)));
        proof {
            assert(s@.subrange(0, i as int).push(s@[i as int]) =~= s@.subrange(0, i + 1));
        }
        i += 1;
    }
    proof {
        assert(s@.subrange(0, i as int) =~= s@);
    }
    let mut best: u64 = totals[0];
    let ghost mut best_q: int = 0;
    let mut j: usize = 1;
    while j < 130321
        invariant
            1 <= j <= 130321,
            totals@.len() == 130321,
            forall|t: int| 0 <= t < 130321 ==> #[trigger] totals@[t] == bananas(s@, t),
            0 <= best_q < 130321,
            best == bananas(s@, best_q),
            forall|t: int| 0 <= t < j ==> #[trigger] bananas(s@, t) <= best,
        decreases 130321 - j,
    {
        if totals[j] > best {
            best = totals[j];
            proof {
                best_q = j as int;
            }
        }
        j += 1;
    }
    best
}

/// The most bananas the buyers of `input` pay for one sequence of four
/// price changes; `None` when a line is not a number below 2^32 or there
/// are 2^60 buyers or more.
pub fn second_part(input: &str) -> (r: Option<u64>)
    ensures
        r.is_some() == (is_secret_list(input.spec_bytes()) && secrets(input.spec_bytes()).len() < 0x1000_0000_0000_0000),
        r.is_some() ==> (forall|q: int| 0 <= q < 130321 ==> #[trigger] bananas(secrets(input.spec_bytes()), q) <= r.unwrap()),
        r.is_some() ==> (exists|q: int| 0 <= q < 130321 && #[trigger] bananas(secrets(input.spec_bytes()), q) == r.unwrap()),
{
    match get_numbers(input.as_bytes()) {
        Some(v) => {
            if v.len() as u64 >= 0x1000_0000_0000_0000 {
                return None;
            }
            Some(most_bananas(&v))
        },
        None => None,
    }
}

} // verus!


