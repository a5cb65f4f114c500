//! Corrupted memory: the `mul(X,Y)` instructions hidden in it, and the
//! `do()` and `don't()` instructions that switch them on and off.
use crate::sums::{add_term, sum};
use crate::text::{digits_value, is_digit, parse_number};
use vstd::prelude::*;
use vstd::string::StringSliceAdditionalSpecFns;

verus! {

/// The number of digits in the run that starts at `p`.
pub open spec fn digit_run(b: Seq<u8>, p: int) -> int
    decreases b.len() - p,
{
    if 0 <= p < b.len() && is_digit(b[p]) {
        1 + digit_run(b, p + 1)
    } else {
        0
    }
}

/// `b` holds the bytes `w` at `p`.
pub open spec fn word_at(b: Seq<u8>, p: int, w: Seq<u8>) -> bool {
    0 <= p && p + w.len() <= b.len() && b.subrange(p, p + w.len()) == w
}

/// "mul("
pub open spec fn mul_open() -> Seq<u8> {
    seq![109u8, 117u8, 108u8, 40u8]
}

/// "do()"
pub open spec fn do_word() -> Seq<u8> {
    seq![100u8, 111u8, 40u8, 41u8]
}

/// "don't()"
pub open spec fn dont_word() -> Seq<u8> {
    seq![100u8, 111u8, 110u8, 39u8, 116u8, 40u8, 41u8]
}

/// A `mul(X,Y)` instruction starts at `p`, with `X` and `Y` of one to
/// eighteen digits; `None` when none does.
pub open spec fn mul_at(b: Seq<u8>, p: int) -> Option<(nat, nat)> {
    let x0 = p + 4;
    let d1 = digit_run(b, x0);
    let y0 = x0 + d1 + 1;
    let d2 = digit_run(b, y0);
    if word_at(b, p, mul_open()) && 1 <= d1 <= 18 && x0 + d1 < b.len() && b[x0 + d1] == 44u8 && 1
        <= d2 <= 18 && y0 + d2 < b.len() && b[y0 + d2] == 41u8 {
        Some(
            (
                digits_value(b.subrange(x0, x0 + d1)) as nat,
                digits_value(b.subrange(y0, y0 + d2)) as nat,
            ),
        )
    } else {
        None
    }
}

/// Whether instructions at `p` are enabled: the last `do()` or `don't()`
/// before `p` decides, and they start enabled.
pub open spec fn enabled_at(b: Seq<u8>, p: int) -> bool
    decreases p,
{
    if p <= 0 {
        true
    } else if word_at(b, p - 1, do_word()) {
        true
    } else if word_at(b, p - 1, dont_word()) {
        false
    } else {
        enabled_at(b, p - 1)
    }
}

/// What the instruction at `p` adds: the product of a `mul` there (when
/// `switched`, only while enabled), else nothing.
pub open spec fn product_at(b: Seq<u8>, p: int, switched: bool) -> int {
    match mul_at(b, p) {
        Some((x, y)) => if !switched || enabled_at(b, p) {
            (x * y) as int
        } else {
            0
        },
        None => 0,
    }
}

pub open spec fn total(b: Seq<u8>, switched: bool) -> int {
    sum(Seq::new(b.len(), |p: int| product_at(b, p, switched)))
}

/// The number of digits in the run that starts at `p`.
fn run_length(b: &[u8], p: usize) -> (r: usize)
    requires
        p <= b@.len(),
    ensures
        r == digit_run(b@, p as int),
        p + r <= b@.len(),
        forall|i: int| p <= i < p + r ==> is_digit(#[trigger] b@[i]),
{
    let mut q: usize = p;
    while q < b.len() && b[q] >= 48 && b[q] <= 57
        invariant
            p <= q <= b@.len(),
            digit_run(b@, p as int) == (q - p) + digit_run(b@, q as int),
            forall|i: int| p <= i < q ==> is_digit(#[trigger] b@[i]),
        decreases b@.len() - q,
    {
        q += 1;
    }
    q - p
}

/// Whether `b` holds the bytes `w` at `p`.
fn has_word(b: &[u8], p: usize, w: &[u8]) -> (r: bool)
    ensures
        r == word_at(b@, p as int, w@),
{
    if p > b.len() || b.len() - p < w.len() {
        return false;
    }
    let mut i: usize = 0;
    while i < w.len()
        invariant
            p + w@.len() <= b@.len() <= usize::MAX,
            i <= w@.len(),
            forall|j: int| 0 <= j < i ==> b@[p + j] == w@[j],
        decreases w@.len() - i,
    {
        if b[p + i] != w[i] {
            assert(b@.subrange(p as int, p + w@.len())[i as int] != w@[i as int]);
            return false;
        }
        i += 1;
    }
    assert(b@.subrange(p as int, p + w@.len()) =~= w@);
    true
}

/// The operands of a `mul(X,Y)` instruction at `p`, or `None` when none is there.
pub fn mul_here(b: &[u8], p: usize) -> (r: Option<(u64, u64)>)
    requires
        p <= b@.len(),
    ensures
        r.is_some() == mul_at(b@, p as int).is_some(),
        r.is_some() ==> r.unwrap().0 == mul_at(b@, p as int).unwrap().0 && r.unwrap().1 == mul_at(
            b@,
            p as int,
        ).unwrap().1,
{
    let _n = b.len();
    let open: [u8; 4] = [109, 117, 108, 40];
    proof {
        assert(open@ =~= mul_open());
    }
    if !has_word(b, p, open.as_slice()) {
        return None;
    }
    let x0 = p + 4;
    let d1 = run_length(b, x0);
    if d1 < 1 || d1 > 18 || x0 + d1 >= b.len() || b[x0 + d1] != 44 {
        return None;
    }
    let y0 = x0 + d1 + 1;
    let d2 = run_length(b, y0);
    if d2 < 1 || d2 > 18 || y0 + d2 >= b.len() || b[y0 + d2] != 41 {
        return None;
    }
    let x = parse_number(b, x0, x0 + d1);
    let y = parse_number(b, y0, y0 + d2);
    proof {
        assert forall|i: int| 0 <= i < d1 implies is_digit(#[trigger] b@.subrange(x0 as int, x0 + d1)[i]) by {
            assert(b@.subrange(x0 as int, x0 + d1)[i] == b@[x0 + i]);
        }
        assert forall|i: int| 0 <= i < d2 implies is_digit(#[trigger] b@.subrange(y0 as int, y0 + d2)[i]) by {
            assert(b@.subrange(y0 as int, y0 + d2)[i] == b@[y0 + i]);
        }
    }
    match (x, y) {
        (Some(x), Some(y)) => Some((x, y)),
        _ => None,
    }
}

/// The sum of the products of the `mul` instructions of `b` (when
/// `switched`, only of those enabled); `None` when it does not fit in a `u64`.
pub fn sum_products(b: &[u8], switched: bool) -> (r: Option<u64>)
    ensures
        r.is_some() == (total(b@, switched) <= u64::MAX),
        r.is_some() ==> r.unwrap() == total(b@, switched),
{
    let ghost terms = Seq::new(b@.len(), |p: int| product_at(b@, p, switched));
    let do_w: [u8; 4] = [100, 111, 40, 41];
    let dont_w: [u8; 7] = [100, 111, 110, 39, 116, 40, 41];
    proof {
        assert(do_w@ =~= do_word());
        assert(dont_w@ =~= dont_word());
        assert(terms.subrange(0, 0) =~= Seq::<int>::empty());
        assert forall|j: int| 0 <= j < terms.len() implies terms[j] >= 0 by {
            match mul_at(b@, j) {
                Some((x, y)) => {
                    assert(x * y >= 0) by (nonlinear_arith)
                        requires x >= 0, y >= 0;
                },
                None => {},
            }
        }
    }
    let mut enabled = true;
    let mut acc: u64 = 0;
    let mut p: usize = 0;
    while p < b.len()
        invariant
            p <= b@.len() == terms.len(),
            do_w@ == do_word(),
            dont_w@ == dont_word(),
            enabled == enabled_at(b@, p as int),
            total(b@, switched) == sum(terms),
            forall|j: int| 0 <= j < terms.len() ==> terms[j] >= 0,
            forall|j: int| 0 <= j < terms.len() ==> #[trigger] terms[j] == product_at(b@, j, switched),
            acc == sum(terms.subrange(0, p as int)),
        decreases b@.len() - p,
    {
        let t: u64 = match mul_here(b, p) {
            Some((x, y)) => {
                if !switched || enabled {
                    match x.checked_mul(y) {
                        Some(v) => v,
                        None => {
                            proof {
                                crate::sums::lemma_term_le_sum(terms, p as int);
                            }
                            return None;
                        },
                    }
                } else {
                    0
                }
            },
            None => 0,
        };
        match add_term(acc, t, Ghost(terms), Ghost(p as int)) {
            Some(v) => {
                acc = v;
            },
            None => {
                return None;
            },
        }
        if has_word(b, p, do_w.as_slice()) {
            enabled = true;
        } else if has_word(b, p, dont_w.as_slice()) {
            enabled = false;
        }
        p += 1;
    }
    proof {
        assert(terms.subrange(0, p as int) =~= terms);
    }
    Some(acc)
}

/// The sum of the products of every `mul(X,Y)` in `input`; `None` when it
/// does not fit in a `u64`.
pub fn first_part(input: &str) -> (r: Option<u64>)
    ensures
        r.is_some() == (total(input.spec_bytes(), false) <= u64::MAX),
        r.is_some() ==> r.unwrap() == total(input.spec_bytes(), false),
{
    sum_products(input.as_bytes(), false)
}

/// The sum of the products of the enabled `mul(X,Y)` in `input`; `None`
/// when it does not fit in a `u64`.
pub fn second_part(input: &str) -> (r: Option<u64>)
    ensures
        r.is_some() == (total(input.spec_bytes(), true) <= u64::MAX),
        r.is_some() ==> r.unwrap() == total(input.spec_bytes(), true),
{
    sum_products(input.as_bytes(), true)
}

} // verus!

