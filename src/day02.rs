//! Reports of levels: which are safe, and which are safe once one level is
//! left out.
use crate::text::{digits_value, field_spans, fields, is_number, line_spans, lines, parse_number, spans_are};
use vstd::prelude::*;
use vstd::string::StringSliceAdditionalSpecFns;

verus! {

/// A report: one or more numbers separated by spaces.
pub open spec fn is_report(l: Seq<u8>) -> bool {
    fields(l).len() >= 1 && forall|i: int| 0 <= i < fields(l).len() ==> is_number(#[trigger] fields(l)[i])
}

pub open spec fn is_report_list(b: Seq<u8>) -> bool {
    forall|i: int| 0 <= i < lines(b).len() ==> is_report(#[trigger] lines(b)[i])
}

pub open spec fn levels(l: Seq<u8>) -> Seq<i64> {
    fields(l).map_values(|f: Seq<u8>| digits_value(f) as i64)
}

/// Two consecutive changes that go the same way, each by one to three.
pub open spec fn steps_ok(prev: int, next: int) -> bool {
    prev * next > 0 && -3 <= prev <= 3 && -3 <= next <= 3
}

/// Safe: every level between the first and the last is reached and left by
/// changes that go the same way, each by one to three.
pub open spec fn is_safe(s: Seq<i64>) -> bool {
    forall|i: int| 1 <= i < s.len() - 1 ==> #[trigger] steps_ok(s[i] - s[i - 1], s[i + 1] - s[i])
}

/// Safe once some one level is left out.
pub open spec fn is_safe_dampened(s: Seq<i64>) -> bool {
    exists|i: int| 0 <= i < s.len() && #[trigger] is_safe(s.remove(i))
}

pub open spec fn safe_count(b: Seq<u8>) -> int {
    lines(b).filter(|l: Seq<u8>| is_safe(levels(l))).len() as int
}

pub open spec fn dampened_count(b: Seq<u8>) -> int {
    lines(b).filter(|l: Seq<u8>| is_safe_dampened(levels(l))).len() as int
}

/// Reads the report `b[lo..hi]`, or `None` when it is not one.
fn parse_report(b: &[u8], lo: usize, hi: usize) -> (r: Option<Vec<i64>>)
    requires
        lo <= hi <= b@.len(),
    ensures
        r.is_some() == is_report(b@.subrange(lo as int, hi as int)),
        r.is_some() ==> r.unwrap()@ == levels(b@.subrange(lo as int, hi as int)),
{
    let ghost l = b@.subrange(lo as int, hi as int);
    let f = field_spans(b, lo, hi);
    if f.len() == 0 {
        return None;
    }
    let mut out: Vec<i64> = Vec::new();
    let mut k: usize = 0;
    while k < f.len()
        invariant
            k <= f@.len(),
            l == b@.subrange(lo as int, hi as int),
            spans_are(b@, f@, fields(l)),
            fields(l).len() >= 1,
            forall|i: int| 0 <= i < k ==> is_number(#[trigger] fields(l)[i]),
            out@ == levels(l).subrange(0, k as int),
        decreases f@.len() - k,
    {
        match parse_number(b, f[k].0, f[k].1) {
            Some(v) => {
                out.push(v as i64);
                proof {
                    assert(out@ =~= levels(l).subrange(0, k + 1));
                }
            },
            None => {
                assert(!is_number(fields(l)[k as int]));
                return None;
            },
        }
        k += 1;
    }
    proof {
        assert(out@ =~= levels(l));
    }
    Some(out)
}

fn check_steps(prev: i128, next: i128) -> (r: bool)
    ensures
        r == steps_ok(prev as int, next as int),
{
    proof {
        assert((prev * next > 0) == ((prev > 0 && next > 0) || (prev < 0 && next < 0)))
            by (nonlinear_arith);
    }
    ((prev > 0 && next > 0) || (prev < 0 && next < 0)) && -3 <= prev && prev <= 3 && -3 <= next
        && next <= 3
}

/// Whether the levels `s` are safe.
pub fn check_safe(s: &Vec<i64>) -> (r: bool)
    ensures
        r == is_safe(s@),
{
    if s.len() < 3 {
        return true;
    }
    let mut i: usize = 1;
    while i < s.len() - 1
        invariant
            1 <= i <= s@.len() - 1,
            s@.len() >= 3,
            forall|j: int| 1 <= j < i ==> #[trigger] steps_ok(s@[j] - s@[j - 1], s@[j + 1] - s@[j]),
        decreases s@.len() - i,
    {
        let prev = s[i] as i128 - s[i - 1] as i128;
        let next = s[i + 1] as i128 - s[i] as i128;
        if !check_steps(prev, next) {
            return false;
        }
        i += 1;
    }
    true
}

/// `s` without the level at `i`.
fn without(s: &Vec<i64>, i: usize) -> (r: Vec<i64>)
    requires
        i < s@.len(),
    ensures
        r@ == s@.remove(i as int),
{
    let mut out: Vec<i64> = Vec::new();
    let mut k: usize = 0;
    while k < s.len()
        invariant
            k <= s@.len(),
            i < s@.len(),
            out@ == if k <= i {
                s@.subrange(0, k as int)
            } else {
                s@.remove(i as int).subrange(0, k - 1)
            },
        decreases s@.len() - k,
    {
        if k != i {
            out.push(s[k]);
        }
        proof {
            if k + 1 <= i {
                assert(out@ =~= s@.subrange(0, k + 1));
            } else if k == i {
                assert(out@ =~= s@.remove(i as int).subrange(0, k as int));
            } else {
                assert(out@ =~= s@.remove(i as int).subrange(0, k as int));
            }
        }
        k += 1;
    }
    proof {
        assert(out@ =~= s@.remove(i as int));
    }
    out
}

/// Whether the levels `s` are safe once some one level is left out.
pub fn check_safe_dampened(s: &Vec<i64>) -> (r: bool)
    ensures
        r == is_safe_dampened(s@),
{
    let mut i: usize = 0;
    while i < s.len()
        invariant
            i <= s@.len(),
            forall|j: int| 0 <= j < i ==> !#[trigger] is_safe(s@.remove(j)),
        decreases s@.len() - i,
    {
        let t = without(s, i);
        if check_safe(&t) {
            return true;
        }
        i += 1;
    }
    false
}

/// The number of lines of `b` whose reports pass `check_safe` (or, with
/// `dampened`, `check_safe_dampened`); `None` when a line is not a report.
fn count_safe(b: &[u8], dampened: bool) -> (r: Option<u64>)
    ensures
        r.is_some() == is_report_list(b@),
        r.is_some() && !dampened ==> r.unwrap() == safe_count(b@),
        r.is_some() && dampened ==> r.unwrap() == dampened_count(b@),
{
    let spans = line_spans(b);
    let ghost ls = lines(b@);
    let mut n: u64 = 0;
    let mut k: usize = 0;
    while k < spans.len()
        invariant
            k <= spans@.len(),
            ls == lines(b@),
            spans_are(b@, spans@, ls),
            n <= k,
            forall|i: int| 0 <= i < k ==> is_report(#[trigger] ls[i]),
            !dampened ==> n == ls.subrange(0, k as int).filter(|l: Seq<u8>| is_safe(levels(l))).len(),
            dampened ==> n == ls.subrange(0, k as int).filter(
                |l: Seq<u8>| is_safe_dampened(levels(l)),
            ).len(),
        decreases spans@.len() - k,
    {
        let (lo, hi) = spans[k];
        proof {
            assert(ls.subrange(0, k + 1) =~= ls.subrange(0, k as int).push(ls[k as int]));
            ls.subrange(0, k as int).lemma_filter_push(ls[k as int], |l: Seq<u8>| is_safe(levels(l)));
            ls.subrange(0, k as int).lemma_filter_push(
                ls[k as int],
                |l: Seq<u8>| is_safe_dampened(levels(l)),
            );
        }
        let levels = match parse_report(b, lo, hi) {
            Some(v) => v,
            None => {
                return None;
            },
        };
        let ok = if dampened {
            check_safe_dampened(&levels)
        } else {
            check_safe(&levels)
        };
        if ok {
            n += 1;
        }
        k += 1;
    }
    proof {
        assert(ls.subrange(0, k as int) =~= ls);
    }
    Some(n)
}

/// The number of safe reports in `input`; `None` when a line is not a report.
pub fn first_part(input: &str) -> (r: Option<u64>)
    ensures
        r.is_some() == is_report_list(input.spec_bytes()),
        r.is_some() ==> r.unwrap() == safe_count(input.spec_bytes()),
{
    count_safe(input.as_bytes(), false)
}

/// The number of reports in `input` that are safe once some one level is
/// left out; `None` when a line is not a report.
pub fn second_part(input: &str) -> (r: Option<u64>)
    ensures
        r.is_some() == is_report_list(input.spec_bytes()),
        r.is_some() ==> r.unwrap() == dampened_count(input.spec_bytes()),
{
    count_safe(input.as_bytes(), true)
}

} // verus!

