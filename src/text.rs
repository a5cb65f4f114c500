//! Splitting puzzle text into lines and fields, and reading decimal numbers.
use vstd::prelude::*;

verus! {

/// The pieces of `b` between occurrences of `sep`, as `split` on a string
/// gives them: one more piece than there are separators.
pub open spec fn split_on(b: Seq<u8>, sep: u8) -> Seq<Seq<u8>>
    decreases b.len(),
{
    if b.len() == 0 {
        seq![Seq::<u8>::empty()]
    } else {
        let p = split_on(b.drop_last(), sep);
        if b.last() == sep {
            p.push(Seq::<u8>::empty())
        } else {
            p.update(p.len() - 1, p.last().push(b.last()))
        }
    }
}

/// The lines of `b`: the pieces between newlines, without the empty piece
/// that a final newline leaves.
pub open spec fn lines(b: Seq<u8>) -> Seq<Seq<u8>> {
    let p = split_on(b, 10u8);
    if p.last().len() == 0 {
        p.drop_last()
    } else {
        p
    }
}

/// The non-empty runs of `b` between spaces.
pub open spec fn fields(b: Seq<u8>) -> Seq<Seq<u8>> {
    split_on(b, 32u8).filter(|w: Seq<u8>| w.len() > 0)
}

pub open spec fn is_digit(c: u8) -> bool {
    48 <= c <= 57
}

/// The value of a run of decimal digits.
pub open spec fn digits_value(s: Seq<u8>) -> int
    decreases s.len(),
{
    if s.len() == 0 {
        0
    } else {
        digits_value(s.drop_last()) * 10 + (s.last() - 48)
    }
}

/// A decimal number as this crate reads it: one to eighteen digits.
pub open spec fn is_number(s: Seq<u8>) -> bool {
    1 <= s.len() <= 18 && forall|i: int| 0 <= i < s.len() ==> is_digit(#[trigger] s[i])
}

pub open spec fn pow10(n: nat) -> int
    decreases n,
{
    if n == 0 {
        1
    } else {
        10 * pow10((n - 1) as nat)
    }
}

/// True when each span is a piece of `b`, in the order of `pieces`.
pub open spec fn spans_are(b: Seq<u8>, spans: Seq<(usize, usize)>, pieces: Seq<Seq<u8>>) -> bool {
    &&& spans.len() == pieces.len()
    &&& forall|k: int|
        0 <= k < spans.len() ==> {
            &&& (#[trigger] spans[k]).0 <= spans[k].1 <= b.len()
            &&& b.subrange(spans[k].0 as int, spans[k].1 as int) == pieces[k]
        }
}

pub proof fn lemma_split_on_nonempty(b: Seq<u8>, sep: u8)
    ensures
        split_on(b, sep).len() >= 1,
    decreases b.len(),
{
    if b.len() > 0 {
        lemma_split_on_nonempty(b.drop_last(), sep);
    }
}

/// The spans of the pieces of `b[lo..hi]` between occurrences of `sep`.
pub fn split_spans(b: &[u8], lo: usize, hi: usize, sep: u8) -> (r: Vec<(usize, usize)>)
    requires
        lo <= hi <= b@.len(),
    ensures
        spans_are(b@, r@, split_on(b@.subrange(lo as int, hi as int), sep)),
        forall|k: int| 0 <= k < r@.len() ==> lo <= (#[trigger] r@[k]).0,
{
    let mut spans: Vec<(usize, usize)> = Vec::new();
    let mut start: usize = lo;
    let mut i: usize = lo;
    proof {
        assert(b@.subrange(lo as int, lo as int) =~= Seq::<u8>::empty());
    }
    while i < hi
        invariant
            lo <= start <= i <= hi <= b@.len(),
            ({
                let p = split_on(b@.subrange(lo as int, i as int), sep);
                &&& spans_are(b@, spans@, p.drop_last())
                &&& p.len() >= 1
                &&& b@.subrange(start as int, i as int) == p.last()
            }),
            forall|k: int| 0 <= k < spans@.len() ==> lo <= (#[trigger] spans@[k]).0,
        decreases hi - i,
    {
        let ghost prev = split_on(b@.subrange(lo as int, i as int), sep);
        proof {
            assert(b@.subrange(lo as int, i + 1).drop_last() =~= b@.subrange(lo as int, i as int));
        }
        if b[i] == sep {
            spans.push((start, i));
            start = i + 1;
            proof {
                let p = split_on(b@.subrange(lo as int, i + 1), sep);
                assert(p == prev.push(Seq::<u8>::empty()));
                assert(p.drop_last() =~= prev);
                assert(b@.subrange(start as int, i + 1) =~= Seq::<u8>::empty());
            }
        } else {
            proof {
                let p = split_on(b@.subrange(lo as int, i + 1), sep);
                assert(p.drop_last() =~= prev.drop_last());
                assert(b@.subrange(start as int, i + 1) =~= b@.subrange(start as int, i as int).push(
                    b@[i as int],
                ));
            }
        }
        i += 1;
    }
    spans.push((start, hi));
    proof {
        let p = split_on(b@.subrange(lo as int, hi as int), sep);
        assert(p =~= p.drop_last().push(p.last()));
    }
    spans
}

/// The spans of the lines of `b`.
pub fn line_spans(b: &[u8]) -> (r: Vec<(usize, usize)>)
    ensures
        spans_are(b@, r@, lines(b@)),
{
    let mut spans = split_spans(b, 0, b.len(), 10u8);
    proof {
        assert(b@.subrange(0, b@.len() as int) =~= b@);
        lemma_split_on_nonempty(b@, 10u8);
    }
    let last = spans[spans.len() - 1];
    if last.0 == last.1 {
        spans.pop();
        proof {
            let p = split_on(b@, 10u8);
            assert(p.last().len() == 0);
            assert(spans_are(b@, spans@, p.drop_last()));
        }
    }
    spans
}

/// The spans of the fields of `b[lo..hi]`.
pub fn field_spans(b: &[u8], lo: usize, hi: usize) -> (r: Vec<(usize, usize)>)
    requires
        lo <= hi <= b@.len(),
    ensures
        spans_are(b@, r@, fields(b@.subrange(lo as int, hi as int))),
{
    let pieces = split_spans(b, lo, hi, 32u8);
    let ghost ps = split_on(b@.subrange(lo as int, hi as int), 32u8);
    let mut out: Vec<(usize, usize)> = Vec::new();
    let mut k: usize = 0;
    while k < pieces.len()
        invariant
            k <= pieces@.len(),
            spans_are(b@, pieces@, ps),
            spans_are(b@, out@, ps.subrange(0, k as int).filter(|w: Seq<u8>| w.len() > 0)),
        decreases pieces@.len() - k,
    {
        proof {
            assert(ps.subrange(0, k + 1) =~= ps.subrange(0, k as int).push(ps[k as int]));
            ps.subrange(0, k as int).lemma_filter_push(ps[k as int], |w: Seq<u8>| w.len() > 0);
        }
        let s = pieces[k];
        let ghost before = out@;
        let ghost done = ps.subrange(0, k as int).filter(|w: Seq<u8>| w.len() > 0);
        assert(b@.subrange(s.0 as int, s.1 as int) == ps[k as int]);
        if s.0 < s.1 {
            out.push(s);
            proof {
                assert(ps[k as int].len() > 0);
                assert(ps.subrange(0, k + 1).filter(|w: Seq<u8>| w.len() > 0) == done.push(ps[k as int]));
                assert forall|j: int| 0 <= j < out@.len() implies {
                    &&& (#[trigger] out@[j]).0 <= out@[j].1 <= b@.len()
                    &&& b@.subrange(out@[j].0 as int, out@[j].1 as int) == done.push(ps[k as int])[j]
                } by {
                    if j < before.len() {
                        assert(out@[j] == before[j]);
                    }
                }
            }
        } else {
            assert(ps[k as int].len() == 0);
        }
        k += 1;
    }
    proof {
        assert(ps.subrange(0, pieces@.len() as int) =~= ps);
    }
    out
}

/// Reads `b[lo..hi]` as a decimal number, or `None` when it is not one.
pub fn parse_number(b: &[u8], lo: usize, hi: usize) -> (r: Option<u64>)
    requires
        lo <= hi <= b@.len(),
    ensures
        r.is_some() == is_number(b@.subrange(lo as int, hi as int)),
        r.is_some() ==> r.unwrap() == digits_value(b@.subrange(lo as int, hi as int)),
        r.is_some() ==> r.unwrap() < 1000000000000000000,
{
    if hi - lo == 0 || hi - lo > 18 {
        return None;
    }
    let mut v: u64 = 0;
    let mut i: usize = lo;
    proof {
        lemma_pow10_monotone(0, 18);
        assert(b@.subrange(lo as int, lo as int) =~= Seq::<u8>::empty());
    }
    while i < hi
        invariant
            lo <= i <= hi <= b@.len(),
            hi - lo <= 18,
            forall|j: int| lo <= j < i ==> is_digit(#[trigger] b@[j]),
            v == digits_value(b@.subrange(lo as int, i as int)),
            v < pow10((i - lo) as nat),
            pow10((i - lo) as nat) <= pow10(18),
        decreases hi - i,
    {
        let c = b[i];
        if c < 48 || c > 57 {
            assert(!is_digit(b@.subrange(lo as int, hi as int)[i - lo]));
            return None;
        }
        proof {
            assert(b@.subrange(lo as int, i + 1).drop_last() =~= b@.subrange(lo as int, i as int));
            lemma_pow10_monotone((i + 1 - lo) as nat, 18);
            lemma_pow10_18();
            let p = pow10((i - lo) as nat);
            assert(v * 10 + 9 < p * 10) by (nonlinear_arith)
                requires v < p;
        }
        v = v * 10 + (c - 48) as u64;
        i += 1;
    }
    proof {
        assert(b@.subrange(lo as int, hi as int) =~= b@.subrange(lo as int, i as int));
        lemma_pow10_monotone((i - lo) as nat, 18);
        lemma_pow10_18();
    }
    Some(v)
}

/// A run of digits is worth less than ten to the power of its length.
pub proof fn lemma_digits_below(s: Seq<u8>)
    requires
        forall|i: int| 0 <= i < s.len() ==> is_digit(#[trigger] s[i]),
    ensures
        0 <= digits_value(s) < pow10(s.len()),
    decreases s.len(),
{
    if s.len() > 0 {
        let d = s.drop_last();
        assert forall|i: int| 0 <= i < d.len() implies is_digit(#[trigger] d[i]) by {
            assert(d[i] == s[i]);
        }
        lemma_digits_below(d);
        let p = pow10(d.len());
        let v = digits_value(d);
        assert(is_digit(s[s.len() - 1]));
        assert(v * 10 + 9 < p * 10) by (nonlinear_arith)
            requires
                v < p,
        ;
    }
}

pub proof fn lemma_pow10_18()
    ensures
        pow10(18) == 1000000000000000000,
{
    reveal_with_fuel(pow10, 19);
}

pub proof fn lemma_pow10_monotone(a: nat, b: nat)
    requires
        a <= b,
    ensures
        1 <= pow10(a) <= pow10(b),
    decreases b,
{
    if b > 0 {
        if a < b {
            lemma_pow10_monotone(a, (b - 1) as nat);
        } else {
            lemma_pow10_monotone((a - 1) as nat, (b - 1) as nat);
        }
    }
}

} // verus!
