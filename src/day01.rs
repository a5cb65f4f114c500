//! Two columns of location ids: how far apart the sorted columns are, and
//! how similar they are.
use crate::sums::{add_term, lemma_term_le_sum, sum};
use crate::text::{digits_value, field_spans, fields, is_number, line_spans, lines, parse_number};
use vstd::prelude::*;
use vstd::relations::{sorted_by, total_ordering};
use vstd::string::StringSliceAdditionalSpecFns;

verus! {

/// A line of two numbers separated by spaces.
pub open spec fn is_pair_line(l: Seq<u8>) -> bool {
    fields(l).len() == 2 && is_number(fields(l)[0]) && is_number(fields(l)[1])
}

pub open spec fn is_pair_list(b: Seq<u8>) -> bool {
    forall|i: int| 0 <= i < lines(b).len() ==> is_pair_line(#[trigger] lines(b)[i])
}

/// Column `c` (0 or 1) of the pair list `b`.
pub open spec fn column(b: Seq<u8>, c: int) -> Seq<u64> {
    lines(b).map_values(|l: Seq<u8>| digits_value(fields(l)[c]) as u64)
}

pub open spec fn leq(a: u64, b: u64) -> bool {
    a <= b
}

/// The distance between the two columns, each sorted: the sum of the
/// differences between the values of each rank.
pub open spec fn total_distance(left: Seq<u64>, right: Seq<u64>) -> int {
    let l = left.sort_by(|a: u64, b: u64| leq(a, b));
    let r = right.sort_by(|a: u64, b: u64| leq(a, b));
    sum(Seq::new(l.len(), |i: int| if l[i] >= r[i] { l[i] - r[i] } else { r[i] - l[i] }))
}

/// How often `x` occurs in `s`.
pub open spec fn count(s: Seq<u64>, x: u64) -> int {
    s.filter(|y: u64| y == x).len() as int
}

/// Each left value times the number of times it occurs on the right, summed.
pub open spec fn similarity(left: Seq<u64>, right: Seq<u64>) -> int {
    sum(Seq::new(left.len(), |i: int| left[i] * count(right, left[i])))
}

/// Reads the two columns of a list of pairs, or `None` when a line is not a
/// pair of numbers.
pub fn parse_input(input: &[u8]) -> (r: Option<(Vec<u64>, Vec<u64>)>)
    ensures
        r.is_some() == is_pair_list(input@),
        r.is_some() ==> r.unwrap().0@ == column(input@, 0) && r.unwrap().1@ == column(input@, 1),
{
    let spans = line_spans(input);
    let mut left: Vec<u64> = Vec::new();
    let mut right: Vec<u64> = Vec::new();
    let ghost ls = lines(input@);
    let mut k: usize = 0;
    while k < spans.len()
        invariant
            k <= spans@.len(),
            crate::text::spans_are(input@, spans@, ls),
            ls == lines(input@),
            forall|i: int| 0 <= i < k ==> is_pair_line(#[trigger] ls[i]),
            left@ == column(input@, 0).subrange(0, k as int),
            right@ == column(input@, 1).subrange(0, k as int),
        decreases spans@.len() - k,
    {
        let (lo, hi) = spans[k];
        let f = field_spans(input, lo, hi);
        if f.len() != 2 {
            return None;
        }
        let a = parse_number(input, f[0].0, f[0].1);
        let b = parse_number(input, f[1].0, f[1].1);
        match (a, b) {
            (Some(x), Some(y)) => {
                left.push(x);
                right.push(y);
                proof {
                    assert(ls[k as int] == input@.subrange(lo as int, hi as int));
                    assert(left@ =~= column(input@, 0).subrange(0, k + 1));
                    assert(right@ =~= column(input@, 1).subrange(0, k + 1));
                }
            },
            _ => {
                return None;
            },
        }
        k += 1;
    }
    proof {
        assert(left@ =~= column(input@, 0));
        assert(right@ =~= column(input@, 1));
    }
    Some((left, right))
}

/// Relies on `slice::sort`: it orders the values ascending and keeps each
/// of them.
#[verifier::external_body]
fn sort_values(v: &mut Vec<u64>)
    ensures
        sorted_by(final(v)@, |a: u64, b: u64| leq(a, b)),
        final(v)@.to_multiset() == old(v)@.to_multiset(),
{
    v.sort();
}

proof fn lemma_leq_total()
    ensures
        total_ordering(|a: u64, b: u64| leq(a, b)),
{
}

/// Sorts `v` into the order of `sort_by`.
fn sorted(v: Vec<u64>) -> (r: Vec<u64>)
    ensures
        r@ == v@.sort_by(|a: u64, b: u64| leq(a, b)),
{
    let mut v = v;
    let ghost orig = v@;
    sort_values(&mut v);
    proof {
        lemma_leq_total();
        orig.lemma_sort_by_ensures(|a: u64, b: u64| leq(a, b));
        vstd::seq_lib::lemma_sorted_unique(
            v@,
            orig.sort_by(|a: u64, b: u64| leq(a, b)),
            |a: u64, b: u64| leq(a, b),
        );
    }
    v
}

/// The distance between the sorted columns, or `None` when it does not fit
/// in a `u64`.
pub fn distance(left: Vec<u64>, right: Vec<u64>) -> (r: Option<u64>)
    requires
        left@.len() == right@.len(),
    ensures
        r.is_some() == (total_distance(left@, right@) <= u64::MAX),
        r.is_some() ==> r.unwrap() == total_distance(left@, right@),
{
    let ghost l0 = left@;
    let ghost r0 = right@;
    let sl = sorted(left);
    let sr = sorted(right);
    proof {
        lemma_leq_total();
        l0.lemma_sort_by_ensures(|a: u64, b: u64| leq(a, b));
        r0.lemma_sort_by_ensures(|a: u64, b: u64| leq(a, b));
        vstd::seq_lib::to_multiset_len(l0);
        vstd::seq_lib::to_multiset_len(sl@);
        vstd::seq_lib::to_multiset_len(r0);
        vstd::seq_lib::to_multiset_len(sr@);
    }
    let ghost terms = Seq::new(
        sl@.len(),
        |i: int| if sl@[i] >= sr@[i] { sl@[i] - sr@[i] } else { sr@[i] - sl@[i] },
    );
    let mut acc: u64 = 0;
    let mut i: usize = 0;
    proof {
        assert(terms.subrange(0, 0) =~= Seq::<int>::empty());
    }
    while i < sl.len()
        invariant
            i <= sl@.len() == sr@.len() == terms.len(),
            total_distance(left@, right@) == sum(terms),
            forall|j: int| 0 <= j < terms.len() ==> terms[j] >= 0,
            forall|j: int| 0 <= j < terms.len() ==> #[trigger] terms[j] == if sl@[j] >= sr@[j] {
                sl@[j] - sr@[j]
            } else {
                sr@[j] - sl@[j]
            },
            acc == sum(terms.subrange(0, i as int)),
        decreases sl@.len() - i,
    {
        let d = if sl[i] >= sr[i] {
            sl[i] - sr[i]
        } else {
            sr[i] - sl[i]
        };
        match add_term(acc, d, Ghost(terms), Ghost(i as int)) {
            Some(v) => {
                acc = v;
            },
            None => {
                return None;
            },
        }
        i += 1;
    }
    proof {
        assert(terms.subrange(0, i as int) =~= terms);
    }
    Some(acc)
}

proof fn lemma_count_push(s: Seq<u64>, e: u64, x: u64)
    ensures
        count(s.push(e), x) == count(s, x) + if e == x { 1int } else { 0int },
{
    reveal(Seq::filter);
    assert(s.push(e).drop_last() =~= s);
}

/// How often `x` occurs in `v`.
fn count_of(v: &Vec<u64>, x: u64) -> (r: u64)
    ensures
        r == count(v@, x),
{
    let mut c: u64 = 0;
    let mut i: usize = 0;
    proof {
        assert(v@.subrange(0, 0) =~= Seq::<u64>::empty());
    }
    while i < v.len()
        invariant
            i <= v@.len(),
            c == count(v@.subrange(0, i as int), x),
            c <= i,
        decreases v@.len() - i,
    {
        proof {
            assert(v@.subrange(0, i + 1) =~= v@.subrange(0, i as int).push(v@[i as int]));
            lemma_count_push(v@.subrange(0, i as int), v@[i as int], x);
        }
        if v[i] == x {
            c += 1;
        }
        i += 1;
    }
    proof {
        assert(v@.subrange(0, i as int) =~= v@);
    }
    c
}

/// The similarity of the two columns, or `None` when it does not fit in a
/// `u64`.
pub fn similarity_score(left: &Vec<u64>, right: &Vec<u64>) -> (r: Option<u64>)
    ensures
        r.is_some() == (similarity(left@, right@) <= u64::MAX),
        r.is_some() ==> r.unwrap() == similarity(left@, right@),
{
    let ghost terms = Seq::new(left@.len(), |i: int| left@[i] * count(right@, left@[i]));
    let mut acc: u64 = 0;
    let mut i: usize = 0;
    proof {
        assert(terms.subrange(0, 0) =~= Seq::<int>::empty());
        assert forall|j: int| 0 <= j < terms.len() implies terms[j] >= 0 by {
            assert(left@[j] * count(right@, left@[j]) >= 0) by (nonlinear_arith)
                requires left@[j] >= 0, count(right@, left@[j]) >= 0;
        }
    }
    while i < left.len()
        invariant
            i <= left@.len() == terms.len(),
            similarity(left@, right@) == sum(terms),
            forall|j: int| 0 <= j < terms.len() ==> terms[j] >= 0,
            forall|j: int| 0 <= j < terms.len() ==> #[trigger] terms[j] == left@[j] * count(right@, left@[j]),
            acc == sum(terms.subrange(0, i as int)),
        decreases left@.len() - i,
    {
        let c = count_of(right, left[i]);
        let t = match left[i].checked_mul(c) {
            Some(t) => t,
            None => {
                proof {
                    lemma_term_le_sum(terms, i as int);
                }
                return None;
            },
        };
        match add_term(acc, t, Ghost(terms), Ghost(i as int)) {
            Some(v) => {
                acc = v;
            },
            None => {
                return None;
            },
        }
        i += 1;
    }
    proof {
        assert(terms.subrange(0, i as int) =~= terms);
    }
    Some(acc)
}

/// The distance between the sorted columns of the pair list `input`; `None`
/// when a line is not a pair of numbers or the distance does not fit in a `u64`.
pub fn first_part(input: &str) -> (r: Option<u64>)
    ensures
        r.is_some() == (is_pair_list(input.spec_bytes()) && total_distance(
            column(input.spec_bytes(), 0),
            column(input.spec_bytes(), 1),
        ) <= u64::MAX),
        r.is_some() ==> r.unwrap() == total_distance(
            column(input.spec_bytes(), 0),
            column(input.spec_bytes(), 1),
        ),
{
    match parse_input(input.as_bytes()) {
        Some((left, right)) => distance(left, right),
        None => None,
    }
}

/// The similarity of the columns of the pair list `input`; `None` when a
/// line is not a pair of numbers or the score does not fit in a `u64`.
pub fn second_part(input: &str) -> (r: Option<u64>)
    ensures
        r.is_some() == (is_pair_list(input.spec_bytes()) && similarity(
            column(input.spec_bytes(), 0),
            column(input.spec_bytes(), 1),
        ) <= u64::MAX),
        r.is_some() ==> r.unwrap() == similarity(
            column(input.spec_bytes(), 0),
            column(input.spec_bytes(), 1),
        ),
{
    match parse_input(input.as_bytes()) {
        Some((left, right)) => similarity_score(&left, &right),
        None => None,
    }
}

} // verus!

