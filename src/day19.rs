//! Towel designs: in how many ways each design can be laid out from the
//! available towel patterns.
use crate::sums::{add_term, sum};
use crate::text::{line_spans, lines, split_on, split_spans, spans_are};
use vstd::prelude::*;
use vstd::string::StringSliceAdditionalSpecFns;

verus! {

/// `s` is one of the towel patterns.
pub open spec fn is_towel(ps: Seq<Seq<u8>>, s: Seq<u8>) -> bool {
    exists|k: int| 0 <= k < ps.len() && ps[k] == s
}

/// The number of ways to lay out `d[..j]` as a row of towel patterns.
pub open spec fn ways(d: Seq<u8>, ps: Seq<Seq<u8>>, j: nat) -> nat
    decreases j, j + 1,
{
    if j == 0 {
        1
    } else {
        ways_upto(d, ps, j, j)
    }
}

/// The ways to lay out `d[..j]` whose last towel has length at most `m`.
pub open spec fn ways_upto(d: Seq<u8>, ps: Seq<Seq<u8>>, j: nat, m: nat) -> nat
    decreases j, m,
{
    if m == 0 || m > j {
        0
    } else {
        ways_upto(d, ps, j, (m - 1) as nat) + if is_towel(ps, d.subrange(j - m, j as int)) {
            ways(d, ps, (j - m) as nat)
        } else {
            0
        }
    }
}

/// Every prefix of `d` has at most `u64::MAX` layouts.
pub open spec fn counts_fit(d: Seq<u8>, ps: Seq<Seq<u8>>) -> bool {
    forall|j: nat| j <= d.len() ==> #[trigger] ways(d, ps, j) <= u64::MAX
}

proof fn lemma_upto_le(d: Seq<u8>, ps: Seq<Seq<u8>>, j: nat, m: nat)
    requires
        1 <= j,
        m <= j,
    ensures
        ways_upto(d, ps, j, m) <= ways(d, ps, j),
    decreases j - m,
{
    if m < j {
        lemma_upto_le(d, ps, j, m + 1);
    }
}

/// Whether `s` is one of the patterns.
fn towel_matches(ps: &Vec<Vec<u8>>, d: &Vec<u8>, lo: usize, hi: usize) -> (r: bool)
    requires
        lo <= hi <= d@.len(),
    ensures
        r == is_towel(Seq::new(ps@.len(), |k: int| ps@[k]@), d@.subrange(lo as int, hi as int)),
{
    let ghost pv = Seq::new(ps@.len(), |k: int| ps@[k]@);
    let ghost s = d@.subrange(lo as int, hi as int);
    let mut k: usize = 0;
    while k < ps.len()
        invariant
            k <= ps@.len(),
            lo <= hi <= d@.len(),
            pv == Seq::new(ps@.len(), |k: int| ps@[k]@),
            s == d@.subrange(lo as int, hi as int),
            forall|i: int| 0 <= i < k ==> pv[i] != s,
        decreases ps@.len() - k,
    {
        let p = &ps[k];
        if p.len() == hi - lo {
            let mut i: usize = 0;
            let mut same = true;
            while i < p.len()
                invariant
                    i <= p@.len() == hi - lo,
                    lo <= hi <= d@.len(),
                    same == forall|t: int| 0 <= t < i ==> p@[t] == d@[lo + t],
                decreases p@.len() - i,
            {
                if p[i] != d[lo + i] {
                    same = false;
                }
                i += 1;
            }
            if same {
                assert(p@ =~= s);
                assert(pv[k as int] == s);
                return true;
            } else {
                proof {
                    let t = choose|t: int| 0 <= t < i && p@[t] != d@[lo + t];
                    assert(s[t] == d@[lo + t]);
                }
            }
        }
        k += 1;
    }
    false
}

/// The number of ways to lay out `d` from the patterns `ps`; `None` when
/// the count for some prefix of `d` does not fit in a `u64`.
pub fn check_design(ps: &Vec<Vec<u8>>, d: &Vec<u8>) -> (r: Option<u64>)
    ensures
        ({
            let pv = Seq::new(ps@.len(), |k: int| ps@[k]@);
            &&& r.is_some() == counts_fit(d@, pv)
            &&& r.is_some() ==> r.unwrap() == ways(d@, pv, d@.len())
        }),
{
    let ghost pv = Seq::new(ps@.len(), |k: int| ps@[k]@);
    let n = d.len();
    let mut cache: Vec<u64> = Vec::new();
    cache.push(1);
    let mut i: usize = 0;
    while i < n
        invariant
            i <= n,
            n == d@.len(),
            pv == Seq::new(ps@.len(), |k: int| ps@[k]@),
            cache@.len() == i + 1,
            forall|t: int| 0 <= t <= i ==> #[trigger] cache@[t] == ways(d@, pv, t as nat),
        decreases n - i,
    {
        let j = i + 1;
        let mut total: u64 = 0;
        let mut k: usize = 0;
        while k < j
            invariant
                0 <= k <= j,
                j == i + 1,
                1 <= j <= n,
                n == d@.len(),
                pv == Seq::new(ps@.len(), |k: int| ps@[k]@),
                cache@.len() == j,
                forall|t: int| 0 <= t < j ==> #[trigger] cache@[t] == ways(d@, pv, t as nat),
                total == ways_upto(d@, pv, j as nat, k as nat),
            decreases j - k,
        {
            let m = k + 1;
            if towel_matches(ps, d, j - m, j) {
                match total.checked_add(cache[j - m]) {
                    Some(t) => {
                        total = t;
                    },
                    None => {
                        proof {
                            lemma_upto_le(d@, pv, j as nat, m as nat);
                            assert(ways(d@, pv, j as nat) > u64::MAX);
                        }
                        return None;
                    },
                }
            }
            k += 1;
        }
        cache.push(total);
        i += 1;
    }
    proof {
        assert forall|t: nat| t <= d@.len() implies #[trigger] ways(d@, pv, t) <= u64::MAX by {
            assert(cache@[t as int] == ways(d@, pv, t));
        }
    }
    Some(cache[n])
}

/// A pattern as listed: without the space that follows a comma.
pub open spec fn trimmed(p: Seq<u8>) -> Seq<u8> {
    if p.len() > 0 && p[0] == 32u8 {
        p.drop_first()
    } else {
        p
    }
}

/// A line of patterns separated by commas, an empty line, then designs.
pub open spec fn is_towel_list(b: Seq<u8>) -> bool {
    lines(b).len() >= 2 && lines(b)[1].len() == 0
}

pub open spec fn patterns(b: Seq<u8>) -> Seq<Seq<u8>> {
    split_on(lines(b)[0], 44u8).map_values(|p: Seq<u8>| trimmed(p))
}

pub open spec fn designs(b: Seq<u8>) -> Seq<Seq<u8>> {
    lines(b).subrange(2, lines(b).len() as int)
}

/// The views of a list of byte vectors.
pub open spec fn views(v: Seq<Vec<u8>>) -> Seq<Seq<u8>> {
    Seq::new(v.len(), |k: int| v[k]@)
}

fn copy_bytes(b: &[u8], lo: usize, hi: usize) -> (r: Vec<u8>)
    requires
        lo <= hi <= b@.len(),
    ensures
        r@ == b@.subrange(lo as int, hi as int),
{
    let mut out: Vec<u8> = Vec::new();
    let mut i: usize = lo;
    while i < hi
        invariant
            lo <= i <= hi <= b@.len(),
            out@ == b@.subrange(lo as int, i as int),
        decreases hi - i,
    {
        out.push(b[i]);
        proof {
            assert(out@ =~= b@.subrange(lo as int, i + 1));
        }
        i += 1;
    }
    out
}

/// The patterns and designs of `input`, or `None` when its second line is
/// not empty.
pub fn parse_input(input: &[u8]) -> (r: Option<(Vec<Vec<u8>>, Vec<Vec<u8>>)>)
    ensures
        r.is_some() == is_towel_list(input@),
        r.is_some() ==> views(r.unwrap().0@) == patterns(input@) && views(r.unwrap().1@) == designs(
            input@,
        ),
{
    let spans = line_spans(input);
    if spans.len() < 2 || spans[1].0 != spans[1].1 {
        return None;
    }
    let ghost ls = lines(input@);
    let pieces = split_spans(input, spans[0].0, spans[0].1, 44u8);
    let ghost raw = split_on(ls[0], 44u8);
    let mut ps: Vec<Vec<u8>> = Vec::new();
    let mut k: usize = 0;
    while k < pieces.len()
        invariant
            k <= pieces@.len(),
            spans_are(input@, pieces@, raw),
            raw == split_on(ls[0], 44u8),
            ps@.len() == k,
            forall|t: int| 0 <= t < k ==> (#[trigger] ps@[t])@ == trimmed(raw[t]),
            ls == lines(input@),
            ls.len() >= 2,
        decreases pieces@.len() - k,
    {
        let (lo, hi) = pieces[k];
        let lo2 = if lo < hi && input[lo] == 32 {
            lo + 1
        } else {
            lo
        };
        let p = copy_bytes(input, lo2, hi);
        proof {
            let s = input@.subrange(lo as int, hi as int);
            if lo < hi && input@[lo as int] == 32 {
                assert(s.drop_first() =~= input@.subrange(lo2 as int, hi as int));
            }
            assert(p@ == trimmed(raw[k as int]));
        }
        ps.push(p);
        k += 1;
    }
    let mut ds: Vec<Vec<u8>> = Vec::new();
    let mut j: usize = 2;
    while j < spans.len()
        invariant
            2 <= j <= spans@.len(),
            spans_are(input@, spans@, ls),
            ls == lines(input@),
            ds@.len() == j - 2,
            forall|t: int| 0 <= t < j - 2 ==> (#[trigger] ds@[t])@ == ls[t + 2],
        decreases spans@.len() - j,
    {
        let d = copy_bytes(input, spans[j].0, spans[j].1);
        proof {
            assert(ls[j as int] == input@.subrange(spans@[j as int].0 as int, spans@[j as int].1 as int));
        }
        ds.push(d);
        j += 1;
    }
    proof {
        assert(views(ps@) =~= patterns(input@));
        assert(views(ds@) =~= designs(input@));
    }
    Some((ps, ds))
}

/// The number of designs that can be laid out at all.
pub open spec fn possible_count(ps: Seq<Seq<u8>>, ds: Seq<Seq<u8>>) -> int {
    sum(Seq::new(ds.len(), |i: int| if ways(ds[i], ps, ds[i].len()) > 0 { 1int } else { 0int }))
}

/// The number of layouts of all designs together.
pub open spec fn total_ways(ps: Seq<Seq<u8>>, ds: Seq<Seq<u8>>) -> int {
    sum(Seq::new(ds.len(), |i: int| ways(ds[i], ps, ds[i].len()) as int))
}

pub open spec fn all_fit(ps: Seq<Seq<u8>>, ds: Seq<Seq<u8>>) -> bool {
    forall|i: int| 0 <= i < ds.len() ==> #[trigger] counts_fit(ds[i], ps)
}

/// With `all`, the number of layouts of all designs; without, the number of
/// designs that have one. `None` when a count does not fit in a `u64`.
fn count_designs(ps: &Vec<Vec<u8>>, ds: &Vec<Vec<u8>>, all: bool) -> (r: Option<u64>)
    ensures
        ({
            let pv = views(ps@);
            let dv = views(ds@);
            let t = if all { total_ways(pv, dv) } else { possible_count(pv, dv) };
            &&& r.is_some() == (all_fit(pv, dv) && t <= u64::MAX)
            &&& r.is_some() ==> r.unwrap() == t
        }),
{
    let ghost pv = views(ps@);
    let ghost dv = views(ds@);
    let ghost terms = if all {
        Seq::new(dv.len(), |i: int| ways(dv[i], pv, dv[i].len()) as int)
    } else {
        Seq::new(dv.len(), |i: int| if ways(dv[i], pv, dv[i].len()) > 0 { 1int } else { 0int })
    };
    let mut acc: u64 = 0;
    let mut i: usize = 0;
    proof {
        assert(terms.subrange(0, 0) =~= Seq::<int>::empty());
        assert(pv =~= Seq::new(ps@.len(), |k: int| ps@[k]@));
    }
    while i < ds.len()
        invariant
            i <= ds@.len() == dv.len() == terms.len(),
            pv == views(ps@),
            pv == Seq::new(ps@.len(), |k: int| ps@[k]@),
            dv == views(ds@),
            (if all { total_ways(pv, dv) } else { possible_count(pv, dv) }) == sum(terms),
            forall|j: int| 0 <= j < terms.len() ==> terms[j] >= 0,
            forall|j: int| 0 <= j < terms.len() ==> #[trigger] terms[j] == if all {
                ways(dv[j], pv, dv[j].len()) as int
            } else if ways(dv[j], pv, dv[j].len()) > 0 {
                1int
            } else {
                0int
            },
            forall|j: int| 0 <= j < i ==> #[trigger] counts_fit(dv[j], pv),
            acc == sum(terms.subrange(0, i as int)),
        decreases ds@.len() - i,
    {
        let w = match check_design(ps, &ds[i]) {
            Some(w) => w,
            None => {
                assert(dv[i as int] == ds@[i as int]@);
                assert(!counts_fit(dv[i as int], pv));
                return None;
            },
        };
        let t: u64 = if all {
            w
        } else if w > 0 {
            1
        } else {
            0
        };
        match add_term(acc, t, Ghost(terms), Ghost(i as int)) {
            Some(v) => {
                acc = v;
            },
            None => {
                return None;
            },
        }
        i += 1;
    }
    proof {
        assert(terms.subrange(0, i as int) =~= terms);
    }
    Some(acc)
}

/// The number of designs of `input` that can be laid out; `None` when
/// `input` has no empty second line, or a count does not fit in a `u64`.
pub fn first_part(input: &str) -> (r: Option<u64>)
    ensures
        ({
            let b = input.spec_bytes();
            &&& r.is_some() == (is_towel_list(b) && all_fit(patterns(b), designs(b)) && possible_count(
                patterns(b),
                designs(b),
            ) <= u64::MAX)
            &&& r.is_some() ==> r.unwrap() == possible_count(patterns(b), designs(b))
        }),
{
    match parse_input(input.as_bytes()) {
        Some((ps, ds)) => count_designs(&ps, &ds, false),
        None => None,
    }
}

/// The number of layouts of all designs of `input`; `None` when `input` has
/// no empty second line, or a count does not fit in a `u64`.
pub fn second_part(input: &str) -> (r: Option<u64>)
    ensures
        ({
            let b = input.spec_bytes();
            &&& r.is_some() == (is_towel_list(b) && all_fit(patterns(b), designs(b)) && total_ways(
                patterns(b),
                designs(b),
            ) <= u64::MAX)
            &&& r.is_some() ==> r.unwrap() == total_ways(patterns(b), designs(b))
        }),
{
    match parse_input(input.as_bytes()) {
        Some((ps, ds)) => count_designs(&ps, &ds, true),
        None => None,
    }
}

} // verus!

