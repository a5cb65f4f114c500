//! Sums of integer sequences, adding them up without overflow, and exact
//! division.
use vstd::prelude::*;

verus! {

/// The sum of the terms of `s`.
pub open spec fn sum(s: Seq<int>) -> int
    decreases s.len(),
{
    if s.len() == 0 {
        0
    } else {
        sum(s.drop_last()) + s.last()
    }
}

/// A sum of terms that are not negative grows with each term.
pub proof fn lemma_sum_prefix_le(s: Seq<int>, i: int)
    requires
        0 <= i <= s.len(),
        forall|j: int| 0 <= j < s.len() ==> s[j] >= 0,
    ensures
        0 <= sum(s.subrange(0, i)) <= sum(s),
    decreases s.len() - i,
{
    if i < s.len() {
        lemma_sum_prefix_le(s, i + 1);
        assert(s.subrange(0, i + 1).drop_last() =~= s.subrange(0, i));
        assert(s.subrange(0, i + 1).last() == s[i]);
        lemma_sum_nonneg(s.subrange(0, i));
    } else {
        assert(s.subrange(0, i) =~= s);
        lemma_sum_nonneg(s);
    }
}

pub proof fn lemma_sum_nonneg(s: Seq<int>)
    requires
        forall|j: int| 0 <= j < s.len() ==> s[j] >= 0,
    ensures
        sum(s) >= 0,
    decreases s.len(),
{
    if s.len() > 0 {
        lemma_sum_nonneg(s.drop_last());
    }
}

/// A sum of terms between zero and `m` is at most `m` times their number.
pub proof fn lemma_sum_bounded(s: Seq<int>, m: int)
    requires
        forall|j: int| 0 <= j < s.len() ==> 0 <= #[trigger] s[j] <= m,
    ensures
        0 <= sum(s) <= s.len() * m,
    decreases s.len(),
{
    if s.len() > 0 {
        lemma_sum_bounded(s.drop_last(), m);
        assert(s.drop_last().len() * m + m == s.len() * m) by (nonlinear_arith)
            requires s.drop_last().len() + 1 == s.len();
    }
}

/// A sum of zeros is zero.
pub proof fn lemma_sum_zeros(s: Seq<int>)
    requires
        forall|j: int| 0 <= j < s.len() ==> s[j] == 0,
    ensures
        sum(s) == 0,
    decreases s.len(),
{
    if s.len() > 0 {
        lemma_sum_zeros(s.drop_last());
    }
}

/// Each term of a sum of terms that are not negative is at most the sum.
pub proof fn lemma_term_le_sum(s: Seq<int>, i: int)
    requires
        0 <= i < s.len(),
        forall|j: int| 0 <= j < s.len() ==> s[j] >= 0,
    ensures
        s[i] <= sum(s),
{
    lemma_sum_prefix_le(s, i + 1);
    lemma_sum_prefix_le(s, i);
    assert(s.subrange(0, i + 1).drop_last() =~= s.subrange(0, i));
    assert(s.subrange(0, i + 1).last() == s[i]);
}

/// Adds one more term to a running total of a sum whose terms are not
/// negative, or returns `None` once the total cannot fit in a `u64`.
pub(crate) fn add_term(acc: u64, term: u64, s: Ghost<Seq<int>>, i: Ghost<int>) -> (r: Option<u64>)
    requires
        0 <= i@ < s@.len(),
        forall|j: int| 0 <= j < s@.len() ==> s@[j] >= 0,
        acc == sum(s@.subrange(0, i@)),
        term == s@[i@],
    ensures
        r.is_some() ==> r.unwrap() == sum(s@.subrange(0, i@ + 1)),
        r.is_none() ==> sum(s@) > u64::MAX,
{
    proof {
        assert(s@.subrange(0, i@ + 1).drop_last() =~= s@.subrange(0, i@));
        lemma_sum_prefix_le(s@, i@ + 1);
    }
    acc.checked_add(term)
}

/// `v` is a whole multiple of `d`.
pub open spec fn is_multiple(v: int, d: int, k: int) -> bool {
    v == k * d
}

/// The `k` with `v == k * d`, or `None` when `v` is no multiple of `d`.
pub(crate) fn multiple_of(v: i128, d: i128) -> (r: Option<i128>)
    requires
        0 < d < 0x4000_0000_0000_0000_0000_0000_0000_0000,
        -0x4000_0000_0000_0000_0000_0000_0000_0000 < v < 0x4000_0000_0000_0000_0000_0000_0000_0000,
    ensures
        r.is_some() == exists|k: int| #[trigger] is_multiple(v as int, d as int, k),
        r.is_some() ==> is_multiple(v as int, d as int, r.unwrap() as int),
{
    let uv: u128 = if v >= 0 {
        v as u128
    } else {
        (-v) as u128
    };
    let ud = d as u128;
    if uv % ud != 0 {
        proof {
            if exists|k: int| #[trigger] is_multiple(v as int, d as int, k) {
                let k = choose|k: int| #[trigger] is_multiple(v as int, d as int, k);
                let ak: int = if k >= 0 { k } else { -k };
                assert(uv as int == ak * (d as int)) by (nonlinear_arith)
                    requires v == k * d, ak == if k >= 0 { k } else { -k }, uv == if v >= 0 { v as int } else { -v }, d > 0;
                vstd::arithmetic::div_mod::lemma_mod_multiples_basic(ak, d as int);
            }
        }
        return None;
    }
    let q = uv / ud;
    proof {
        vstd::arithmetic::div_mod::lemma_fundamental_div_mod(uv as int, ud as int);
        assert(q <= uv) by (nonlinear_arith)
            requires q == uv / ud, ud >= 1;
    }
    let k: i128 = if v >= 0 {
        q as i128
    } else {
        -(q as i128)
    };
    proof {
        assert(is_multiple(v as int, d as int, k as int)) by (nonlinear_arith)
            requires uv == ud * q, k == if v >= 0 { q as int } else { -q }, uv == if v >= 0 { v as int } else { -v }, ud == d;
    }
    Some(k)
}

} // verus!
