//! A network of computers named by two letters: the groups of three that
//! are all linked to each other and include a computer whose name starts
//! with `t`.
use crate::sums::{lemma_sum_bounded, lemma_sum_zeros, sum};
use crate::text::{line_spans, lines, spans_are};
use vstd::prelude::*;
use vstd::string::StringSliceAdditionalSpecFns;

verus! {

/// The number of two-letter names.
pub const NODES: usize = 676;

pub open spec fn is_lower(c: u8) -> bool {
    97 <= c <= 122
}

/// The number of the name `c0 c1`.
pub open spec fn node_of(c0: u8, c1: u8) -> int {
    (c0 - 97) * 26 + (c1 - 97)
}

/// A link line: two names joined by `-`.
pub open spec fn is_link_line(l: Seq<u8>) -> bool {
    l.len() == 5 && is_lower(l[0]) && is_lower(l[1]) && l[2] == 45u8 && is_lower(l[3]) && is_lower(l[4])
}

pub open spec fn link_of(l: Seq<u8>) -> (int, int) {
    (node_of(l[0], l[1]), node_of(l[3], l[4]))
}

pub open spec fn is_network(b: Seq<u8>) -> bool {
    forall|i: int| 0 <= i < lines(b).len() ==> is_link_line(#[trigger] lines(b)[i])
}

pub open spec fn links(b: Seq<u8>) -> Seq<(int, int)> {
    lines(b).map_values(|l: Seq<u8>| link_of(l))
}

/// Some link joins `a` and `c`, in either order.
pub open spec fn linked(ls: Seq<(int, int)>, a: int, c: int) -> bool {
    exists|k: int| 0 <= k < ls.len() && (#[trigger] ls[k] == (a, c) || ls[k] == (c, a))
}

/// The name starts with `t`.
pub open spec fn starts_with_t(n: int) -> bool {
    494 <= n < 520
}

/// `a < b < c` are linked to each other and one of them starts with `t`.
pub open spec fn is_triangle(ls: Seq<(int, int)>, a: int, b: int, c: int) -> bool {
    &&& a < b < c
    &&& linked(ls, a, b) && linked(ls, a, c) && linked(ls, b, c)
    &&& starts_with_t(a) || starts_with_t(b) || starts_with_t(c)
}

pub open spec fn tri_c(ls: Seq<(int, int)>, a: int, b: int) -> int {
    sum(Seq::new(676, |c: int| if is_triangle(ls, a, b, c) { 1int } else { 0int }))
}

pub open spec fn tri_b(ls: Seq<(int, int)>, a: int) -> int {
    sum(Seq::new(676, |b: int| tri_c(ls, a, b)))
}

/// The number of such groups of three.
pub open spec fn triangle_count(ls: Seq<(int, int)>) -> int {
    sum(Seq::new(676, |a: int| tri_b(ls, a)))
}

/// The links of `input`, or `None` when a line is not two names joined by `-`.
pub fn parse_input(input: &[u8]) -> (r: Option<Vec<(usize, usize)>>)
    ensures
        r.is_some() == is_network(input@),
        r.is_some() ==> r.unwrap()@.len() == links(input@).len() && forall|i: int|
            0 <= i < links(input@).len() ==> (#[trigger] r.unwrap()@[i]).0 == links(input@)[i].0
                && r.unwrap()@[i].1 == links(input@)[i].1 && r.unwrap()@[i].0 < 676
                && r.unwrap()@[i].1 < 676,
{
    let spans = line_spans(input);
    let ghost ls = lines(input@);
    let mut out: Vec<(usize, usize)> = Vec::new();
    let mut k: usize = 0;
    while k < spans.len()
        invariant
            k <= spans@.len(),
            ls == lines(input@),
            spans_are(input@, spans@, ls),
            forall|i: int| 0 <= i < k ==> is_link_line(#[trigger] ls[i]),
            out@.len() == k,
            forall|i: int|
                0 <= i < k ==> (#[trigger] out@[i]).0 == link_of(ls[i]).0 && out@[i].1 == link_of(ls[i]).1
                    && out@[i].0 < 676 && out@[i].1 < 676,
        decreases spans@.len() - k,
    {
        let (lo, hi) = spans[k];
        proof {
            assert(ls[k as int] == input@.subrange(lo as int, hi as int));
        }
        if hi - lo != 5 {
            return None;
        }
        let (c0, c1, dash, c3, c4) = (input[lo], input[lo + 1], input[lo + 2], input[lo + 3], input[lo + 4]);
        if !(c0 >= 97 && c0 <= 122 && c1 >= 97 && c1 <= 122 && dash == 45 && c3 >= 97 && c3 <= 122
            && c4 >= 97 && c4 <= 122) {
            return None;
        }
        let a = (c0 - 97) as usize * 26 + (c1 - 97) as usize;
        let b = (c3 - 97) as usize * 26 + (c4 - 97) as usize;
        out.push((a, b));
        k += 1;
    }
    proof {
        assert(ls.len() == links(input@).len());
    }
    Some(out)
}

proof fn lemma_index_unique(a: int, b: int, x: int, y: int)
    requires
        0 <= a < 676,
        0 <= b < 676,
        0 <= x < 676,
        0 <= y < 676,
        a * 676 + b == x * 676 + y,
    ensures
        a == x && b == y,
{
    assert(a == x) by (nonlinear_arith)
        requires 0 <= b < 676, 0 <= y < 676, a * 676 + b == x * 676 + y;
}

/// The adjacency matrix of the links: entry `a * 676 + c` tells whether `a`
/// and `c` are linked.
pub fn get_graphs(ls: &Vec<(usize, usize)>) -> (r: Vec<bool>)
    requires
        forall|i: int| 0 <= i < ls@.len() ==> (#[trigger] ls@[i]).0 < 676 && ls@[i].1 < 676,
    ensures
        r@.len() == 676 * 676,
        forall|a: int, c: int|
            0 <= a < 676 && 0 <= c < 676 ==> #[trigger] r@[a * 676 + c] == linked(
                ls@.map_values(|p: (usize, usize)| (p.0 as int, p.1 as int)),
                a,
                c,
            ),
{
    let ghost lv = ls@.map_values(|p: (usize, usize)| (p.0 as int, p.1 as int));
    let mut adj: Vec<bool> = Vec::new();
    let mut i: usize = 0;
    while i < 676 * 676
        invariant
            i <= 676 * 676,
            adj@.len() == i,
            forall|j: int| 0 <= j < i ==> !#[trigger] adj@[j],
        decreases 676 * 676 - i,
    {
        adj.push(false);
        i += 1;
    }
    let mut k: usize = 0;
    while k < ls.len()
        invariant
            k <= ls@.len(),
            lv == ls@.map_values(|p: (usize, usize)| (p.0 as int, p.1 as int)),
            forall|i: int| 0 <= i < ls@.len() ==> (#[trigger] ls@[i]).0 < 676 && ls@[i].1 < 676,
            adj@.len() == 676 * 676,
            forall|a: int, c: int|
                0 <= a < 676 && 0 <= c < 676 ==> #[trigger] adj@[a * 676 + c] == linked(
                    lv.subrange(0, k as int),
                    a,
                    c,
                ),
        decreases ls@.len() - k,
    {
        let (x, y) = ls[k];
        let ghost before = adj@;
        adj.set(x * 676 + y, true);
        adj.set(y * 676 + x, true);
        proof {
            let prev = lv.subrange(0, k as int);
            let next = lv.subrange(0, k + 1);
            assert(next =~= prev.push((x as int, y as int)));
            assert forall|a: int, c: int| 0 <= a < 676 && 0 <= c < 676 implies #[trigger] adj@[a * 676 + c]
                == linked(next, a, c) by {
                if (a == x && c == y) || (a == y && c == x) {
                    assert(next[k as int] == (x as int, y as int));
                } else {
                    if a * 676 + c == x * 676 + y {
                        lemma_index_unique(a, c, x as int, y as int);
                    }
                    if a * 676 + c == y * 676 + x {
                        lemma_index_unique(a, c, y as int, x as int);
                    }
                    assert(adj@[a * 676 + c] == before[a * 676 + c]);
                    if linked(next, a, c) {
                        let j = choose|j: int| 0 <= j < next.len() && (#[trigger] next[j] == (a, c) || next[j] == (c, a));
                        assert(j < k);
                        assert(prev[j] == next[j]);
                    }
                    if linked(prev, a, c) {
                        let j = choose|j: int| 0 <= j < prev.len() && (#[trigger] prev[j] == (a, c) || prev[j] == (c, a));
                        assert(next[j] == prev[j]);
                    }
                }
            }
        }
        k += 1;
    }
    proof {
        assert(lv.subrange(0, k as int) =~= lv);
    }
    adj
}

pub open spec fn as_links(ls: Seq<(usize, usize)>) -> Seq<(int, int)> {
    ls.map_values(|p: (usize, usize)| (p.0 as int, p.1 as int))
}

proof fn lemma_tri_c_bounds(ls: Seq<(int, int)>, a: int, b: int)
    ensures
        0 <= tri_c(ls, a, b) <= 676,
{
    lemma_sum_bounded(Seq::new(676, |c: int| if is_triangle(ls, a, b, c) { 1int } else { 0int }), 1);
}

proof fn lemma_tri_b_bounds(ls: Seq<(int, int)>, a: int)
    ensures
        0 <= tri_b(ls, a) <= 676 * 676,
{
    let t = Seq::new(676, |b: int| tri_c(ls, a, b));
    assert forall|j: int| 0 <= j < t.len() implies 0 <= #[trigger] t[j] <= 676 by {
        lemma_tri_c_bounds(ls, a, j);
    }
    lemma_sum_bounded(t, 676);
}

/// The number of groups of three linked computers with one whose name
/// starts with `t`, given the adjacency matrix of the links `ls`.
pub fn find_all_three_cliques(adj: &Vec<bool>, ls: &Vec<(usize, usize)>) -> (r: u64)
    requires
        adj@.len() == 676 * 676,
        forall|a: int, c: int|
            0 <= a < 676 && 0 <= c < 676 ==> #[trigger] adj@[a * 676 + c] == linked(as_links(ls@), a, c),
    ensures
        r == triangle_count(as_links(ls@)),
{
    let ghost lv = as_links(ls@);
    let ghost a_terms = Seq::new(676, |a: int| tri_b(lv, a));
    let mut total: u64 = 0;
    let mut a: usize = 0;
    while a < 676
        invariant
            a <= 676,
            lv == as_links(ls@),
            adj@.len() == 676 * 676,
            forall|x: int, c: int|
                0 <= x < 676 && 0 <= c < 676 ==> #[trigger] adj@[x * 676 + c] == linked(lv, x, c),
            a_terms == Seq::new(676, |a: int| tri_b(lv, a)),
            total == sum(a_terms.subrange(0, a as int)),
            total <= a * 456976,
        decreases 676 - a,
    {
        let ghost b_terms = Seq::new(676, |b: int| tri_c(lv, a as int, b));
        let mut row: u64 = 0;
        let mut b: usize = 0;
        while b < 676
            invariant
                a < 676,
                b <= 676,
                lv == as_links(ls@),
                adj@.len() == 676 * 676,
                forall|x: int, c: int|
                    0 <= x < 676 && 0 <= c < 676 ==> #[trigger] adj@[x * 676 + c] == linked(lv, x, c),
                b_terms == Seq::new(676, |b: int| tri_c(lv, a as int, b)),
                row == sum(b_terms.subrange(0, b as int)),
                row <= b * 676,
            decreases 676 - b,
        {
            let ghost c_terms = Seq::new(
                676,
                |c: int| if is_triangle(lv, a as int, b as int, c) { 1int } else { 0int },
            );
            let mut here: u64 = 0;
            if a < b && adj[a * 676 + b] {
                let at = a >= 494 && a < 520;
                let bt = b >= 494 && b < 520;
                let mut c: usize = 0;
                while c < 676
                    invariant
                        a < b < 676,
                        c <= 676,
                        at == starts_with_t(a as int),
                        bt == starts_with_t(b as int),
                        linked(lv, a as int, b as int),
                        lv == as_links(ls@),
                        adj@.len() == 676 * 676,
                        forall|x: int, y: int|
                            0 <= x < 676 && 0 <= y < 676 ==> #[trigger] adj@[x * 676 + y] == linked(lv, x, y),
                        c_terms == Seq::new(
                            676,
                            |c: int| if is_triangle(lv, a as int, b as int, c) { 1int } else { 0int },
                        ),
                        here == sum(c_terms.subrange(0, c as int)),
                        here <= c,
                    decreases 676 - c,
                {
                    proof {
                        assert(c_terms.subrange(0, c + 1).drop_last() =~= c_terms.subrange(0, c as int));
                    }
                    if b < c && adj[a * 676 + c] && adj[b * 676 + c] && (at || bt || (c >= 494 && c
                        < 520)) {
                        here += 1;
                    }
                    c += 1;
                }
                proof {
                    assert(c_terms.subrange(0, 676) =~= c_terms);
                }
            } else {
                proof {
                    lemma_sum_zeros(c_terms);
                }
            }
            proof {
                assert(b_terms.subrange(0, b + 1).drop_last() =~= b_terms.subrange(0, b as int));
                assert(b_terms[b as int] == sum(c_terms));
            }
            row += here;
            b += 1;
        }
        proof {
            assert(b_terms.subrange(0, 676) =~= b_terms);
            assert(a_terms.subrange(0, a + 1).drop_last() =~= a_terms.subrange(0, a as int));
            assert(a_terms[a as int] == sum(b_terms));
            assert(row <= 456976);
            assert(total + row <= (a + 1) * 456976);
        }
        total += row;
        a += 1;
    }
    proof {
        assert(a_terms.subrange(0, 676) =~= a_terms);
    }
    total
}

/// The number of groups of three linked computers of `input` with one whose
/// name starts with `t`; `None` when a line is not two names joined by `-`.
pub fn first_part(input: &str) -> (r: Option<u64>)
    ensures
        r.is_some() == is_network(input.spec_bytes()),
        r.is_some() ==> r.unwrap() == triangle_count(links(input.spec_bytes())),
{
    let ls = match parse_input(input.as_bytes()) {
        Some(ls) => ls,
        None => {
            return None;
        },
    };
    let adj = get_graphs(&ls);
    let r = find_all_three_cliques(&adj, &ls);
    proof {
        assert(as_links(ls@) =~= links(input.spec_bytes()));
    }
    Some(r)
}

} // verus!


