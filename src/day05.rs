//! Page ordering rules and the updates that follow them.
use crate::sums::{add_term, sum};
use crate::text::{digits_value, is_number, line_spans, lines, parse_number, split_on, split_spans, spans_are};
use vstd::prelude::*;
use vstd::string::StringSliceAdditionalSpecFns;

verus! {

/// The index of the first empty line, or the number of lines when none is.
pub open spec fn blank_index(ls: Seq<Seq<u8>>) -> nat
    decreases ls.len(),
{
    if ls.len() == 0 {
        0
    } else if ls[0].len() == 0 {
        0
    } else {
        1 + blank_index(ls.drop_first())
    }
}

/// A rule line: two numbers separated by `|`.
pub open spec fn is_rule(l: Seq<u8>) -> bool {
    split_on(l, 124u8).len() == 2 && is_number(split_on(l, 124u8)[0]) && is_number(split_on(l, 124u8)[1])
}

pub open spec fn rule_of(l: Seq<u8>) -> (u64, u64) {
    (digits_value(split_on(l, 124u8)[0]) as u64, digits_value(split_on(l, 124u8)[1]) as u64)
}

/// An update line: one or more numbers separated by commas.
pub open spec fn is_update(l: Seq<u8>) -> bool {
    forall|i: int| 0 <= i < split_on(l, 44u8).len() ==> is_number(#[trigger] split_on(l, 44u8)[i])
}

pub open spec fn update_of(l: Seq<u8>) -> Seq<u64> {
    split_on(l, 44u8).map_values(|f: Seq<u8>| digits_value(f) as u64)
}

/// Rules, an empty line, then updates.
pub open spec fn is_manual(b: Seq<u8>) -> bool {
    let ls = lines(b);
    let k = blank_index(ls) as int;
    &&& forall|i: int| 0 <= i < k ==> is_rule(#[trigger] ls[i])
    &&& forall|i: int| k < i < ls.len() ==> is_update(#[trigger] ls[i])
}

pub open spec fn rules(b: Seq<u8>) -> Seq<(u64, u64)> {
    lines(b).subrange(0, blank_index(lines(b)) as int).map_values(|l: Seq<u8>| rule_of(l))
}

pub open spec fn updates(b: Seq<u8>) -> Seq<Seq<u64>> {
    let ls = lines(b);
    let k = blank_index(ls) as int;
    if k < ls.len() {
        ls.subrange(k + 1 as int, ls.len() as int).map_values(|l: Seq<u8>| update_of(l))
    } else {
        Seq::empty()
    }
}

/// The rule "`a` before `b`" is broken by `u`: a `b` comes before every
/// `a`, and some `a` comes after it.
pub open spec fn violated(u: Seq<u64>, a: u64, b: u64) -> bool {
    a != b && exists|j: int, i: int|
        0 <= j < i < u.len() && #[trigger] u[j] == b && #[trigger] u[i] == a && (forall|t: int|
            0 <= t < j ==> u[t] != a)
}

/// No rule is broken by `u`.
pub open spec fn in_order(u: Seq<u64>, rules: Seq<(u64, u64)>) -> bool {
    forall|k: int| 0 <= k < rules.len() ==> !#[trigger] violated(u, rules[k].0, rules[k].1)
}

/// The sum of the middle pages of the updates that are in order.
pub open spec fn middle_sum(rules: Seq<(u64, u64)>, updates: Seq<Seq<u64>>) -> int {
    sum(
        Seq::new(
            updates.len(),
            |i: int|
                if updates[i].len() > 0 && in_order(updates[i], rules) {
                    updates[i][(updates[i].len() / 2) as int] as int
                } else {
                    0
                },
        ),
    )
}

/// Whether `u` breaks the rule "`a` before `b`".
pub fn breaks_rule(u: &Vec<u64>, a: u64, b: u64) -> (r: bool)
    ensures
        r == violated(u@, a, b),
{
    if a == b {
        return false;
    }
    let mut fa: usize = 0;
    while fa < u.len() && u[fa] != a
        invariant
            fa <= u@.len(),
            forall|t: int| 0 <= t < fa ==> u@[t] != a,
        decreases u@.len() - fa,
    {
        fa += 1;
    }
    if fa == u.len() {
        return false;
    }
    let mut j: usize = 0;
    while j < fa
        invariant
            j <= fa < u@.len(),
            u@[fa as int] == a,
            forall|t: int| 0 <= t < fa ==> u@[t] != a,
            forall|t: int| 0 <= t < j ==> u@[t] != b,
        decreases fa - j,
    {
        if u[j] == b {
            assert(u@[j as int] == b && u@[fa as int] == a);
            return true;
        }
        j += 1;
    }
    proof {
        assert forall|jj: int, i: int|
            0 <= jj < i < u@.len() && #[trigger] u@[jj] == b && #[trigger] u@[i] == a implies !(forall|t: int|
                0 <= t < jj ==> u@[t] != a) by {
            if jj > fa {
                assert(u@[fa as int] == a);
            }
        }
    }
    false
}

/// Whether `u` follows every rule.
pub fn follows_rules(u: &Vec<u64>, rules: &Vec<(u64, u64)>) -> (r: bool)
    ensures
        r == in_order(u@, rules@),
{
    let mut k: usize = 0;
    while k < rules.len()
        invariant
            k <= rules@.len(),
            forall|i: int| 0 <= i < k ==> !#[trigger] violated(u@, rules@[i].0, rules@[i].1),
        decreases rules@.len() - k,
    {
        if breaks_rule(u, rules[k].0, rules[k].1) {
            return false;
        }
        k += 1;
    }
    true
}

/// The sum of the middle pages of the updates in order; `None` when it
/// does not fit in a `u64`.
pub fn sum_of_middles(rules: &Vec<(u64, u64)>, updates: &Vec<Vec<u64>>) -> (r: Option<u64>)
    ensures
        ({
            let us = Seq::new(updates@.len(), |i: int| updates@[i]@);
            &&& r.is_some() == (middle_sum(rules@, us) <= u64::MAX)
            &&& r.is_some() ==> r.unwrap() == middle_sum(rules@, us)
        }),
{
    let ghost us = Seq::new(updates@.len(), |i: int| updates@[i]@);
    let ghost terms = Seq::new(
        us.len(),
        |i: int|
            if us[i].len() > 0 && in_order(us[i], rules@) {
                us[i][(us[i].len() / 2) as int] as int
            } else {
                0
            },
    );
    let mut acc: u64 = 0;
    let mut i: usize = 0;
    proof {
        assert(terms.subrange(0, 0) =~= Seq::<int>::empty());
    }
    while i < updates.len()
        invariant
            i <= updates@.len() == us.len() == terms.len(),
            us == Seq::new(updates@.len(), |i: int| updates@[i]@),
            middle_sum(rules@, us) == sum(terms),
            forall|j: int| 0 <= j < terms.len() ==> terms[j] >= 0,
            forall|j: int| 0 <= j < terms.len() ==> #[trigger] terms[j] == if us[j].len() > 0 && in_order(us[j], rules@) {
                us[j][(us[j].len() / 2) as int] as int
            } else {
                0
            },
            acc == sum(terms.subrange(0, i as int)),
        decreases updates@.len() - i,
    {
        let u = &updates[i];
        let t: u64 = if u.len() > 0 && follows_rules(u, rules) {
            u[u.len() / 2]
        } else {
            0
        };
        match add_term(acc, t, Ghost(terms), Ghost(i as int)) {
            Some(v) => {
                acc = v;
            },
            None => {
                return None;
            },
        }
        i += 1;
    }
    proof {
        assert(terms.subrange(0, i as int) =~= terms);
    }
    Some(acc)
}

/// The sum of the middle pages of the updates of `input` that follow its
/// rules; `None` when `input` is not rules and updates, or the sum does not
/// fit in a `u64`.
pub fn first_part(input: &str) -> (r: Option<u64>)
    ensures
        r.is_some() == (is_manual(input.spec_bytes()) && middle_sum(
            rules(input.spec_bytes()),
            updates(input.spec_bytes()),
        ) <= u64::MAX),
        r.is_some() ==> r.unwrap() == middle_sum(rules(input.spec_bytes()), updates(input.spec_bytes())),
{
    match parse_input(input.as_bytes()) {
        Some((rs, us)) => {
            let r = sum_of_middles(&rs, &us);
            proof {
                assert(Seq::new(us@.len(), |i: int| us@[i]@) =~= updates(input.spec_bytes()));
            }
            r
        },
        None => None,
    }
}

/// Some rule says `a` comes before `b`.
pub open spec fn has_rule(rules: Seq<(u64, u64)>, a: u64, b: u64) -> bool {
    exists|k: int| 0 <= k < rules.len() && #[trigger] rules[k] == (a, b)
}

/// The number of pages of `u` that a rule puts before `p`.
pub open spec fn pages_before(u: Seq<u64>, rules: Seq<(u64, u64)>, p: u64) -> int {
    u.filter(|q: u64| has_rule(rules, q, p)).len() as int
}

/// The first index from `i` on whose page has half of the pages of `u`
/// ruled before it, or the length.
pub open spec fn middle_from(u: Seq<u64>, rules: Seq<(u64, u64)>, i: int) -> int
    decreases u.len() - i,
{
    if i >= u.len() || i < 0 {
        u.len() as int
    } else if pages_before(u, rules, u[i]) == u.len() / 2 {
        i
    } else {
        middle_from(u, rules, i + 1)
    }
}

/// The middle page of `u` once put in the order of the rules: the page with
/// half of the others ruled before it (0 when none is).
pub open spec fn fixed_middle(u: Seq<u64>, rules: Seq<(u64, u64)>) -> int {
    let i = middle_from(u, rules, 0);
    if i < u.len() {
        u[i] as int
    } else {
        0
    }
}

/// The sum of the middle pages of the updates that break a rule, once
/// reordered.
pub open spec fn fixed_sum(rules: Seq<(u64, u64)>, updates: Seq<Seq<u64>>) -> int {
    sum(Seq::new(updates.len(), |i: int| if !in_order(updates[i], rules) { fixed_middle(updates[i], rules) } else { 0 }))
}

fn rule_exists(rules: &Vec<(u64, u64)>, a: u64, b: u64) -> (r: bool)
    ensures
        r == has_rule(rules@, a, b),
{
    let mut k: usize = 0;
    while k < rules.len()
        invariant
            k <= rules@.len(),
            forall|j: int| 0 <= j < k ==> rules@[j] != (a, b),
        decreases rules@.len() - k,
    {
        if rules[k].0 == a && rules[k].1 == b {
            return true;
        }
        k += 1;
    }
    false
}

fn count_before(u: &Vec<u64>, rules: &Vec<(u64, u64)>, p: u64) -> (r: usize)
    ensures
        r == pages_before(u@, rules@, p),
{
    let mut c: usize = 0;
    let mut j: usize = 0;
    proof {
        assert(u@.subrange(0, 0) =~= Seq::<u64>::empty());
    }
    while j < u.len()
        invariant
            j <= u@.len(),
            c <= j,
            c == u@.subrange(0, j as int).filter(|q: u64| has_rule(rules@, q, p)).len(),
        decreases u@.len() - j,
    {
        proof {
            assert(u@.subrange(0, j + 1) =~= u@.subrange(0, j as int).push(u@[j as int]));
            u@.subrange(0, j as int).lemma_filter_push(u@[j as int], |q: u64| has_rule(rules@, q, p));
        }
        if rule_exists(rules, u[j], p) {
            c += 1;
        }
        j += 1;
    }
    proof {
        assert(u@.subrange(0, j as int) =~= u@);
    }
    c
}

/// The middle page of `u` once put in the order of the rules.
pub fn fixed_middle_page(u: &Vec<u64>, rules: &Vec<(u64, u64)>) -> (r: u64)
    ensures
        r == fixed_middle(u@, rules@),
{
    let mut i: usize = 0;
    while i < u.len()
        invariant
            i <= u@.len(),
            middle_from(u@, rules@, 0) == middle_from(u@, rules@, i as int),
        decreases u@.len() - i,
    {
        if count_before(u, rules, u[i]) == u.len() / 2 {
            return u[i];
        }
        i += 1;
    }
    0
}

/// The sum of the middle pages, once reordered, of the updates that break a
/// rule; `None` when it does not fit in a `u64`.
pub fn sum_of_fixed_middles(rules: &Vec<(u64, u64)>, updates: &Vec<Vec<u64>>) -> (r: Option<u64>)
    ensures
        ({
            let us = Seq::new(updates@.len(), |i: int| updates@[i]@);
            &&& r.is_some() == (fixed_sum(rules@, us) <= u64::MAX)
            &&& r.is_some() ==> r.unwrap() == fixed_sum(rules@, us)
        }),
{
    let ghost us = Seq::new(updates@.len(), |i: int| updates@[i]@);
    let ghost terms = Seq::new(
        us.len(),
        |i: int| if !in_order(us[i], rules@) { fixed_middle(us[i], rules@) } else { 0 },
    );
    let mut acc: u64 = 0;
    let mut i: usize = 0;
    proof {
        assert(terms.subrange(0, 0) =~= Seq::<int>::empty());
    }
    while i < updates.len()
        invariant
            i <= updates@.len() == us.len() == terms.len(),
            us == Seq::new(updates@.len(), |i: int| updates@[i]@),
            fixed_sum(rules@, us) == sum(terms),
            forall|j: int| 0 <= j < terms.len() ==> terms[j] >= 0,
            forall|j: int| 0 <= j < terms.len() ==> #[trigger] terms[j] == if !in_order(us[j], rules@) { fixed_middle(us[j], rules@) } else { 0 },
            acc == sum(terms.subrange(0, i as int)),
        decreases updates@.len() - i,
    {
        let u = &updates[i];
        let t: u64 = if !follows_rules(u, rules) {
            fixed_middle_page(u, rules)
        } else {
            0
        };
        match add_term(acc, t, Ghost(terms), Ghost(i as int)) {
            Some(v) => {
                acc = v;
            },
            None => {
                return None;
            },
        }
        i += 1;
    }
    proof {
        assert(terms.subrange(0, i as int) =~= terms);
    }
    Some(acc)
}

/// The sum of the middle pages of the updates of `input` that break a rule,
/// once put in the order of the rules; `None` when `input` is not rules and
/// updates, or the sum does not fit in a `u64`.
pub fn second_part(input: &str) -> (r: Option<u64>)
    ensures
        r.is_some() == (is_manual(input.spec_bytes()) && fixed_sum(
            rules(input.spec_bytes()),
            updates(input.spec_bytes()),
        ) <= u64::MAX),
        r.is_some() ==> r.unwrap() == fixed_sum(rules(input.spec_bytes()), updates(input.spec_bytes())),
{
    match parse_input(input.as_bytes()) {
        Some((rs, us)) => {
            let r = sum_of_fixed_middles(&rs, &us);
            proof {
                assert(Seq::new(us@.len(), |i: int| us@[i]@) =~= updates(input.spec_bytes()));
            }
            r
        },
        None => None,
    }
}

pub(crate) proof fn lemma_blank_index(ls: Seq<Seq<u8>>, k: int)
    requires
        0 <= k <= ls.len(),
        forall|i: int| 0 <= i < k ==> (#[trigger] ls[i]).len() > 0,
        k == ls.len() || ls[k].len() == 0,
    ensures
        blank_index(ls) == k,
    decreases k,
{
    if k > 0 {
        let t = ls.drop_first();
        assert forall|i: int| 0 <= i < k - 1 implies (#[trigger] t[i]).len() > 0 by {
            assert(t[i] == ls[i + 1]);
        }
        lemma_blank_index(t, k - 1);
    }
}

fn parse_rule(b: &[u8], lo: usize, hi: usize) -> (r: Option<(u64, u64)>)
    requires
        lo <= hi <= b@.len(),
    ensures
        r.is_some() == is_rule(b@.subrange(lo as int, hi as int)),
        r.is_some() ==> r.unwrap() == rule_of(b@.subrange(lo as int, hi as int)),
{
    let p = split_spans(b, lo, hi, 124u8);
    if p.len() != 2 {
        return None;
    }
    let x = parse_number(b, p[0].0, p[0].1);
    let y = parse_number(b, p[1].0, p[1].1);
    match (x, y) {
        (Some(x), Some(y)) => Some((x, y)),
        _ => None,
    }
}

fn parse_update(b: &[u8], lo: usize, hi: usize) -> (r: Option<Vec<u64>>)
    requires
        lo <= hi <= b@.len(),
    ensures
        r.is_some() == is_update(b@.subrange(lo as int, hi as int)),
        r.is_some() ==> r.unwrap()@ == update_of(b@.subrange(lo as int, hi as int)),
{
    let ghost l = b@.subrange(lo as int, hi as int);
    let p = split_spans(b, lo, hi, 44u8);
    let mut out: Vec<u64> = Vec::new();
    let mut k: usize = 0;
    while k < p.len()
        invariant
            k <= p@.len(),
            l == b@.subrange(lo as int, hi as int),
            spans_are(b@, p@, split_on(l, 44u8)),
            forall|i: int| 0 <= i < k ==> is_number(#[trigger] split_on(l, 44u8)[i]),
            out@ == update_of(l).subrange(0, k as int),
        decreases p@.len() - k,
    {
        match parse_number(b, p[k].0, p[k].1) {
            Some(v) => {
                out.push(v);
                proof {
                    assert(out@ =~= update_of(l).subrange(0, k + 1));
                }
            },
            None => {
                assert(!is_number(split_on(l, 44u8)[k as int]));
                return None;
            },
        }
        k += 1;
    }
    proof {
        assert(out@ =~= update_of(l));
    }
    Some(out)
}

/// The rules and the updates of `input`, or `None` when a line before the
/// first empty line is not a rule or one after it is not an update.
pub fn parse_input(input: &[u8]) -> (r: Option<(Vec<(u64, u64)>, Vec<Vec<u64>>)>)
    ensures
        r.is_some() == is_manual(input@),
        r.is_some() ==> r.unwrap().0@ == rules(input@),
        r.is_some() ==> r.unwrap().1@.len() == updates(input@).len(),
        r.is_some() ==> forall|i: int|
            0 <= i < updates(input@).len() ==> (#[trigger] r.unwrap().1@[i])@ == updates(input@)[i],
{
    let spans = line_spans(input);
    let ghost ls = lines(input@);
    let mut rs: Vec<(u64, u64)> = Vec::new();
    let mut k: usize = 0;
    while k < spans.len() && spans[k].0 < spans[k].1
        invariant
            k <= spans@.len(),
            ls == lines(input@),
            spans_are(input@, spans@, ls),
            forall|i: int| 0 <= i < k ==> (#[trigger] ls[i]).len() > 0 && is_rule(ls[i]),
            rs@ == ls.subrange(0, k as int).map_values(|l: Seq<u8>| rule_of(l)),
        decreases spans@.len() - k,
    {
        match parse_rule(input, spans[k].0, spans[k].1) {
            Some(rule) => {
                rs.push(rule);
                proof {
                    assert(rs@ =~= ls.subrange(0, k + 1).map_values(|l: Seq<u8>| rule_of(l)));
                }
            },
            None => {
                proof {
                    assert forall|i: int| 0 <= i < k implies (#[trigger] ls[i]).len() > 0 by {}
                    if k < ls.len() && ls[k as int].len() == 0 {
                    }
                    assert(ls[k as int].len() > 0);
                    assert forall|i: int| 0 <= i < k + 1 implies (#[trigger] ls[i]).len() > 0 by {}
                    lemma_blank_index_at_least(ls, k as int);
                }
                return None;
            },
        }
        k += 1;
    }
    proof {
        lemma_blank_index(ls, k as int);
    }
    let mut us: Vec<Vec<u64>> = Vec::new();
    if k < spans.len() {
        let start = k + 1;
        let mut j: usize = start;
        while j < spans.len()
            invariant
                start == k + 1,
                k < spans@.len(),
                start <= j <= spans@.len(),
                ls == lines(input@),
                spans_are(input@, spans@, ls),
                blank_index(ls) == k,
                forall|i: int| start <= i < j ==> is_update(#[trigger] ls[i]),
                us@.len() == j - start,
                forall|i: int| 0 <= i < us@.len() ==> (#[trigger] us@[i])@ == update_of(ls[start + i]),
            decreases spans@.len() - j,
        {
            match parse_update(input, spans[j].0, spans[j].1) {
                Some(u) => {
                    proof {
                        assert(ls[j as int] == input@.subrange(spans@[j as int].0 as int, spans@[j as int].1 as int));
                    }
                    us.push(u);
                },
                None => {
                    proof {
                        assert(ls[j as int] == input@.subrange(spans@[j as int].0 as int, spans@[j as int].1 as int));
                    }
                    return None;
                },
            }
            j += 1;
        }
    }
    Some((rs, us))
}

proof fn lemma_blank_index_at_least(ls: Seq<Seq<u8>>, k: int)
    requires
        0 <= k < ls.len(),
        forall|i: int| 0 <= i <= k ==> (#[trigger] ls[i]).len() > 0,
    ensures
        blank_index(ls) > k,
    decreases k,
{
    let t = ls.drop_first();
    if k > 0 {
        assert forall|i: int| 0 <= i <= k - 1 implies (#[trigger] t[i]).len() > 0 by {
            assert(t[i] == ls[i + 1]);
        }
        lemma_blank_index_at_least(t, k - 1);
    }
}

} // verus!

