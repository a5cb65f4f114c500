//! Claw machines: the fewest tokens (three per press of button A, one per
//! press of button B) that reach each prize, when it can be reached.
use crate::sums::{add_term, is_multiple, multiple_of, sum};
use crate::text::{digits_value, is_number, line_spans, lines, parse_number, split_on, split_spans, spans_are};
use vstd::prelude::*;
use vstd::string::StringSliceAdditionalSpecFns;

verus! {

/// The two parts after the colon of a line such as `Button A: X+94, Y+34`.
pub open spec fn parts(l: Seq<u8>) -> Seq<Seq<u8>> {
    split_on(split_on(l, 58u8)[1], 44u8)
}

/// A part such as ` X+94`: a space, a letter, a sign, then a number.
pub open spec fn is_part(p: Seq<u8>) -> bool {
    p.len() >= 3 && is_number(p.subrange(3, p.len() as int))
}

pub open spec fn part_value(p: Seq<u8>) -> int {
    digits_value(p.subrange(3, p.len() as int))
}

pub open spec fn is_xy_line(l: Seq<u8>) -> bool {
    split_on(l, 58u8).len() == 2 && parts(l).len() == 2 && is_part(parts(l)[0]) && is_part(parts(l)[1])
}

/// Three lines per machine (button A, button B, prize), with an empty line
/// between machines.
pub open spec fn is_machine_list(b: Seq<u8>) -> bool {
    let ls = lines(b);
    &&& ls.len() % 4 == 3
    &&& forall|i: int| 0 <= i < ls.len() ==> if i % 4 == 3 {
        (#[trigger] ls[i]).len() == 0
    } else {
        is_xy_line(ls[i])
    }
}

/// Machine `m`: (ax, ay, bx, by, px, py).
pub open spec fn machine(b: Seq<u8>, m: int) -> (int, int, int, int, int, int) {
    let ls = lines(b);
    (
        part_value(parts(ls[4 * m])[0]),
        part_value(parts(ls[4 * m])[1]),
        part_value(parts(ls[4 * m + 1])[0]),
        part_value(parts(ls[4 * m + 1])[1]),
        part_value(parts(ls[4 * m + 2])[0]),
        part_value(parts(ls[4 * m + 2])[1]),
    )
}

pub open spec fn machine_count(b: Seq<u8>) -> int {
    (lines(b).len() as int + 1) / 4
}

/// The tokens to win machine `m` with the prize moved by `offset` on both
/// axes: when the presses `a` and `b` with `a * A + b * B == prize` are
/// unique (the button moves are independent), whole and not negative,
/// `3 * a + b`; else none. By Cramer's rule they are `an / det` and
/// `bn / det`, taken here with `det` made positive.
pub open spec fn tokens(m: (int, int, int, int, int, int), offset: int) -> int {
    let (ax, ay, bx, by, px0, py0) = m;
    let px = px0 + offset;
    let py = py0 + offset;
    let det = ax * by - ay * bx;
    let an = px * by - py * bx;
    let bn = ax * py - ay * px;
    let d = if det < 0 { -det } else { det };
    let a = if det < 0 { -an } else { an };
    let b = if det < 0 { -bn } else { bn };
    if d != 0 && a % d == 0 && b % d == 0 && a >= 0 && b >= 0 {
        3 * (a / d) + b / d
    } else {
        0
    }
}

pub open spec fn total_tokens(b: Seq<u8>, offset: int) -> int {
    sum(Seq::new(machine_count(b) as nat, |m: int| tokens(machine(b, m), offset)))
}

fn parse_xy(b: &[u8], lo: usize, hi: usize) -> (r: Option<(u64, u64)>)
    requires
        lo <= hi <= b@.len(),
    ensures
        r.is_some() == is_xy_line(b@.subrange(lo as int, hi as int)),
        r.is_some() ==> r.unwrap().0 == part_value(parts(b@.subrange(lo as int, hi as int))[0])
            && r.unwrap().1 == part_value(parts(b@.subrange(lo as int, hi as int))[1]),
        r.is_some() ==> r.unwrap().0 < 1000000000000000000 && r.unwrap().1 < 1000000000000000000,
{
    let ghost l = b@.subrange(lo as int, hi as int);
    let halves = split_spans(b, lo, hi, 58u8);
    if halves.len() != 2 {
        return None;
    }
    let ps = split_spans(b, halves[1].0, halves[1].1, 44u8);
    if ps.len() != 2 {
        return None;
    }
    let (p0, p1) = (ps[0], ps[1]);
    if p0.1 - p0.0 < 3 || p1.1 - p1.0 < 3 {
        return None;
    }
    proof {
        let q0 = b@.subrange(p0.0 as int, p0.1 as int);
        let q1 = b@.subrange(p1.0 as int, p1.1 as int);
        assert(q0.subrange(3, q0.len() as int) =~= b@.subrange(p0.0 + 3, p0.1 as int));
        assert(q1.subrange(3, q1.len() as int) =~= b@.subrange(p1.0 + 3, p1.1 as int));
    }
    let x = parse_number(b, p0.0 + 3, p0.1);
    let y = parse_number(b, p1.0 + 3, p1.1);
    match (x, y) {
        (Some(x), Some(y)) => Some((x, y)),
        _ => None,
    }
}

/// The machines of `input`, or `None` when it does not have that shape.
pub fn parse_to_matrix(input: &[u8]) -> (r: Option<Vec<(u64, u64, u64, u64, u64, u64)>>)
    ensures
        r.is_some() == is_machine_list(input@),
        r.is_some() ==> r.unwrap()@.len() == machine_count(input@) && forall|m: int|
            0 <= m < r.unwrap()@.len() ==> {
                let v = #[trigger] r.unwrap()@[m];
                (v.0 as int, v.1 as int, v.2 as int, v.3 as int, v.4 as int, v.5 as int) == machine(input@, m)
            },
        r.is_some() ==> forall|m: int|
            0 <= m < r.unwrap()@.len() ==> {
                let v = #[trigger] r.unwrap()@[m];
                v.0 < 1000000000000000000 && v.1 < 1000000000000000000 && v.2 < 1000000000000000000
                    && v.3 < 1000000000000000000 && v.4 < 1000000000000000000 && v.5 < 1000000000000000000
            },
{
    let spans = line_spans(input);
    let ghost ls = lines(input@);
    if spans.len() % 4 != 3 {
        return None;
    }
    let mut out: Vec<(u64, u64, u64, u64, u64, u64)> = Vec::new();
    let mut m: usize = 0;
    let count = spans.len() / 4 + 1;
    let ns = spans.len();
    while m < count
        invariant
            ns == spans@.len(),
            count == machine_count(input@),
            spans@.len() % 4 == 3,
            count * 4 == spans@.len() + 1,
            m <= count,
            ls == lines(input@),
            spans_are(input@, spans@, ls),
            forall|i: int| 0 <= i < 4 * m && i < ls.len() ==> if i % 4 == 3 {
                (#[trigger] ls[i]).len() == 0
            } else {
                is_xy_line(ls[i])
            },
            out@.len() == m,
            forall|j: int|
                0 <= j < m ==> {
                    let v = #[trigger] out@[j];
                    v.0 < 1000000000000000000 && v.1 < 1000000000000000000 && v.2 < 1000000000000000000
                        && v.3 < 1000000000000000000 && v.4 < 1000000000000000000 && v.5 < 1000000000000000000
                },
            forall|j: int|
                0 <= j < m ==> {
                    let v = #[trigger] out@[j];
                    (v.0 as int, v.1 as int, v.2 as int, v.3 as int, v.4 as int, v.5 as int) == machine(input@, j)
                },
        decreases count - m,
    {
        let base = 4 * m;
        let a = parse_xy(input, spans[base].0, spans[base].1);
        let bb = parse_xy(input, spans[base + 1].0, spans[base + 1].1);
        let p = parse_xy(input, spans[base + 2].0, spans[base + 2].1);
        proof {
            assert(ls[base as int] == input@.subrange(spans@[base as int].0 as int, spans@[base as int].1 as int));
            assert(ls[base + 1] == input@.subrange(spans@[base + 1].0 as int, spans@[base + 1].1 as int));
            assert(ls[base + 2] == input@.subrange(spans@[base + 2].0 as int, spans@[base + 2].1 as int));
        }
        let (a, bb, p) = match (a, bb, p) {
            (Some(a), Some(bb), Some(p)) => (a, bb, p),
            _ => {
                proof {
                    if !is_xy_line(ls[base as int]) {
                        assert(base % 4 == 0);
                    } else if !is_xy_line(ls[base + 1]) {
                        assert((base + 1) % 4 == 1);
                    } else {
                        assert((base + 2) % 4 == 2);
                    }
                }
                return None;
            },
        };
        if base + 3 < spans.len() {
            if spans[base + 3].0 != spans[base + 3].1 {
                proof {
                    assert(ls[base + 3] == input@.subrange(spans@[base + 3].0 as int, spans@[base + 3].1 as int));
                    assert((base + 3) % 4 == 3);
                }
                return None;
            }
            proof {
                assert(ls[base + 3] == input@.subrange(spans@[base + 3].0 as int, spans@[base + 3].1 as int));
            }
        }
        out.push((a.0, a.1, bb.0, bb.1, p.0, p.1));
        proof {
            assert forall|i: int| 0 <= i < 4 * (m + 1) && i < ls.len() implies if i % 4 == 3 {
                (#[trigger] ls[i]).len() == 0
            } else {
                is_xy_line(ls[i])
            } by {
                if i >= 4 * m {
                    assert(i == base || i == base + 1 || i == base + 2 || i == base + 3);
                }
            }
        }
        m += 1;
    }
    Some(out)
}

/// The tokens to win the machine `v` with the prize moved by `offset`.
pub fn machine_tokens(v: (u64, u64, u64, u64, u64, u64), offset: u64) -> (r: i128)
    requires
        v.0 < 1000000000000000000,
        v.1 < 1000000000000000000,
        v.2 < 1000000000000000000,
        v.3 < 1000000000000000000,
        v.4 < 1000000000000000000,
        v.5 < 1000000000000000000,
        offset <= 10000000000000,
    ensures
        r == tokens((v.0 as int, v.1 as int, v.2 as int, v.3 as int, v.4 as int, v.5 as int), offset as int),
        r >= 0,
{
    let (ax, ay, bx, by) = (v.0 as i128, v.1 as i128, v.2 as i128, v.3 as i128);
    let px = v.4 as i128 + offset as i128;
    let py = v.5 as i128 + offset as i128;
    let lim: i128 = 1000010000000000000;
    proof {
        assert(0 <= ax * by <= lim * lim) by (nonlinear_arith)
            requires 0 <= ax <= lim, 0 <= by <= lim;
        assert(0 <= ay * bx <= lim * lim) by (nonlinear_arith)
            requires 0 <= ay <= lim, 0 <= bx <= lim;
        assert(0 <= px * by <= lim * lim) by (nonlinear_arith)
            requires 0 <= px <= lim, 0 <= by <= lim;
        assert(0 <= py * bx <= lim * lim) by (nonlinear_arith)
            requires 0 <= py <= lim, 0 <= bx <= lim;
        assert(0 <= ax * py <= lim * lim) by (nonlinear_arith)
            requires 0 <= ax <= lim, 0 <= py <= lim;
        assert(0 <= ay * px <= lim * lim) by (nonlinear_arith)
            requires 0 <= ay <= lim, 0 <= px <= lim;
    }
    let det = ax * by - ay * bx;
    let an = px * by - py * bx;
    let bn = ax * py - ay * px;
    let (d, a, b) = if det < 0 {
        (-det, -an, -bn)
    } else {
        (det, an, bn)
    };
    if d == 0 || a < 0 || b < 0 {
        return 0;
    }
    let qa = match multiple_of(a, d) {
        Some(q) => q,
        None => {
            proof {
                if a % d == 0 {
                    vstd::arithmetic::div_mod::lemma_fundamental_div_mod(a as int, d as int);
                    let q = a as int / d as int;
                    assert(a == d * q);
                    assert(q * d == d * q) by (nonlinear_arith);
                    assert(is_multiple(a as int, d as int, q));
                }
            }
            return 0;
        },
    };
    let qb = match multiple_of(b, d) {
        Some(q) => q,
        None => {
            proof {
                if b % d == 0 {
                    vstd::arithmetic::div_mod::lemma_fundamental_div_mod(b as int, d as int);
                    let q = b as int / d as int;
                    assert(b == d * q);
                    assert(q * d == d * q) by (nonlinear_arith);
                    assert(is_multiple(b as int, d as int, q));
                }
            }
            return 0;
        },
    };
    proof {
        vstd::arithmetic::div_mod::lemma_fundamental_div_mod_converse(a as int, d as int, qa as int, 0);
        vstd::arithmetic::div_mod::lemma_fundamental_div_mod_converse(b as int, d as int, qb as int, 0);
        assert(0 <= qa <= a) by (nonlinear_arith)
            requires a == qa * d, d >= 1, a >= 0;
        assert(0 <= qb <= b) by (nonlinear_arith)
            requires b == qb * d, d >= 1, b >= 0;
    }
    3 * qa + qb
}

/// The tokens to win all the prizes that can be won, with the prizes moved
/// by `offset`; `None` when `input` is not a list of machines or the total
/// does not fit in a `u64`.
fn count_tokens(input: &[u8], offset: u64) -> (r: Option<u64>)
    requires
        offset <= 10000000000000,
    ensures
        r.is_some() == (is_machine_list(input@) && total_tokens(input@, offset as int) <= u64::MAX),
        r.is_some() ==> r.unwrap() == total_tokens(input@, offset as int),
{
    let ms = match parse_to_matrix(input) {
        Some(ms) => ms,
        None => {
            return None;
        },
    };
    let ghost terms = Seq::new(machine_count(input@) as nat, |m: int| tokens(machine(input@, m), offset as int));
    let mut acc: u64 = 0;
    let mut i: usize = 0;
    proof {
        assert(terms.subrange(0, 0) =~= Seq::<int>::empty());
    }
    while i < ms.len()
        invariant
            i <= ms@.len() == terms.len(),
            offset <= 10000000000000,
            forall|m: int|
                0 <= m < ms@.len() ==> {
                    let v = #[trigger] ms@[m];
                    (v.0 as int, v.1 as int, v.2 as int, v.3 as int, v.4 as int, v.5 as int) == machine(input@, m)
                },
            forall|m: int|
                0 <= m < ms@.len() ==> {
                    let v = #[trigger] ms@[m];
                    v.0 < 1000000000000000000 && v.1 < 1000000000000000000 && v.2 < 1000000000000000000
                        && v.3 < 1000000000000000000 && v.4 < 1000000000000000000 && v.5 < 1000000000000000000
                },
            total_tokens(input@, offset as int) == sum(terms),
            forall|j: int| 0 <= j < terms.len() ==> #[trigger] terms[j] == tokens(machine(input@, j), offset as int),
            forall|j: int| 0 <= j < terms.len() ==> terms[j] >= 0,
            acc == sum(terms.subrange(0, i as int)),
        decreases ms@.len() - i,
    {
        let t = machine_tokens(ms[i], offset);
        if t > 0xffff_ffff_ffff_ffff {
            proof {
                crate::sums::lemma_term_le_sum(terms, i as int);
            }
            return None;
        }
        match add_term(acc, t as u64, Ghost(terms), Ghost(i as int)) {
            Some(v) => {
                acc = v;
            },
            None => {
                return None;
            },
        }
        i += 1;
    }
    proof {
        assert(terms.subrange(0, i as int) =~= terms);
    }
    Some(acc)
}

/// The fewest tokens to win all the prizes of `input` that can be won.
pub fn first_part(input: &str) -> (r: Option<u64>)
    ensures
        r.is_some() == (is_machine_list(input.spec_bytes()) && total_tokens(input.spec_bytes(), 0) <= u64::MAX),
        r.is_some() ==> r.unwrap() == total_tokens(input.spec_bytes(), 0),
{
    count_tokens(input.as_bytes(), 0)
}

/// As `first_part`, with every prize 10000000000000 further on both axes.
pub fn second_part(input: &str) -> (r: Option<u64>)
    ensures
        r.is_some() == (is_machine_list(input.spec_bytes()) && total_tokens(input.spec_bytes(), 10000000000000)
            <= u64::MAX),
        r.is_some() ==> r.unwrap() == total_tokens(input.spec_bytes(), 10000000000000),
{
    count_tokens(input.as_bytes(), 10000000000000)
}

} // verus!


