//! Robots moving in straight lines on a grid that wraps around, and the
//! safety factor of the four quadrants they end up in.
use crate::text::{digits_value, field_spans, fields, is_number, line_spans, lines, parse_number, split_on, split_spans, spans_are};
use vstd::prelude::*;
use vstd::string::StringSliceAdditionalSpecFns;

verus! {

/// A decimal number with an optional leading minus sign.
pub open spec fn is_signed(s: Seq<u8>) -> bool {
    is_number(s) || (s.len() >= 1 && s[0] == 45u8 && is_number(s.drop_first()))
}

pub open spec fn signed_value(s: Seq<u8>) -> int {
    if s.len() >= 1 && s[0] == 45u8 {
        -digits_value(s.drop_first())
    } else {
        digits_value(s)
    }
}

/// The two numbers of a field such as `p=3,-4` (its first two bytes are a
/// label).
pub open spec fn pair_parts(f: Seq<u8>) -> Seq<Seq<u8>> {
    split_on(f.subrange(2, f.len() as int), 44u8)
}

pub open spec fn is_pair_field(f: Seq<u8>) -> bool {
    f.len() >= 2 && pair_parts(f).len() == 2 && is_signed(pair_parts(f)[0]) && is_signed(pair_parts(f)[1])
}

/// A robot line: `p=X,Y v=DX,DY`.
pub open spec fn is_robot(l: Seq<u8>) -> bool {
    fields(l).len() == 2 && is_pair_field(fields(l)[0]) && is_pair_field(fields(l)[1])
}

/// Position and velocity: (x, y, dx, dy).
pub open spec fn robot_of(l: Seq<u8>) -> (int, int, int, int) {
    let p = pair_parts(fields(l)[0]);
    let v = pair_parts(fields(l)[1]);
    (signed_value(p[0]), signed_value(p[1]), signed_value(v[0]), signed_value(v[1]))
}

pub open spec fn is_robot_list(b: Seq<u8>) -> bool {
    forall|i: int| 0 <= i < lines(b).len() ==> is_robot(#[trigger] lines(b)[i])
}

pub open spec fn robots(b: Seq<u8>) -> Seq<(int, int, int, int)> {
    lines(b).map_values(|l: Seq<u8>| robot_of(l))
}

/// The quadrant (0 to 3) of `(x, y)` on a grid of the given size, or `None`
/// on the middle row or column.
pub open spec fn quadrant(x: int, y: int, w: int, h: int) -> Option<int> {
    if x == w / 2 || y == h / 2 {
        None
    } else {
        Some((if x < w / 2 { 0int } else { 2int }) + (if y < h / 2 { 0int } else { 1int }))
    }
}

/// The quadrant where robot `r` is after `t` seconds.
pub open spec fn quadrant_after(r: (int, int, int, int), w: int, h: int, t: int) -> Option<int> {
    quadrant((r.0 + r.2 * t) % w, (r.1 + r.3 * t) % h, w, h)
}

/// The number of robots in quadrant `q` after `t` seconds.
pub open spec fn in_quadrant(rs: Seq<(int, int, int, int)>, w: int, h: int, t: int, q: int) -> int {
    rs.filter(|r: (int, int, int, int)| quadrant_after(r, w, h, t) == Some(q)).len() as int
}

/// The product of the numbers of robots in the four quadrants.
pub open spec fn safety(rs: Seq<(int, int, int, int)>, w: int, h: int, t: int) -> int {
    in_quadrant(rs, w, h, t, 0) * in_quadrant(rs, w, h, t, 1) * in_quadrant(rs, w, h, t, 2)
        * in_quadrant(rs, w, h, t, 3)
}

/// `x` modulo `m`, between 0 and `m - 1`.
fn wrap(x: i128, m: i128) -> (r: i128)
    requires
        m > 0,
        x > i128::MIN,
    ensures
        r == x % m,
        0 <= r < m,
{
    if x >= 0 {
        x % m
    } else {
        let rem = (-x) % m;
        let q = (-x) / m;
        proof {
            vstd::arithmetic::div_mod::lemma_fundamental_div_mod(-x as int, m as int);
            assert(-x == m * q + rem);
            assert(x == (-q) * m - rem) by (nonlinear_arith)
                requires -x == m * q + rem;
            assert(x == (-q - 1) * m + (m - rem)) by (nonlinear_arith)
                requires x == (-q) * m - rem;
        }
        if rem == 0 {
            proof {
                vstd::arithmetic::div_mod::lemma_fundamental_div_mod_converse(x as int, m as int, -q as int, 0);
            }
            0
        } else {
            proof {
                vstd::arithmetic::div_mod::lemma_fundamental_div_mod_converse(
                    x as int,
                    m as int,
                    -q - 1,
                    m - rem,
                );
            }
            m - rem
        }
    }
}

fn parse_signed(b: &[u8], lo: usize, hi: usize) -> (r: Option<i64>)
    requires
        lo <= hi <= b@.len(),
    ensures
        r.is_some() == is_signed(b@.subrange(lo as int, hi as int)),
        r.is_some() ==> r.unwrap() == signed_value(b@.subrange(lo as int, hi as int)),
{
    let ghost s = b@.subrange(lo as int, hi as int);
    if lo < hi && b[lo] == 45 {
        proof {
            assert(s.drop_first() =~= b@.subrange(lo + 1, hi as int));
            assert(s[0] == 45u8);
            assert(!crate::text::is_digit(s[0]));
            assert(!is_number(s));
        }
        match parse_number(b, lo + 1, hi) {
            Some(v) => Some(-(v as i64)),
            None => None,
        }
    } else {
        match parse_number(b, lo, hi) {
            Some(v) => Some(v as i64),
            None => None,
        }
    }
}

fn parse_pair_field(b: &[u8], lo: usize, hi: usize) -> (r: Option<(i64, i64)>)
    requires
        lo <= hi <= b@.len(),
    ensures
        r.is_some() == is_pair_field(b@.subrange(lo as int, hi as int)),
        r.is_some() ==> r.unwrap().0 == signed_value(pair_parts(b@.subrange(lo as int, hi as int))[0])
            && r.unwrap().1 == signed_value(pair_parts(b@.subrange(lo as int, hi as int))[1]),
{
    if hi - lo < 2 {
        return None;
    }
    proof {
        let f = b@.subrange(lo as int, hi as int);
        assert(f.subrange(2, f.len() as int) =~= b@.subrange(lo + 2, hi as int));
    }
    let p = split_spans(b, lo + 2, hi, 44u8);
    if p.len() != 2 {
        return None;
    }
    let x = parse_signed(b, p[0].0, p[0].1);
    let y = parse_signed(b, p[1].0, p[1].1);
    match (x, y) {
        (Some(x), Some(y)) => Some((x, y)),
        _ => None,
    }
}

/// The robots of `input` as (x, y, dx, dy), or `None` when a line is not a
/// robot.
pub fn parse_input(input: &[u8]) -> (r: Option<Vec<(i64, i64, i64, i64)>>)
    ensures
        r.is_some() == is_robot_list(input@),
        r.is_some() ==> r.unwrap()@.len() == robots(input@).len() && forall|i: int|
            0 <= i < r.unwrap()@.len() ==> (#[trigger] r.unwrap()@[i]).0 == robots(input@)[i].0 && r.unwrap()@[i].1
                == robots(input@)[i].1 && r.unwrap()@[i].2 == robots(input@)[i].2 && r.unwrap()@[i].3
                == robots(input@)[i].3,
{
    let spans = line_spans(input);
    let ghost ls = lines(input@);
    let mut out: Vec<(i64, i64, i64, i64)> = Vec::new();
    let mut k: usize = 0;
    while k < spans.len()
        invariant
            k <= spans@.len(),
            ls == lines(input@),
            spans_are(input@, spans@, ls),
            forall|i: int| 0 <= i < k ==> is_robot(#[trigger] ls[i]),
            out@.len() == k,
            forall|i: int|
                0 <= i < k ==> (#[trigger] out@[i]).0 == robot_of(ls[i]).0 && out@[i].1 == robot_of(ls[i]).1
                    && out@[i].2 == robot_of(ls[i]).2 && out@[i].3 == robot_of(ls[i]).3,
        decreases spans@.len() - k,
    {
        let (lo, hi) = spans[k];
        proof {
            assert(ls[k as int] == input@.subrange(lo as int, hi as int));
        }
        let f = field_spans(input, lo, hi);
        if f.len() != 2 {
            return None;
        }
        let p = parse_pair_field(input, f[0].0, f[0].1);
        let v = parse_pair_field(input, f[1].0, f[1].1);
        match (p, v) {
            (Some(p), Some(v)) => {
                out.push((p.0, p.1, v.0, v.1));
            },
            _ => {
                return None;
            },
        }
        k += 1;
    }
    Some(out)
}

pub open spec fn robot_ints(rs: Seq<(i64, i64, i64, i64)>) -> Seq<(int, int, int, int)> {
    rs.map_values(|r: (i64, i64, i64, i64)| (r.0 as int, r.1 as int, r.2 as int, r.3 as int))
}

fn quadrant_of(r: (i64, i64, i64, i64), w: i64, h: i64, t: i64) -> (q: Option<u8>)
    requires
        0 < w,
        0 < h,
        0 <= t <= 0xffff_ffff,
    ensures
        q.is_some() == quadrant_after((r.0 as int, r.1 as int, r.2 as int, r.3 as int), w as int, h as int, t as int).is_some(),
        q.is_some() ==> q.unwrap() as int == quadrant_after((r.0 as int, r.1 as int, r.2 as int, r.3 as int), w as int, h as int, t as int).unwrap(),
{
    proof {
        assert(-0x8000_0000_0000_0000 * 0xffff_ffff <= r.2 * t <= 0x8000_0000_0000_0000 * 0xffff_ffff) by (nonlinear_arith)
            requires -0x8000_0000_0000_0000 <= r.2 <= 0x8000_0000_0000_0000, 0 <= t <= 0xffff_ffff;
        assert(-0x8000_0000_0000_0000 * 0xffff_ffff <= r.3 * t <= 0x8000_0000_0000_0000 * 0xffff_ffff) by (nonlinear_arith)
            requires -0x8000_0000_0000_0000 <= r.3 <= 0x8000_0000_0000_0000, 0 <= t <= 0xffff_ffff;
    }
    let x = wrap(r.0 as i128 + r.2 as i128 * t as i128, w as i128);
    let y = wrap(r.1 as i128 + r.3 as i128 * t as i128, h as i128);
    let mw = (w / 2) as i128;
    let mh = (h / 2) as i128;
    if x == mw || y == mh {
        return None;
    }
    let a: u8 = if x < mw {
        0
    } else {
        2
    };
    let b: u8 = if y < mh {
        0
    } else {
        1
    };
    Some(a + b)
}

/// The product of the numbers of robots in the four quadrants of a grid of
/// `w` by `h` after `t` seconds; `None` when it does not fit in a `u64`.
pub fn safety_factor(rs: &Vec<(i64, i64, i64, i64)>, w: i64, h: i64, t: i64) -> (r: Option<u64>)
    requires
        0 < w,
        0 < h,
        0 <= t <= 0xffff_ffff,
    ensures
        r.is_some() == (safety(robot_ints(rs@), w as int, h as int, t as int) <= u64::MAX),
        r.is_some() ==> r.unwrap() == safety(robot_ints(rs@), w as int, h as int, t as int),
{
    let ghost rv = robot_ints(rs@);
    let mut c0: u64 = 0;
    let mut c1: u64 = 0;
    let mut c2: u64 = 0;
    let mut c3: u64 = 0;
    let mut i: usize = 0;
    proof {
        assert(rv.subrange(0, 0) =~= Seq::<(int, int, int, int)>::empty());
    }
    while i < rs.len()
        invariant
            i <= rs@.len() == rv.len(),
            rv == robot_ints(rs@),
            0 < w,
            0 < h,
            0 <= t <= 0xffff_ffff,
            c0 == in_quadrant(rv.subrange(0, i as int), w as int, h as int, t as int, 0),
            c1 == in_quadrant(rv.subrange(0, i as int), w as int, h as int, t as int, 1),
            c2 == in_quadrant(rv.subrange(0, i as int), w as int, h as int, t as int, 2),
            c3 == in_quadrant(rv.subrange(0, i as int), w as int, h as int, t as int, 3),
            c0 <= i,
            c1 <= i,
            c2 <= i,
            c3 <= i,
        decreases rs@.len() - i,
    {
        let q = quadrant_of(rs[i], w, h, t);
        proof {
            let pre = rv.subrange(0, i as int);
            let e = rv[i as int];
            assert(rv.subrange(0, i + 1) =~= pre.push(e));
            assert(e == (rs@[i as int].0 as int, rs@[i as int].1 as int, rs@[i as int].2 as int, rs@[i as int].3 as int));
            pre.lemma_filter_push(e, |r: (int, int, int, int)| quadrant_after(r, w as int, h as int, t as int) == Some(0int));
            pre.lemma_filter_push(e, |r: (int, int, int, int)| quadrant_after(r, w as int, h as int, t as int) == Some(1int));
            pre.lemma_filter_push(e, |r: (int, int, int, int)| quadrant_after(r, w as int, h as int, t as int) == Some(2int));
            pre.lemma_filter_push(e, |r: (int, int, int, int)| quadrant_after(r, w as int, h as int, t as int) == Some(3int));
        }
        match q {
            Some(0) => {
                c0 += 1;
            },
            Some(1) => {
                c1 += 1;
            },
            Some(2) => {
                c2 += 1;
            },
            Some(_) => {
                c3 += 1;
            },
            None => {},
        }
        i += 1;
    }
    proof {
        assert(rv.subrange(0, i as int) =~= rv);
    }
    if c0 == 0 || c1 == 0 || c2 == 0 || c3 == 0 {
        proof {
            assert(c0 * c1 * c2 * c3 == 0) by (nonlinear_arith)
                requires c0 == 0 || c1 == 0 || c2 == 0 || c3 == 0;
        }
        return Some(0);
    }
    let p01 = match c0.checked_mul(c1) {
        Some(p) => p,
        None => {
            proof {
                lemma_product_grows(c0 * c1, c2 as int, c3 as int);
            }
            return None;
        },
    };
    let p012 = match p01.checked_mul(c2) {
        Some(p) => p,
        None => {
            proof {
                lemma_product_grows(p01 * c2, 1, c3 as int);
            }
            return None;
        },
    };
    p012.checked_mul(c3)
}

/// A product that exceeds `u64::MAX` still does when multiplied by
/// positive counts.
proof fn lemma_product_grows(a: int, b: int, c: int)
    requires
        a > u64::MAX,
        b >= 1,
        c >= 1,
    ensures
        a * b * c > u64::MAX,
{
    assert(a * b * c >= a) by (nonlinear_arith)
        requires a > 0, b >= 1, c >= 1;
}

/// `t` is the first second in `lo..hi` with the smallest safety factor.
pub open spec fn first_minimum(rs: Seq<(int, int, int, int)>, w: int, h: int, lo: int, hi: int, t: int) -> bool {
    &&& lo <= t < hi
    &&& forall|u: int| lo <= u < hi ==> safety(rs, w, h, t) <= #[trigger] safety(rs, w, h, u)
    &&& forall|u: int| lo <= u < t ==> safety(rs, w, h, t) < #[trigger] safety(rs, w, h, u)
}

/// Every safety factor for the seconds `lo..hi` fits in a `u64`.
pub open spec fn factors_fit(rs: Seq<(int, int, int, int)>, w: int, h: int, lo: int, hi: int) -> bool {
    forall|u: int| lo <= u < hi ==> #[trigger] safety(rs, w, h, u) <= u64::MAX
}

/// The first second in `lo..hi` with the smallest safety factor; `None` when
/// a factor does not fit in a `u64`.
pub fn min_safety_step(rs: &Vec<(i64, i64, i64, i64)>, w: i64, h: i64, lo: i64, hi: i64) -> (r: Option<i64>)
    requires
        0 < w,
        0 < h,
        0 <= lo < hi <= 0xffff_ffff,
    ensures
        r.is_some() == factors_fit(robot_ints(rs@), w as int, h as int, lo as int, hi as int),
        r.is_some() ==> first_minimum(robot_ints(rs@), w as int, h as int, lo as int, hi as int, r.unwrap() as int),
{
    let ghost rv = robot_ints(rs@);
    let mut best_t = lo;
    let mut best_v = match safety_factor(rs, w, h, lo) {
        Some(v) => v,
        None => {
            return None;
        },
    };
    let mut t = lo + 1;
    while t < hi
        invariant
            0 < w,
            0 < h,
            0 <= lo < t <= hi <= 0xffff_ffff,
            rv == robot_ints(rs@),
            lo <= best_t < t,
            best_v == safety(rv, w as int, h as int, best_t as int),
            forall|u: int| lo <= u < t ==> #[trigger] safety(rv, w as int, h as int, u) <= u64::MAX,
            forall|u: int| lo <= u < t ==> best_v <= #[trigger] safety(rv, w as int, h as int, u),
            forall|u: int| lo <= u < best_t ==> best_v < #[trigger] safety(rv, w as int, h as int, u),
        decreases hi - t,
    {
        let v = match safety_factor(rs, w, h, t) {
            Some(v) => v,
            None => {
                return None;
            },
        };
        if v < best_v {
            best_v = v;
            best_t = t;
        }
        t += 1;
    }
    Some(best_t)
}

/// The safety factor after 100 seconds on a grid of 101 by 103; `None` when
/// a line of `input` is not a robot or the factor does not fit in a `u64`.
pub fn first_part(input: &str) -> (r: Option<u64>)
    ensures
        r.is_some() == (is_robot_list(input.spec_bytes()) && safety(robots(input.spec_bytes()), 101, 103, 100)
            <= u64::MAX),
        r.is_some() ==> r.unwrap() == safety(robots(input.spec_bytes()), 101, 103, 100),
{
    let rs = match parse_input(input.as_bytes()) {
        Some(rs) => rs,
        None => {
            return None;
        },
    };
    proof {
        assert(robot_ints(rs@) =~= robots(input.spec_bytes()));
    }
    safety_factor(&rs, 101, 103, 100)
}

/// The first second from 1000 to 9999 with the smallest safety factor on a
/// grid of 101 by 103, where the robots draw a picture; `None` when a line
/// of `input` is not a robot or a factor does not fit in a `u64`.
pub fn second_part(input: &str) -> (r: Option<i64>)
    ensures
        r.is_some() == (is_robot_list(input.spec_bytes()) && factors_fit(robots(input.spec_bytes()), 101, 103, 1000, 10000)),
        r.is_some() ==> first_minimum(robots(input.spec_bytes()), 101, 103, 1000, 10000, r.unwrap() as int),
{
    let rs = match parse_input(input.as_bytes()) {
        Some(rs) => rs,
        None => {
            return None;
        },
    };
    proof {
        assert(robot_ints(rs@) =~= robots(input.spec_bytes()));
    }
    min_safety_step(&rs, 101, 103, 1000, 10000)
}

} // verus!



