//! Calibration equations: which targets can be reached by putting `+`, `*`
//! (and `||`, concatenation) between the numbers, evaluated left to right.
use crate::day11::{digit_count, digits, lemma_digit_count_bound, pow10_u64};
use crate::sums::{add_term, sum};
use crate::text::{digits_value, field_spans, fields, is_number, line_spans, lines, parse_number, pow10, split_on, split_spans, spans_are};
use vstd::prelude::*;
use vstd::string::StringSliceAdditionalSpecFns;

verus! {

/// `v || x`: the digits of `x` written after those of `v`.
pub open spec fn concat(v: int, x: nat) -> int {
    v * pow10(digit_count(x)) + x
}

/// Some choice of operators between the first `n` numbers, evaluated left
/// to right, gives `t` (`||` only with `with_concat`). With `x` the last of
/// them, `t` is `v + x`, `v * x` or `v || x` for a `v` that the others make;
/// each of those `v` is found from `t` by the inverse operation.
pub open spec fn makes(nums: Seq<u64>, n: nat, t: int, with_concat: bool) -> bool
    decreases n,
{
    if n == 0 {
        false
    } else if n == 1 {
        nums[0] == t
    } else {
        let x = nums[n - 1] as int;
        let p = pow10(digit_count(x as nat));
        ||| makes(nums, (n - 1) as nat, t - x, with_concat)
        ||| (x != 0 && t % x == 0 && makes(nums, (n - 1) as nat, t / x, with_concat))
        ||| (with_concat && (t - x) % p == 0 && makes(nums, (n - 1) as nat, (t - x) / p, with_concat))
    }
}

/// With positive numbers, only positive targets can be made.
proof fn lemma_makes_positive(nums: Seq<u64>, n: nat, t: int, with_concat: bool)
    requires
        n <= nums.len(),
        forall|i: int| 0 <= i < nums.len() ==> nums[i] >= 1,
        makes(nums, n, t, with_concat),
    ensures
        t >= 1,
    decreases n,
{
    if n > 1 {
        let x = nums[n - 1] as int;
        let p = pow10(digit_count(x as nat));
        crate::text::lemma_pow10_monotone(0, digit_count(x as nat));
        if makes(nums, (n - 1) as nat, t - x, with_concat) {
            lemma_makes_positive(nums, (n - 1) as nat, t - x, with_concat);
        } else if x != 0 && t % x == 0 && makes(nums, (n - 1) as nat, t / x, with_concat) {
            lemma_makes_positive(nums, (n - 1) as nat, t / x, with_concat);
            let v = t / x;
            assert(t == v * x) by (nonlinear_arith)
                requires t % x == 0, v == t / x, x >= 1;
            assert(v * x >= 1) by (nonlinear_arith)
                requires v >= 1, x >= 1;
        } else {
            lemma_makes_positive(nums, (n - 1) as nat, (t - x) / p, with_concat);
            let v = (t - x) / p;
            assert(t - x == v * p) by (nonlinear_arith)
                requires (t - x) % p == 0, v == (t - x) / p, p >= 1;
            assert(v * p >= 1) by (nonlinear_arith)
                requires v >= 1, p >= 1;
        }
    }
}

/// The numbers are positive and below 10^18.
pub open spec fn operands_ok(nums: Seq<u64>) -> bool {
    forall|i: int| 0 <= i < nums.len() ==> 1 <= #[trigger] nums[i] < 1000000000000000000
}

/// Whether the first `n` numbers can make `t`.
pub fn can_make(nums: &Vec<u64>, n: usize, t: u64, with_concat: bool) -> (r: bool)
    requires
        n <= nums@.len(),
        operands_ok(nums@),
    ensures
        r == makes(nums@, n as nat, t as int, with_concat),
    decreases n,
{
    if n == 0 {
        return false;
    }
    if n == 1 {
        return nums[0] == t;
    }
    let x = nums[n - 1];
    let ghost xi = x as int;
    let ghost p = pow10(digit_count(x as nat));
    let by_add = if t >= x {
        can_make(nums, n - 1, t - x, with_concat)
    } else {
        proof {
            if makes(nums@, (n - 1) as nat, t - xi, with_concat) {
                lemma_makes_positive(nums@, (n - 1) as nat, t - xi, with_concat);
            }
        }
        false
    };
    if by_add {
        return true;
    }
    if t % x == 0 && can_make(nums, n - 1, t / x, with_concat) {
        return true;
    }
    if !with_concat {
        return false;
    }
    proof {
        crate::text::lemma_pow10_18();
        lemma_digit_count_bound(x as nat, 18);
        crate::text::lemma_pow10_monotone(digit_count(x as nat), 18);
        crate::text::lemma_pow10_monotone(0, digit_count(x as nat));
    }
    let pw = pow10_u64(digits(x));
    if t >= x {
        (t - x) % pw == 0 && can_make(nums, n - 1, (t - x) / pw, with_concat)
    } else {
        proof {
            if (t - xi) % p == 0 && makes(nums@, (n - 1) as nat, (t - xi) / p, with_concat) {
                lemma_makes_positive(nums@, (n - 1) as nat, (t - xi) / p, with_concat);
                let v = (t - xi) / p;
                assert(t - xi == v * p) by (nonlinear_arith)
                    requires (t - xi) % p == 0, v == (t - xi) / p, p >= 1;
                assert(v * p >= 1) by (nonlinear_arith)
                    requires v >= 1, p >= 1;
            }
        }
        false
    }
}

/// The two sides of an equation line `T: A B C`.
pub open spec fn sides(l: Seq<u8>) -> Seq<Seq<u8>> {
    split_on(l, 58u8)
}

/// A target, a colon, then one or more positive numbers separated by spaces.
pub open spec fn is_equation(l: Seq<u8>) -> bool {
    let f = fields(sides(l)[1]);
    &&& sides(l).len() == 2
    &&& is_number(sides(l)[0])
    &&& f.len() >= 1
    &&& forall|i: int| 0 <= i < f.len() ==> is_number(#[trigger] f[i]) && digits_value(f[i]) >= 1
}

pub open spec fn target(l: Seq<u8>) -> u64 {
    digits_value(sides(l)[0]) as u64
}

pub open spec fn operands(l: Seq<u8>) -> Seq<u64> {
    fields(sides(l)[1]).map_values(|f: Seq<u8>| digits_value(f) as u64)
}

pub open spec fn is_equation_list(b: Seq<u8>) -> bool {
    forall|i: int| 0 <= i < lines(b).len() ==> is_equation(#[trigger] lines(b)[i])
}

/// The sum of the targets of the equations that can be made true.
pub open spec fn calibration(b: Seq<u8>, with_concat: bool) -> int {
    let ls = lines(b);
    sum(
        Seq::new(
            ls.len(),
            |i: int|
                if makes(operands(ls[i]), operands(ls[i]).len(), target(ls[i]) as int, with_concat) {
                    target(ls[i]) as int
                } else {
                    0
                },
        ),
    )
}

/// The target and numbers of the equation `b[lo..hi]`, or `None` when it is
/// not one.
pub fn parse_equation(b: &[u8], lo: usize, hi: usize) -> (r: Option<(u64, Vec<u64>)>)
    requires
        lo <= hi <= b@.len(),
    ensures
        r.is_some() == is_equation(b@.subrange(lo as int, hi as int)),
        r.is_some() ==> r.unwrap().0 == target(b@.subrange(lo as int, hi as int)) && r.unwrap().1@
            == operands(b@.subrange(lo as int, hi as int)),
        r.is_some() ==> operands_ok(r.unwrap().1@),
{
    let ghost l = b@.subrange(lo as int, hi as int);
    let s = split_spans(b, lo, hi, 58u8);
    if s.len() != 2 {
        return None;
    }
    let t = match parse_number(b, s[0].0, s[0].1) {
        Some(t) => t,
        None => {
            return None;
        },
    };
    let f = field_spans(b, s[1].0, s[1].1);
    if f.len() == 0 {
        return None;
    }
    let ghost fs = fields(sides(l)[1]);
    let mut nums: Vec<u64> = Vec::new();
    let mut k: usize = 0;
    while k < f.len()
        invariant
            k <= f@.len(),
            l == b@.subrange(lo as int, hi as int),
            sides(l).len() == 2,
            fs == fields(sides(l)[1]),
            spans_are(b@, f@, fs),
            forall|i: int| 0 <= i < k ==> is_number(#[trigger] fs[i]) && digits_value(fs[i]) >= 1,
            nums@ == operands(l).subrange(0, k as int),
            operands_ok(nums@),
        decreases f@.len() - k,
    {
        match parse_number(b, f[k].0, f[k].1) {
            Some(v) => {
                if v == 0 {
                    return None;
                }
                nums.push(v);
                proof {
                    assert(nums@ =~= operands(l).subrange(0, k + 1));
                }
            },
            None => {
                assert(!is_number(fs[k as int]));
                return None;
            },
        }
        k += 1;
    }
    proof {
        assert(nums@ =~= operands(l));
    }
    Some((t, nums))
}

/// The sum of the targets of the equations of `b` that can be made true;
/// `None` when a line is not an equation or the sum does not fit in a `u64`.
fn total_calibration(b: &[u8], with_concat: bool) -> (r: Option<u64>)
    ensures
        r.is_some() == (is_equation_list(b@) && calibration(b@, with_concat) <= u64::MAX),
        r.is_some() ==> r.unwrap() == calibration(b@, with_concat),
{
    let spans = line_spans(b);
    let ghost ls = lines(b@);
    let ghost terms = Seq::new(
        ls.len(),
        |i: int|
            if makes(operands(ls[i]), operands(ls[i]).len(), target(ls[i]) as int, with_concat) {
                target(ls[i]) as int
            } else {
                0
            },
    );
    let mut acc: u64 = 0;
    let mut k: usize = 0;
    proof {
        assert(terms.subrange(0, 0) =~= Seq::<int>::empty());
    }
    while k < spans.len()
        invariant
            k <= spans@.len() == ls.len() == terms.len(),
            ls == lines(b@),
            spans_are(b@, spans@, ls),
            calibration(b@, with_concat) == sum(terms),
            forall|j: int| 0 <= j < terms.len() ==> terms[j] >= 0,
            forall|j: int| 0 <= j < terms.len() ==> #[trigger] terms[j] == if makes(operands(ls[j]), operands(ls[j]).len(), target(ls[j]) as int, with_concat) {
                target(ls[j]) as int
            } else {
                0
            },
            forall|j: int| 0 <= j < k ==> is_equation(#[trigger] ls[j]),
            acc == sum(terms.subrange(0, k as int)),
        decreases spans@.len() - k,
    {
        let (t, nums) = match parse_equation(b, spans[k].0, spans[k].1) {
            Some(e) => e,
            None => {
                return None;
            },
        };
        let term = if can_make(&nums, nums.len(), t, with_concat) {
            t
        } else {
            0
        };
        match add_term(acc, term, Ghost(terms), Ghost(k as int)) {
            Some(v) => {
                acc = v;
            },
            None => {
                return None;
            },
        }
        k += 1;
    }
    proof {
        assert(terms.subrange(0, k as int) =~= terms);
    }
    Some(acc)
}

/// The sum of the targets of the equations of `input` that `+` and `*` can
/// make true; `None` when a line is not an equation or the sum does not fit.
pub fn first_part(input: &str) -> (r: Option<u64>)
    ensures
        r.is_some() == (is_equation_list(input.spec_bytes()) && calibration(input.spec_bytes(), false)
            <= u64::MAX),
        r.is_some() ==> r.unwrap() == calibration(input.spec_bytes(), false),
{
    total_calibration(input.as_bytes(), false)
}

/// As `first_part`, with concatenation allowed too.
pub fn second_part(input: &str) -> (r: Option<u64>)
    ensures
        r.is_some() == (is_equation_list(input.spec_bytes()) && calibration(input.spec_bytes(), true)
            <= u64::MAX),
        r.is_some() ==> r.unwrap() == calibration(input.spec_bytes(), true),
{
    total_calibration(input.as_bytes(), true)
}

} // verus!


