//! A circuit of logic gates: wire names numbered compactly, and gates packed
//! into 32-bit words.
use crate::day05::{blank_index, lemma_blank_index};
use crate::text::{field_spans, fields, line_spans, lines, spans_are, split_on, split_spans};
use vstd::prelude::*;
use vstd::string::StringSliceAdditionalSpecFns;

verus! {

pub open spec fn is_digit(c: u8) -> bool {
    48 <= c <= 57
}

pub open spec fn is_gate_letter(c: u8) -> bool {
    97 <= c <= 119
}

/// A wire name: `x`, `y` or `z` and two digits, or three letters `a` to `w`.
pub open spec fn is_wire(n: Seq<u8>) -> bool {
    n.len() == 3 && if n[0] == 120u8 || n[0] == 121u8 || n[0] == 122u8 {
        is_digit(n[1]) && is_digit(n[2])
    } else {
        is_gate_letter(n[0]) && is_gate_letter(n[1]) && is_gate_letter(n[2])
    }
}

/// The number of a wire: names of letters count in base 23, below 12167
/// (23 * 23 * 23); `xNN` and `yNN` follow them (45 apart), and `zNN` shares
/// the numbers of `xNN` (outputs are kept apart from inputs).
pub open spec fn wire_number(n: Seq<u8>) -> int {
    if n[0] == 120u8 || n[0] == 121u8 {
        12167 + 45 * (n[0] - 120) + 10 * (n[1] - 48) + (n[2] - 48)
    } else if n[0] == 122u8 {
        12167 + 10 * (n[1] - 48) + (n[2] - 48)
    } else {
        23 * 23 * (n[0] - 97) + 23 * (n[1] - 97) + (n[2] - 97)
    }
}

/// The number of the wire `name`, or `None` when it is not a wire name.
pub fn hash_input(name: &[u8]) -> (r: Option<usize>)
    ensures
        r.is_some() == is_wire(name@),
        r.is_some() ==> r.unwrap() == wire_number(name@),
{
    if name.len() != 3 {
        return None;
    }
    let (a, b, c) = (name[0], name[1], name[2]);
    if a == 120 || a == 121 || a == 122 {
        if b < 48 || b > 57 || c < 48 || c > 57 {
            return None;
        }
        if a == 122 {
            Some(12167 + 10 * (b - 48) as usize + (c - 48) as usize)
        } else {
            Some(12167 + 45 * (a - 120) as usize + 10 * (b - 48) as usize + (c - 48) as usize)
        }
    } else {
        if a < 97 || a > 119 || b < 97 || b > 119 || c < 97 || c > 119 {
            return None;
        }
        Some(23 * 23 * (a - 97) as usize + 23 * (b - 97) as usize + (c - 97) as usize)
    }
}

/// A gate packed in a word: the operation (0 AND, 1 OR, 2 XOR) in the top
/// two bits, then the left and the right input wire in fifteen bits each.
pub open spec fn packed(op: u32, left: u32, right: u32) -> int {
    op * 0x4000_0000 + left * 0x8000 + right
}

/// Packs a gate.
pub fn hash_instruction(op: u32, left: u32, right: u32) -> (r: u32)
    requires
        op < 3,
        left < 0x8000,
        right < 0x8000,
    ensures
        r == packed(op, left, right),
{
    let r = op << 30u32 | left << 15u32 | right;
    proof {
        assert(op << 30u32 | left << 15u32 | right == op * 0x4000_0000 + left * 0x8000 + right) by (bit_vector)
            requires
                op < 3,
                left < 0x8000,
                right < 0x8000,
        ;
    }
    r
}

/// Unpacks a gate into (operation, left, right); `None` for the unused
/// operation 3.
pub fn decode_instruction(instruction: u32) -> (r: Option<(u32, u32, u32)>)
    ensures
        r.is_some() == (instruction / 0x4000_0000 != 3),
        r.is_some() ==> r.unwrap() == (instruction / 0x4000_0000, (instruction / 0x8000) % 0x8000, instruction % 0x8000),
{
    let right = instruction & 0x7fff;
    let left = (instruction >> 15u32) & 0x7fff;
    let op = (instruction >> 30u32) & 0x3;
    proof {
        assert(instruction & 0x7fff == instruction % 0x8000) by (bit_vector);
        assert((instruction >> 15u32) & 0x7fff == (instruction / 0x8000) % 0x8000) by (bit_vector);
        assert((instruction >> 30u32) & 0x3 == instruction / 0x4000_0000) by (bit_vector);
    }
    if op == 3 {
        return None;
    }
    Some((op, left, right))
}

/// Unpacking a packed gate gives back its operation and inputs.
pub proof fn lemma_decode_packed(op: u32, left: u32, right: u32)
    requires
        op < 3,
        left < 0x8000,
        right < 0x8000,
    ensures
        ({
            let w = packed(op, left, right);
            &&& w / 0x4000_0000 == op
            &&& (w / 0x8000) % 0x8000 == left
            &&& w % 0x8000 == right
        }),
{
    let w = packed(op, left, right);
    assert(w == (op * 0x8000 + left) * 0x8000 + right);
    vstd::arithmetic::div_mod::lemma_fundamental_div_mod_converse(w, 0x8000, op * 0x8000 + left, right as int);
    vstd::arithmetic::div_mod::lemma_fundamental_div_mod_converse(op * 0x8000 + left, 0x8000, op as int, left as int);
    assert(w == op * 0x4000_0000 + (left * 0x8000 + right));
    vstd::arithmetic::div_mod::lemma_fundamental_div_mod_converse(w, 0x4000_0000, op as int, left * 0x8000 + right);
}

/// A starting value line: a wire name, `: `, then `0` or `1`.
pub open spec fn is_value_line(l: Seq<u8>) -> bool {
    let p = split_on(l, 58u8);
    p.len() == 2 && is_wire(p[0]) && p[1].len() == 2 && p[1][0] == 32u8 && (p[1][1] == 48u8 || p[1][1] == 49u8)
}

pub open spec fn value_of_line(l: Seq<u8>) -> (int, bool) {
    let p = split_on(l, 58u8);
    (wire_number(p[0]), p[1][1] == 49u8)
}

/// The operation named by `w`: 0 for AND, 1 for OR, 2 for XOR.
pub open spec fn op_of(w: Seq<u8>) -> Option<int> {
    if w == seq![65u8, 78u8, 68u8] {
        Some(0)
    } else if w == seq![79u8, 82u8] {
        Some(1)
    } else if w == seq![88u8, 79u8, 82u8] {
        Some(2)
    } else {
        None
    }
}

/// A gate line: `A OP B -> C`.
pub open spec fn is_gate_line(l: Seq<u8>) -> bool {
    let f = fields(l);
    f.len() == 5 && is_wire(f[0]) && op_of(f[1]).is_some() && is_wire(f[2]) && f[3] == seq![45u8, 62u8]
        && is_wire(f[4])
}

/// A gate as (output, operation, left, right).
pub open spec fn gate_of(l: Seq<u8>) -> (int, int, int, int) {
    let f = fields(l);
    (wire_number(f[4]), op_of(f[1]).unwrap(), wire_number(f[0]), wire_number(f[2]))
}

/// Starting values, an empty line, then gates.
pub open spec fn is_circuit(b: Seq<u8>) -> bool {
    let ls = lines(b);
    let k = blank_index(ls) as int;
    &&& k < ls.len()
    &&& forall|i: int| 0 <= i < k ==> is_value_line(#[trigger] ls[i])
    &&& forall|i: int| k < i < ls.len() ==> is_gate_line(#[trigger] ls[i])
}

pub open spec fn starting_values(b: Seq<u8>) -> Seq<(int, bool)> {
    lines(b).subrange(0, blank_index(lines(b)) as int).map_values(|l: Seq<u8>| value_of_line(l))
}

pub open spec fn gates(b: Seq<u8>) -> Seq<(int, int, int, int)> {
    lines(b).subrange(blank_index(lines(b)) as int + 1, lines(b).len() as int).map_values(|l: Seq<u8>| gate_of(l))
}

/// The last starting value given to wire `w` among the first `n`.
pub open spec fn given(vs: Seq<(int, bool)>, w: int, n: int) -> Option<bool>
    decreases n,
{
    if n <= 0 || n > vs.len() {
        None
    } else if vs[n - 1].0 == w {
        Some(vs[n - 1].1)
    } else {
        given(vs, w, n - 1)
    }
}

/// The last gate among the first `n` with output `w`.
pub open spec fn gate_for(gs: Seq<(int, int, int, int)>, w: int, n: int) -> Option<(int, int, int, int)>
    decreases n,
{
    if n <= 0 || n > gs.len() {
        None
    } else if gs[n - 1].0 == w {
        Some(gs[n - 1])
    } else {
        gate_for(gs, w, n - 1)
    }
}

pub open spec fn apply(op: int, a: bool, b: bool) -> bool {
    if op == 0 {
        a && b
    } else if op == 1 {
        a || b
    } else {
        a != b
    }
}

/// The output of gate `g` when its inputs are resolved within `f` levels.
pub open spec fn gate_value(vs: Seq<(int, bool)>, gs: Seq<(int, int, int, int)>, g: (int, int, int, int), f: nat) -> Option<bool>
    decreases f, 0int,
{
    if f == 0 {
        None
    } else {
        match (wire_value(vs, gs, g.2, (f - 1) as nat), wire_value(vs, gs, g.3, (f - 1) as nat)) {
            (Some(a), Some(b)) => Some(apply(g.1, a, b)),
            _ => None,
        }
    }
}

/// The value of wire `w`: its starting value, else the output of its gate,
/// looking at most `f` gates deep.
pub open spec fn wire_value(vs: Seq<(int, bool)>, gs: Seq<(int, int, int, int)>, w: int, f: nat) -> Option<bool>
    decreases f, 1int,
{
    match given(vs, w, vs.len() as int) {
        Some(b) => Some(b),
        None => match gate_for(gs, w, gs.len() as int) {
            Some(g) => gate_value(vs, gs, g, f),
            None => None,
        },
    }
}

/// The number of output wires `z00`, `z01`, ... that have a gate, up to 46.
pub open spec fn z_count(gs: Seq<(int, int, int, int)>, i: int) -> int
    decreases 46 - i,
{
    if i >= 46 || gate_for(gs, 12167 + i, gs.len() as int).is_none() {
        i
    } else {
        z_count(gs, i + 1)
    }
}

/// The number made of the outputs `z00` (lowest bit) to `z(n-1)`; `None`
/// when one of them does not resolve.
pub open spec fn z_number(vs: Seq<(int, bool)>, gs: Seq<(int, int, int, int)>, n: int) -> Option<int>
    decreases n,
{
    if n <= 0 {
        Some(0)
    } else {
        match (z_number(vs, gs, n - 1), gate_value(vs, gs, gate_for(gs, 12167 + n - 1, gs.len() as int).unwrap(), gs.len())) {
            (Some(low), Some(bit)) => Some(low + if bit { vstd::arithmetic::power2::pow2((n - 1) as nat) as int } else { 0 }),
            _ => None,
        }
    }
}

pub open spec fn vals_int(vs: Seq<(usize, bool)>) -> Seq<(int, bool)> {
    vs.map_values(|p: (usize, bool)| (p.0 as int, p.1))
}

pub open spec fn gates_int(gs: Seq<(usize, u8, usize, usize)>) -> Seq<(int, int, int, int)> {
    gs.map_values(|g: (usize, u8, usize, usize)| (g.0 as int, g.1 as int, g.2 as int, g.3 as int))
}

fn find_given(vs: &Vec<(usize, bool)>, w: usize) -> (r: Option<bool>)
    ensures
        r == given(vals_int(vs@), w as int, vs@.len() as int),
{
    let mut n = vs.len();
    while n > 0
        invariant
            n <= vs@.len(),
            given(vals_int(vs@), w as int, vs@.len() as int) == given(vals_int(vs@), w as int, n as int),
        decreases n,
    {
        if vs[n - 1].0 == w {
            return Some(vs[n - 1].1);
        }
        n -= 1;
    }
    None
}

fn find_gate(gs: &Vec<(usize, u8, usize, usize)>, w: usize) -> (r: Option<(usize, u8, usize, usize)>)
    ensures
        r.is_some() == gate_for(gates_int(gs@), w as int, gs@.len() as int).is_some(),
        r.is_some() ==> gate_for(gates_int(gs@), w as int, gs@.len() as int).unwrap() == (
            r.unwrap().0 as int,
            r.unwrap().1 as int,
            r.unwrap().2 as int,
            r.unwrap().3 as int,
        ),
{
    let mut n = gs.len();
    while n > 0
        invariant
            n <= gs@.len(),
            gate_for(gates_int(gs@), w as int, gs@.len() as int) == gate_for(gates_int(gs@), w as int, n as int),
        decreases n,
    {
        if gs[n - 1].0 == w {
            return Some(gs[n - 1]);
        }
        n -= 1;
    }
    None
}

fn gate_eval(vs: &Vec<(usize, bool)>, gs: &Vec<(usize, u8, usize, usize)>, g: (usize, u8, usize, usize), f: u64) -> (r: Option<bool>)
    ensures
        r == gate_value(vals_int(vs@), gates_int(gs@), (g.0 as int, g.1 as int, g.2 as int, g.3 as int), f as nat),
    decreases f, 0int,
{
    if f == 0 {
        return None;
    }
    let a = resolve_value(vs, gs, g.2, f - 1);
    let b = resolve_value(vs, gs, g.3, f - 1);
    match (a, b) {
        (Some(a), Some(b)) => Some(if g.1 == 0 {
            a && b
        } else if g.1 == 1 {
            a || b
        } else {
            a != b
        }),
        _ => None,
    }
}

/// The value of wire `w`, looking at most `f` gates deep.
pub fn resolve_value(vs: &Vec<(usize, bool)>, gs: &Vec<(usize, u8, usize, usize)>, w: usize, f: u64) -> (r: Option<bool>)
    ensures
        r == wire_value(vals_int(vs@), gates_int(gs@), w as int, f as nat),
    decreases f, 1int,
{
    match find_given(vs, w) {
        Some(b) => Some(b),
        None => match find_gate(gs, w) {
            Some(g) => gate_eval(vs, gs, g, f),
            None => None,
        },
    }
}

/// The number of the wire named by `b[lo..hi]`.
fn wire_at(b: &[u8], lo: usize, hi: usize) -> (r: Option<usize>)
    requires
        lo <= hi <= b@.len(),
    ensures
        r.is_some() == is_wire(b@.subrange(lo as int, hi as int)),
        r.is_some() ==> r.unwrap() == wire_number(b@.subrange(lo as int, hi as int)),
{
    let mut v: Vec<u8> = Vec::new();
    let mut i = lo;
    while i < hi
        invariant
            lo <= i <= hi <= b@.len(),
            v@ == b@.subrange(lo as int, i as int),
        decreases hi - i,
    {
        v.push(b[i]);
        proof {
            assert(v@ =~= b@.subrange(lo as int, i + 1));
        }
        i += 1;
    }
    hash_input(v.as_slice())
}

fn op_at(b: &[u8], lo: usize, hi: usize) -> (r: Option<u8>)
    requires
        lo <= hi <= b@.len(),
    ensures
        r.is_some() == op_of(b@.subrange(lo as int, hi as int)).is_some(),
        r.is_some() ==> r.unwrap() == op_of(b@.subrange(lo as int, hi as int)).unwrap(),
{
    let ghost s = b@.subrange(lo as int, hi as int);
    if hi - lo == 3 && b[lo] == 65 && b[lo + 1] == 78 && b[lo + 2] == 68 {
        assert(s =~= seq![65u8, 78u8, 68u8]);
        return Some(0);
    }
    if hi - lo == 2 && b[lo] == 79 && b[lo + 1] == 82 {
        assert(s =~= seq![79u8, 82u8]);
        return Some(1);
    }
    if hi - lo == 3 && b[lo] == 88 && b[lo + 1] == 79 && b[lo + 2] == 82 {
        assert(s =~= seq![88u8, 79u8, 82u8]);
        return Some(2);
    }
    proof {
        if s.len() == 3 {
            assert(s[0] == b@[lo as int] && s[1] == b@[lo + 1] && s[2] == b@[lo + 2]);
        }
        if s.len() == 2 {
            assert(s[0] == b@[lo as int] && s[1] == b@[lo + 1]);
        }
        if s == seq![65u8, 78u8, 68u8] {
            assert(s[0] == 65 && s[1] == 78 && s[2] == 68);
        }
        if s == seq![79u8, 82u8] {
            assert(s[0] == 79 && s[1] == 82);
        }
        if s == seq![88u8, 79u8, 82u8] {
            assert(s[0] == 88 && s[1] == 79 && s[2] == 82);
        }
    }
    None
}

/// The starting values and the gates of `input`, or `None` when it is not a
/// circuit.
pub fn parse_input(input: &[u8]) -> (r: Option<(Vec<(usize, bool)>, Vec<(usize, u8, usize, usize)>)>)
    ensures
        r.is_some() == is_circuit(input@),
        r.is_some() ==> vals_int(r.unwrap().0@) == starting_values(input@) && gates_int(r.unwrap().1@) == gates(input@),
{
    let spans = line_spans(input);
    let ghost ls = lines(input@);
    let mut vs: Vec<(usize, bool)> = Vec::new();
    let mut k: usize = 0;
    while k < spans.len() && spans[k].0 < spans[k].1
        invariant
            k <= spans@.len(),
            ls == lines(input@),
            spans_are(input@, spans@, ls),
            forall|i: int| 0 <= i < k ==> (#[trigger] ls[i]).len() > 0 && is_value_line(ls[i]),
            vals_int(vs@) == ls.subrange(0, k as int).map_values(|l: Seq<u8>| value_of_line(l)),
        decreases spans@.len() - k,
    {
        let (lo, hi) = spans[k];
        proof {
            assert(ls[k as int] == input@.subrange(lo as int, hi as int));
        }
        let p = split_spans(input, lo, hi, 58u8);
        if p.len() != 2 {
            proof {
                lemma_not_blank_yet(ls, k as int);
            }
            return None;
        }
        let w = wire_at(input, p[0].0, p[0].1);
        let (a, b) = p[1];
        let ok = b - a == 2 && input[a] == 32 && (input[a + 1] == 48 || input[a + 1] == 49);
        proof {
            let q = input@.subrange(a as int, b as int);
            if b - a == 2 {
                assert(q[0] == input@[a as int] && q[1] == input@[a + 1]);
            }
        }
        match w {
            Some(w) => {
                if !ok {
                    proof {
                        lemma_not_blank_yet(ls, k as int);
                    }
                    return None;
                }
                let ghost prior = vs@;
                vs.push((w, input[a + 1] == 49));
                proof {
                    assert(vs@ == prior.push((w, input@[a + 1] == 49)));
                    let pl = split_on(ls[k as int], 58u8);
                    assert(pl[0] == input@.subrange(p@[0].0 as int, p@[0].1 as int));
                    assert(pl[1] == input@.subrange(a as int, b as int));
                    assert(pl[1][1] == input@[a + 1]);
                    assert(value_of_line(ls[k as int]) == (w as int, input@[a + 1] == 49));
                    assert(vals_int(vs@) =~= vals_int(prior).push((w as int, input@[a + 1] == 49)));
                    assert(ls.subrange(0, k + 1).map_values(|l: Seq<u8>| value_of_line(l)) =~= ls.subrange(0, k as int).map_values(|l: Seq<u8>| value_of_line(l)).push(value_of_line(ls[k as int])));
                    assert(vals_int(vs@) =~= ls.subrange(0, k + 1).map_values(|l: Seq<u8>| value_of_line(l)));
                }
            },
            None => {
                proof {
                    lemma_not_blank_yet(ls, k as int);
                }
                return None;
            },
        }
        k += 1;
    }
    proof {
        lemma_blank_index(ls, k as int);
    }
    if k == spans.len() {
        return None;
    }
    let mut gs: Vec<(usize, u8, usize, usize)> = Vec::new();
    let mut j = k + 1;
    proof {
        assert(gates_int(gs@) =~= ls.subrange(k + 1, k + 1).map_values(|l: Seq<u8>| gate_of(l)));
    }
    while j < spans.len()
        invariant
            k < j <= spans@.len(),
            ls == lines(input@),
            spans_are(input@, spans@, ls),
            blank_index(ls) == k,
            forall|i: int| k < i < j ==> is_gate_line(#[trigger] ls[i]),
            gates_int(gs@) == ls.subrange(k + 1, j as int).map_values(|l: Seq<u8>| gate_of(l)),
        decreases spans@.len() - j,
    {
        let (lo, hi) = spans[j];
        proof {
            assert(ls[j as int] == input@.subrange(lo as int, hi as int));
        }
        let f = field_spans(input, lo, hi);
        if f.len() != 5 {
            return None;
        }
        let l = wire_at(input, f[0].0, f[0].1);
        let op = op_at(input, f[1].0, f[1].1);
        let r = wire_at(input, f[2].0, f[2].1);
        let (a, b) = f[3];
        let arrow = b - a == 2 && input[a] == 45 && input[a + 1] == 62;
        proof {
            let q = input@.subrange(a as int, b as int);
            if arrow {
                assert(q =~= seq![45u8, 62u8]);
            } else if q == seq![45u8, 62u8] {
                assert(q[0] == input@[a as int] && q[1] == input@[a + 1]);
            }
        }
        let out = wire_at(input, f[4].0, f[4].1);
        match (l, op, r, out) {
            (Some(l), Some(op), Some(r), Some(out)) => {
                if !arrow {
                    return None;
                }
                let ghost prior = gs@;
                gs.push((out, op, l, r));
                proof {
                    assert(gs@ == prior.push((out, op, l, r)));
                    let fl = fields(ls[j as int]);
                    assert(fl[0] == input@.subrange(f@[0].0 as int, f@[0].1 as int));
                    assert(fl[1] == input@.subrange(f@[1].0 as int, f@[1].1 as int));
                    assert(fl[2] == input@.subrange(f@[2].0 as int, f@[2].1 as int));
                    assert(fl[4] == input@.subrange(f@[4].0 as int, f@[4].1 as int));
                    assert(gate_of(ls[j as int]) == (out as int, op as int, l as int, r as int));
                    assert(gates_int(gs@) =~= gates_int(prior).push((out as int, op as int, l as int, r as int)));
                    assert(ls.subrange(k + 1, j + 1).map_values(|l: Seq<u8>| gate_of(l)) =~= ls.subrange(k + 1, j as int).map_values(|l: Seq<u8>| gate_of(l)).push(gate_of(ls[j as int])));
                    assert(gates_int(gs@) =~= ls.subrange(k + 1, j + 1).map_values(|l: Seq<u8>| gate_of(l)));
                }
            },
            _ => {
                return None;
            },
        }
        j += 1;
    }
    proof {
        assert(ls.subrange(0, k as int) =~= ls.subrange(0, blank_index(ls) as int));
        assert(ls.subrange(k + 1, j as int) =~= ls.subrange(blank_index(ls) as int + 1, ls.len() as int));
    }
    Some((vs, gs))
}

/// With every line before `k` not empty, line `k` (not empty either) comes
/// before the first empty line.
proof fn lemma_not_blank_yet(ls: Seq<Seq<u8>>, k: int)
    requires
        0 <= k < ls.len(),
        forall|i: int| 0 <= i < k ==> (#[trigger] ls[i]).len() > 0,
        ls[k].len() > 0,
    ensures
        blank_index(ls) > k,
    decreases k,
{
    let t = ls.drop_first();
    if k > 0 {
        assert forall|i: int| 0 <= i < k - 1 implies (#[trigger] t[i]).len() > 0 by {
            assert(t[i] == ls[i + 1]);
        }
        lemma_not_blank_yet(t, k - 1);
    }
}

/// The number on the output wires `z00`, `z01`, ... of the circuit `input`
/// once its gates are resolved (each wire looked up at most as many gates
/// deep as there are gates); `None` when `input` is not a circuit or an
/// output does not resolve.
pub fn first_part(input: &str) -> (r: Option<u64>)
    ensures
        ({
            let b = input.spec_bytes();
            let vs = starting_values(b);
            let gs = gates(b);
            &&& r.is_some() == (is_circuit(b) && z_number(vs, gs, z_count(gs, 0)).is_some())
            &&& r.is_some() ==> r.unwrap() == z_number(vs, gs, z_count(gs, 0)).unwrap()
        }),
{
    let (vs, gs) = match parse_input(input.as_bytes()) {
        Some(p) => p,
        None => {
            return None;
        },
    };
    let ghost vv = vals_int(vs@);
    let ghost gv = gates_int(gs@);
    let mut n: usize = 0;
    while n < 46 && find_gate(&gs, 12167 + n).is_some()
        invariant
            n <= 46,
            gv == gates_int(gs@),
            z_count(gv, 0) == z_count(gv, n as int),
        decreases 46 - n,
    {
        n += 1;
    }
    proof {
        lemma_z_count(gv, 0);
    }
    let fuel = gs.len() as u64;
    let mut acc: u64 = 0;
    let mut p: u64 = 1;
    let mut i: usize = 0;
    proof {
        vstd::arithmetic::power2::lemma_pow2(0);
        assert(vstd::arithmetic::power2::pow2(0) == 1) by {
            vstd::arithmetic::power2::lemma2_to64();
        }
    }
    while i < n
        invariant
            i <= n <= 46,
            n == z_count(gv, 0),
            vv == vals_int(vs@),
            gv == gates_int(gs@),
            fuel == gs@.len(),
            vv == starting_values(input.spec_bytes()),
            gv == gates(input.spec_bytes()),
            is_circuit(input.spec_bytes()),
            p == vstd::arithmetic::power2::pow2(i as nat),
            acc < p,
            p <= 0x4000_0000_0000,
            z_number(vv, gv, i as int) == Some(acc as int),
            forall|t: int| 0 <= t < n ==> #[trigger] gate_for(gv, 12167 + t, gv.len() as int).is_some(),
        decreases n - i,
    {
        let g = find_gate(&gs, 12167 + i).unwrap();
        let bit = gate_eval(&vs, &gs, g, fuel);
        match bit {
            Some(v) => {
                proof {
                    vstd::arithmetic::power2::lemma_pow2_unfold((i + 1) as nat);
                    assert(z_number(vv, gv, i + 1) == Some(acc + if v { p as int } else { 0 }));
                }
                proof {
                    vstd::arithmetic::power2::lemma2_to64();
                    assert(i <= 45);
                    vstd::arithmetic::power2::lemma_pow2_adds(32, 13);
                    assert(vstd::arithmetic::power2::pow2(45) == 0x2000_0000_0000);
                    if i < 45 {
                        vstd::arithmetic::power2::lemma_pow2_strictly_increases(i as nat, 45);
                        assert(p < vstd::arithmetic::power2::pow2(45));
                    } else {
                        assert(p == vstd::arithmetic::power2::pow2(45));
                    }
                    assert(p <= 0x2000_0000_0000);
                    assert(p * 2 <= 0x4000_0000_0000);
                }
                if v {
                    acc = acc + p;
                }
                p = p * 2;
            },
            None => {
                proof {
                    assert(z_number(vv, gv, i + 1).is_none());
                    lemma_z_none_stays(vv, gv, i + 1, n as int);
                }
                return None;
            },
        }
        i += 1;
    }
    Some(acc)
}

proof fn lemma_z_none_stays(vs: Seq<(int, bool)>, gs: Seq<(int, int, int, int)>, i: int, n: int)
    requires
        0 <= i <= n,
        z_number(vs, gs, i).is_none(),
    ensures
        z_number(vs, gs, n).is_none(),
    decreases n - i,
{
    if i < n {
        lemma_z_none_stays(vs, gs, i + 1, n);
    }
}

proof fn lemma_z_count(gs: Seq<(int, int, int, int)>, i: int)
    requires
        0 <= i <= 46,
    ensures
        i <= z_count(gs, i) <= 46,
        forall|t: int| i <= t < z_count(gs, i) ==> #[trigger] gate_for(gs, 12167 + t, gs.len() as int).is_some(),
    decreases 46 - i,
{
    if i < 46 && gate_for(gs, 12167 + i, gs.len() as int).is_some() {
        lemma_z_count(gs, i + 1);
    }
}

} // verus!




