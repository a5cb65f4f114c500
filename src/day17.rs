//! A three-bit computer: three registers, eight instructions, and a list of
//! outputs.
use crate::text::{digits_value, is_number, line_spans, lines, parse_number, split_on, split_spans, spans_are};
use vstd::prelude::*;
use vstd::string::StringSliceAdditionalSpecFns;

verus! {

/// The state of the computer: registers A, B, C, the instruction pointer,
/// and what it has output so far.
pub struct Machine {
    pub a: u64,
    pub b: u64,
    pub c: u64,
    pub ip: usize,
    pub out: Vec<u8>,
}

/// The state as plain values.
pub struct MachineState {
    pub a: u64,
    pub b: u64,
    pub c: u64,
    pub ip: int,
    pub out: Seq<u8>,
}

impl Machine {
    pub open spec fn state(&self) -> MachineState {
        MachineState { a: self.a, b: self.b, c: self.c, ip: self.ip as int, out: self.out@ }
    }
}

/// `v` shifted right by `n` bits.
pub open spec fn shr(v: u64, n: u64) -> u64 {
    if n >= 64 {
        0
    } else {
        v >> n
    }
}

/// The value of a combo operand, or `None` for the reserved operand 7.
pub open spec fn combo(s: MachineState, op: u8) -> Option<u64> {
    if op <= 3 {
        Some(op as u64)
    } else if op == 4 {
        Some(s.a)
    } else if op == 5 {
        Some(s.b)
    } else if op == 6 {
        Some(s.c)
    } else {
        None
    }
}

/// The machine has run off the end of the program (no whole instruction
/// starts at the instruction pointer).
pub open spec fn halted(s: MachineState, prog: Seq<u8>) -> bool {
    s.ip + 1 >= prog.len()
}

/// One instruction; `None` when it needs the reserved operand or an unknown
/// opcode.
pub open spec fn step(s: MachineState, prog: Seq<u8>) -> Option<MachineState> {
    let opcode = prog[s.ip];
    let lit = prog[s.ip + 1];
    let next = s.ip + 2;
    if opcode == 1 {
        Some(MachineState { b: s.b ^ (lit as u64), ip: next, ..s })
    } else if opcode == 3 {
        Some(MachineState { ip: if s.a != 0 { lit as int } else { next }, ..s })
    } else if opcode == 4 {
        Some(MachineState { b: s.b ^ s.c, ip: next, ..s })
    } else if opcode > 7 {
        None
    } else {
        match combo(s, lit) {
            None => None,
            Some(v) => if opcode == 0 {
                Some(MachineState { a: shr(s.a, v), ip: next, ..s })
            } else if opcode == 2 {
                Some(MachineState { b: v % 8, ip: next, ..s })
            } else if opcode == 5 {
                Some(MachineState { out: s.out.push((v % 8) as u8), ip: next, ..s })
            } else if opcode == 6 {
                Some(MachineState { b: shr(s.a, v), ip: next, ..s })
            } else {
                Some(MachineState { c: shr(s.a, v), ip: next, ..s })
            },
        }
    }
}

/// What the program outputs when run from `s` for at most `fuel`
/// instructions; `None` when it has not halted by then or hits a bad
/// instruction.
pub open spec fn run(s: MachineState, prog: Seq<u8>, fuel: nat) -> Option<Seq<u8>>
    decreases fuel,
{
    if halted(s, prog) {
        Some(s.out)
    } else if fuel == 0 {
        None
    } else {
        match step(s, prog) {
            None => None,
            Some(t) => run(t, prog, (fuel - 1) as nat),
        }
    }
}

fn shift(v: u64, n: u64) -> (r: u64)
    ensures
        r == shr(v, n),
{
    if n >= 64 {
        0
    } else {
        v >> n
    }
}

/// Runs one instruction; returns false, leaving the machine as it was, on a
/// bad instruction.
pub fn step_machine(m: &mut Machine, prog: &Vec<u8>) -> (r: bool)
    requires
        !halted(old(m).state(), prog@),
        old(m).ip >= 0,
    ensures
        r == step(old(m).state(), prog@).is_some(),
        r ==> final(m).state() == step(old(m).state(), prog@).unwrap(),
        !r ==> final(m).state() == old(m).state(),
{
    let _n = prog.len();
    let opcode = prog[m.ip];
    let lit = prog[m.ip + 1];
    let next = m.ip + 2;
    if opcode == 1 {
        m.b = m.b ^ (lit as u64);
        m.ip = next;
        return true;
    } else if opcode == 3 {
        m.ip = if m.a != 0 {
            lit as usize
        } else {
            next
        };
        return true;
    } else if opcode == 4 {
        m.b = m.b ^ m.c;
        m.ip = next;
        return true;
    } else if opcode > 7 {
        return false;
    }
    let v = if lit <= 3 {
        lit as u64
    } else if lit == 4 {
        m.a
    } else if lit == 5 {
        m.b
    } else if lit == 6 {
        m.c
    } else {
        return false;
    };
    if opcode == 0 {
        m.a = shift(m.a, v);
    } else if opcode == 2 {
        m.b = v % 8;
    } else if opcode == 5 {
        m.out.push((v % 8) as u8);
    } else if opcode == 6 {
        m.b = shift(m.a, v);
    } else {
        m.c = shift(m.a, v);
    }
    m.ip = next;
    true
}

/// Runs the program from `m` for at most `fuel` instructions and returns
/// what it output; `None` when it has not halted by then or hits a bad
/// instruction.
pub fn execute_program(init: Machine, prog: &Vec<u8>, fuel: u64) -> (r: Option<Vec<u8>>)
    ensures
        r.is_some() == run(init.state(), prog@, fuel as nat).is_some(),
        r.is_some() ==> r.unwrap()@ == run(init.state(), prog@, fuel as nat).unwrap(),
{
    let mut m = init;
    let ghost start = m.state();
    let mut left: u64 = fuel;
    while m.ip < prog.len() && m.ip + 1 < prog.len()
        invariant
            run(m.state(), prog@, left as nat) == run(start, prog@, fuel as nat),
            start == init.state(),
        decreases left,
    {
        if left == 0 {
            return None;
        }
        if !step_machine(&mut m, prog) {
            return None;
        }
        left = left - 1;
    }
    Some(m.out)
}

/// The bytes of "Register X: " for the register letter `x`.
pub open spec fn register_prefix(x: u8) -> Seq<u8> {
    seq![82u8, 101u8, 103u8, 105u8, 115u8, 116u8, 101u8, 114u8, 32u8, x, 58u8, 32u8]
}

/// The bytes of "Program: ".
pub open spec fn program_prefix() -> Seq<u8> {
    seq![80u8, 114u8, 111u8, 103u8, 114u8, 97u8, 109u8, 58u8, 32u8]
}

/// "Register X: " followed by a number.
pub open spec fn is_register_line(l: Seq<u8>, x: u8) -> bool {
    l.len() >= 12 && l.subrange(0, 12) == register_prefix(x) && is_number(l.subrange(12, l.len() as int))
}

pub open spec fn register_value(l: Seq<u8>) -> u64 {
    digits_value(l.subrange(12, l.len() as int)) as u64
}

/// The instructions after "Program: ": numbers below eight separated by commas.
pub open spec fn program_words(l: Seq<u8>) -> Seq<Seq<u8>> {
    split_on(l.subrange(9, l.len() as int), 44u8)
}

pub open spec fn is_program_line(l: Seq<u8>) -> bool {
    &&& l.len() >= 9
    &&& l.subrange(0, 9) == program_prefix()
    &&& forall|i: int|
        0 <= i < program_words(l).len() ==> is_number(#[trigger] program_words(l)[i]) && digits_value(
            program_words(l)[i],
        ) < 8
}

pub open spec fn program_of(l: Seq<u8>) -> Seq<u8> {
    program_words(l).map_values(|w: Seq<u8>| digits_value(w) as u8)
}

/// Three register lines (A, B, C), an empty line, and the program line.
pub open spec fn is_computer(b: Seq<u8>) -> bool {
    let ls = lines(b);
    &&& ls.len() == 5
    &&& is_register_line(ls[0], 65u8)
    &&& is_register_line(ls[1], 66u8)
    &&& is_register_line(ls[2], 67u8)
    &&& ls[3].len() == 0
    &&& is_program_line(ls[4])
}

/// Whether `b[lo..hi]` starts with `p`.
fn starts_with(b: &[u8], lo: usize, hi: usize, p: &[u8]) -> (r: bool)
    requires
        lo <= hi <= b@.len(),
    ensures
        r == (hi - lo >= p@.len() && b@.subrange(lo as int, lo + p@.len()) == p@),
{
    if hi - lo < p.len() {
        return false;
    }
    let mut i: usize = 0;
    while i < p.len()
        invariant
            i <= p@.len() <= hi - lo,
            lo <= hi <= b@.len(),
            forall|j: int| 0 <= j < i ==> b@[lo + j] == p@[j],
        decreases p@.len() - i,
    {
        if b[lo + i] != p[i] {
            assert(b@.subrange(lo as int, lo + p@.len())[i as int] != p@[i as int]);
            return false;
        }
        i += 1;
    }
    assert(b@.subrange(lo as int, lo + p@.len()) =~= p@);
    true
}

fn parse_register(b: &[u8], lo: usize, hi: usize, x: u8) -> (r: Option<u64>)
    requires
        lo <= hi <= b@.len(),
    ensures
        r.is_some() == is_register_line(b@.subrange(lo as int, hi as int), x),
        r.is_some() ==> r.unwrap() == register_value(b@.subrange(lo as int, hi as int)),
{
    let p: [u8; 12] = [82, 101, 103, 105, 115, 116, 101, 114, 32, x, 58, 32];
    proof {
        assert(p@ =~= register_prefix(x));
    }
    let ghost l = b@.subrange(lo as int, hi as int);
    if !starts_with(b, lo, hi, p.as_slice()) {
        proof {
            if l.len() >= 12 {
                assert(l.subrange(0, 12) =~= b@.subrange(lo as int, lo + 12));
            }
        }
        return None;
    }
    proof {
        assert(l.subrange(0, 12) =~= b@.subrange(lo as int, lo + 12));
        assert(l.subrange(12, l.len() as int) =~= b@.subrange(lo + 12, hi as int));
    }
    parse_number(b, lo + 12, hi)
}

fn parse_program(b: &[u8], lo: usize, hi: usize) -> (r: Option<Vec<u8>>)
    requires
        lo <= hi <= b@.len(),
    ensures
        r.is_some() == is_program_line(b@.subrange(lo as int, hi as int)),
        r.is_some() ==> r.unwrap()@ == program_of(b@.subrange(lo as int, hi as int)),
{
    let p: [u8; 9] = [80, 114, 111, 103, 114, 97, 109, 58, 32];
    proof {
        assert(p@ =~= program_prefix());
    }
    let ghost l = b@.subrange(lo as int, hi as int);
    if !starts_with(b, lo, hi, p.as_slice()) {
        proof {
            if l.len() >= 9 {
                assert(l.subrange(0, 9) =~= b@.subrange(lo as int, lo + 9));
            }
        }
        return None;
    }
    proof {
        assert(l.subrange(0, 9) =~= b@.subrange(lo as int, lo + 9));
        assert(l.subrange(9, l.len() as int) =~= b@.subrange(lo + 9, hi as int));
    }
    let words = split_spans(b, lo + 9, hi, 44u8);
    let ghost ws = program_words(l);
    let mut out: Vec<u8> = Vec::new();
    let mut k: usize = 0;
    while k < words.len()
        invariant
            k <= words@.len(),
            l == b@.subrange(lo as int, hi as int),
            l.len() >= 9,
            l.subrange(0, 9) == program_prefix(),
            ws == program_words(l),
            spans_are(b@, words@, ws),
            forall|i: int| 0 <= i < k ==> is_number(#[trigger] ws[i]) && digits_value(ws[i]) < 8,
            out@ == program_of(l).subrange(0, k as int),
        decreases words@.len() - k,
    {
        match parse_number(b, words[k].0, words[k].1) {
            Some(v) => {
                if v >= 8 {
                    return None;
                }
                out.push(v as u8);
                proof {
                    assert(out@ =~= program_of(l).subrange(0, k + 1));
                }
            },
            None => {
                assert(!is_number(ws[k as int]));
                return None;
            },
        }
        k += 1;
    }
    proof {
        assert(out@ =~= program_of(l));
    }
    Some(out)
}

/// The registers and program of `input`, or `None` when it does not have
/// that shape.
pub fn parse_input(input: &[u8]) -> (r: Option<(Machine, Vec<u8>)>)
    ensures
        r.is_some() == is_computer(input@),
        r.is_some() ==> ({
            let (m, p) = r.unwrap();
            let ls = lines(input@);
            &&& m.a == register_value(ls[0])
            &&& m.b == register_value(ls[1])
            &&& m.c == register_value(ls[2])
            &&& m.ip == 0
            &&& m.out@ == Seq::<u8>::empty()
            &&& p@ == program_of(ls[4])
        }),
{
    let spans = line_spans(input);
    if spans.len() != 5 {
        return None;
    }
    let a = parse_register(input, spans[0].0, spans[0].1, 65u8);
    let b = parse_register(input, spans[1].0, spans[1].1, 66u8);
    let c = parse_register(input, spans[2].0, spans[2].1, 67u8);
    let p = parse_program(input, spans[4].0, spans[4].1);
    if spans[3].0 != spans[3].1 {
        return None;
    }
    match (a, b, c, p) {
        (Some(a), Some(b), Some(c), Some(p)) => Some((Machine { a, b, c, ip: 0, out: Vec::new() }, p)),
        _ => None,
    }
}

/// The machine state that `parse_input` gives for a computer text.
pub open spec fn initial_state(b: Seq<u8>) -> MachineState {
    let ls = lines(b);
    MachineState {
        a: register_value(ls[0]),
        b: register_value(ls[1]),
        c: register_value(ls[2]),
        ip: 0,
        out: Seq::empty(),
    }
}

/// What the program of `input` outputs within `fuel` instructions; `None`
/// when `input` is not a computer, or the program has not halted by then or
/// hits a bad instruction.
pub fn first_part(input: &str, fuel: u64) -> (r: Option<Vec<u8>>)
    ensures
        r.is_some() == (is_computer(input.spec_bytes()) && run(
            initial_state(input.spec_bytes()),
            program_of(lines(input.spec_bytes())[4]),
            fuel as nat,
        ).is_some()),
        r.is_some() ==> r.unwrap()@ == run(
            initial_state(input.spec_bytes()),
            program_of(lines(input.spec_bytes())[4]),
            fuel as nat,
        ).unwrap(),
{
    match parse_input(input.as_bytes()) {
        Some((m, p)) => {
            proof {
                assert(m.state() == initial_state(input.spec_bytes()));
            }
            execute_program(m, &p, fuel)
        },
        None => None,
    }
}

/// The outputs of the hand-compiled form of one puzzle's program: each round
/// outputs a value made from the low three bits of A and A shifted right by
/// them, then drops three bits of A, until A is zero.
pub open spec fn short_outputs(a: u64) -> Seq<u8>
    decreases a,
{
    let n = a & 7;
    let b = n ^ 3 ^ shr(a, (n ^ 5) as u64);
    let out = seq![(b % 8) as u8];
    if a / 8 == 0 {
        out
    } else {
        out + short_outputs(a / 8)
    }
}

/// The outputs of the hand-compiled program for register A.
pub fn short_program(a: u64) -> (r: Vec<u8>)
    ensures
        r@ == short_outputs(a),
    decreases a,
{
    let n = a & 7;
    let b = n ^ 3 ^ shift(a, n ^ 5);
    let mut out: Vec<u8> = Vec::new();
    out.push((b % 8) as u8);
    let rest = a / 8;
    if rest == 0 {
        return out;
    }
    let tail = short_program(rest);
    let mut i: usize = 0;
    let ghost head = out@;
    while i < tail.len()
        invariant
            i <= tail@.len(),
            out@ == head + tail@.subrange(0, i as int),
        decreases tail@.len() - i,
    {
        out.push(tail[i]);
        proof {
            assert(tail@.subrange(0, i + 1) =~= tail@.subrange(0, i as int).push(tail@[i as int]));
            assert(out@ =~= head + tail@.subrange(0, i + 1));
        }
        i += 1;
    }
    proof {
        assert(tail@.subrange(0, i as int) =~= tail@);
    }
    out
}

} // verus!


