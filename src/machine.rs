use vstd::prelude::*;
use crate::ir::{Instruction, Jump};

verus! {

/// Number of cells on the tape.
pub const NUM_REGISTERS: usize = 32768;

/// Cell value after adding `v`, modulo 256.
pub open spec fn wrap_add(a: u8, v: int) -> u8 {
    ((a as int + v) % 256) as u8
}

/// Cell value after subtracting `v`, modulo 256.
pub open spec fn wrap_sub(a: u8, v: int) -> u8 {
    ((a as int - v) % 256) as u8
}

/// The tape index `rp + o`, if it lies on the tape.
pub open spec fn cell_at(rp: int, o: int) -> Option<int> {
    if 0 <= rp + o < NUM_REGISTERS {
        Some(rp + o)
    } else {
        None
    }
}

/// Effect of an instruction that neither jumps nor does I/O, on the cell
/// pointer and the tape; `None` where it would leave the tape.
pub open spec fn apply(tape: Seq<u8>, rp: int, inst: Instruction) -> Option<(int, Seq<u8>)> {
    match inst {
        Instruction::Shl(n) => if rp - n >= 0 { Some((rp - n, tape)) } else { None },
        Instruction::Shr(n) => if rp + n < NUM_REGISTERS { Some((rp + n, tape)) } else { None },
        Instruction::Inc(n) => Some((rp, tape.update(rp, wrap_add(tape[rp], n as int)))),
        Instruction::Dec(n) => Some((rp, tape.update(rp, wrap_sub(tape[rp], n as int)))),
        Instruction::Zero(o) => match cell_at(rp, o as int) {
            Some(x) => Some((rp, tape.update(x, 0u8))),
            None => None,
        },
        Instruction::Add(o) => match cell_at(rp, o as int) {
            Some(x) => Some((rp, tape.update(x, wrap_add(tape[x], tape[rp] as int)))),
            None => None,
        },
        Instruction::Sub(o) => match cell_at(rp, o as int) {
            Some(x) => Some((rp, tape.update(x, wrap_sub(tape[x], tape[rp] as int)))),
            None => None,
        },
        Instruction::AddMul(o, k) => match cell_at(rp, o as int) {
            Some(x) => Some((rp, tape.update(x, wrap_add(tape[x], k * tape[rp])))),
            None => None,
        },
        Instruction::SubMul(o, k) => match cell_at(rp, o as int) {
            Some(x) => Some((rp, tape.update(x, wrap_sub(tape[x], k * tape[rp])))),
            None => None,
        },
        _ => None,
    }
}

/// An instruction whose effect `apply` describes.
pub open spec fn is_straight(inst: Instruction) -> bool {
    !(inst is Output || inst is Input || inst is JumpZ || inst is JumpNz)
}

/// What one step of the interpreter asks of its surroundings.
#[derive(Clone, Copy, Debug, PartialEq, Eq, Structural)]
pub enum Action {
    /// The step was internal; step again.
    Continue,
    /// Write this byte to the output.
    Output(u8),
    /// Read one byte and hand it over with `feed`.
    Input,
    /// The instruction pointer is past the end: the program has finished.
    Halt,
    /// The instruction would move or address a cell off the tape.
    Fault,
}

/// State of the interpreter: instruction pointer, cell pointer and tape.
pub struct Machine {
    pub ip: usize,
    pub rp: usize,
    pub registers: Vec<u8>,
}

/// One step of the interpreter from instruction pointer `ip`, cell pointer
/// `rp` and tape `tape`: the next three and the action asked for.
pub open spec fn step_spec(prog: Seq<Instruction>, ip: int, rp: int, tape: Seq<u8>) -> (
    int,
    int,
    Seq<u8>,
    Action,
) {
    if ip < 0 || ip >= prog.len() {
        (ip, rp, tape, Action::Halt)
    } else {
        match prog[ip] {
            Instruction::Output => (ip + 1, rp, tape, Action::Output(tape[rp])),
            Instruction::Input => (ip, rp, tape, Action::Input),
            Instruction::JumpZ(Jump::Location(t)) => if tape[rp] == 0 {
                (t as int, rp, tape, Action::Continue)
            } else {
                (ip + 1, rp, tape, Action::Continue)
            },
            Instruction::JumpNz(Jump::Location(t)) => if tape[rp] != 0 {
                (t as int, rp, tape, Action::Continue)
            } else {
                (ip + 1, rp, tape, Action::Continue)
            },
            Instruction::JumpZ(Jump::Redundant) => (ip + 1, rp, tape, Action::Continue),
            Instruction::JumpNz(Jump::Redundant) => (ip + 1, rp, tape, Action::Continue),
            inst => match apply(tape, rp, inst) {
                Some((r, t)) => (ip + 1, r, t, Action::Continue),
                None => (ip, rp, tape, Action::Fault),
            },
        }
    }
}

/// The tape after a pending `Input` receives `byte`; at end of input the
/// cell becomes zero, which ends the usual read loops.
pub open spec fn fed_tape(tape: Seq<u8>, rp: int, byte: Option<u8>) -> Seq<u8> {
    match byte {
        Some(b) => tape.update(rp, b),
        None => tape.update(rp, 0u8),
    }
}

/// Output and final action of running at most `fuel` steps, reading input
/// from `input`; `Continue` as final action means the fuel ran out.
pub open spec fn run_spec(
    prog: Seq<Instruction>,
    ip: int,
    rp: int,
    tape: Seq<u8>,
    input: Seq<u8>,
    fuel: nat,
) -> (Seq<u8>, Action)
    decreases fuel,
{
    if fuel == 0 {
        (Seq::empty(), Action::Continue)
    } else {
        let (ip2, rp2, tape2, a) = step_spec(prog, ip, rp, tape);
        match a {
            Action::Halt => (Seq::empty(), Action::Halt),
            Action::Fault => (Seq::empty(), Action::Fault),
            Action::Output(b) => {
                let (o, f) = run_spec(prog, ip2, rp2, tape2, input, (fuel - 1) as nat);
                (seq![b] + o, f)
            },
            Action::Input => {
                let byte = if input.len() > 0 { Some(input[0]) } else { None };
                let rest = if input.len() > 0 { input.drop_first() } else { input };
                run_spec(prog, ip2 + 1, rp2, fed_tape(tape2, rp2, byte), rest, (fuel - 1) as nat)
            },
            Action::Continue => run_spec(prog, ip2, rp2, tape2, input, (fuel - 1) as nat),
        }
    }
}

impl Machine {
    pub open spec fn wf(&self) -> bool {
        &&& self.registers@.len() == NUM_REGISTERS
        &&& self.rp < NUM_REGISTERS
    }

    /// A machine at the start of a program: both pointers at zero, tape clear.
    pub fn new() -> (m: Machine)
        ensures
            m.wf(),
            m.ip == 0,
            m.rp == 0,
            m.registers@ == Seq::new(NUM_REGISTERS as nat, |_k: int| 0u8),
    {
        let registers = vec![0u8; NUM_REGISTERS];
        Machine { ip: 0, rp: 0, registers }
    }

    /// Executes the instruction at the instruction pointer, unless it is an
    /// `Input`, which waits for `feed`.
    pub fn step(&mut self, prog: &[Instruction]) -> (a: Action)
        requires
            old(self).wf(),
        ensures
            final(self).wf(),
            (final(self).ip as int, final(self).rp as int, final(self).registers@, a) == step_spec(
                prog@,
                old(self).ip as int,
                old(self).rp as int,
                old(self).registers@,
            ),
    {
        if self.ip >= prog.len() {
            return Action::Halt;
        }
        let inst = prog[self.ip];
        match inst {
            Instruction::Output => {
                self.ip = self.ip + 1;
                Action::Output(self.registers[self.rp])
            },
            Instruction::Input => Action::Input,
            Instruction::JumpZ(Jump::Location(t)) => {
                if self.registers[self.rp] == 0 {
                    self.ip = t as usize;
                } else {
                    self.ip = self.ip + 1;
                }
                Action::Continue
            },
            Instruction::JumpNz(Jump::Location(t)) => {
                if self.registers[self.rp] != 0 {
                    self.ip = t as usize;
                } else {
                    self.ip = self.ip + 1;
                }
                Action::Continue
            },
            Instruction::JumpZ(Jump::Redundant) | Instruction::JumpNz(Jump::Redundant) => {
                self.ip = self.ip + 1;
                Action::Continue
            },
            _ => {
                if apply_exec(&mut self.registers, &mut self.rp, inst) {
                    self.ip = self.ip + 1;
                    Action::Continue
                } else {
                    Action::Fault
                }
            },
        }
    }

    /// Completes a pending `Input` with the byte read, or with `None` at the
    /// end of input, which clears the cell. Elsewhere it does nothing.
    pub fn feed(&mut self, prog: &[Instruction], byte: Option<u8>)
        requires
            old(self).wf(),
        ensures
            final(self).wf(),
            old(self).ip < prog@.len() && prog@[old(self).ip as int] is Input ==> final(self).ip == old(
                self,
            ).ip + 1 && final(self).rp == old(self).rp && final(self).registers@ == fed_tape(
                old(self).registers@,
                old(self).rp as int,
                byte,
            ),
            !(old(self).ip < prog@.len() && prog@[old(self).ip as int] is Input) ==> *final(self)
                == *old(self),
    {
        if self.ip < prog.len() {
            if let Instruction::Input = prog[self.ip] {
                match byte {
                    Some(b) => self.registers.set(self.rp, b),
                    None => self.registers.set(self.rp, 0),
                }
                self.ip = self.ip + 1;
            }
        }
    }
}

/// Runs a program from a fresh machine for at most `fuel` steps, taking input
/// bytes from `input`; returns the bytes written and the last action, which is
/// `Halt` on normal completion.
pub fn run_program(prog: &[Instruction], input: &[u8], fuel: usize) -> (r: (Vec<u8>, Action))
    ensures
        (r.0@, r.1) == run_spec(
            prog@,
            0,
            0,
            Seq::new(NUM_REGISTERS as nat, |_k: int| 0u8),
            input@,
            fuel as nat,
        ),
{
    let mut m = Machine::new();
    let mut out: Vec<u8> = Vec::new();
    let mut pos: usize = 0;
    let mut left: usize = fuel;
    let ghost total = run_spec(prog@, 0, 0, m.registers@, input@, fuel as nat);
    assert(input@.subrange(0, input@.len() as int) == input@);
    assert(out@ + total.0 == total.0);
    while left > 0
        invariant
            total == run_spec(
                prog@,
                0,
                0,
                Seq::new(NUM_REGISTERS as nat, |_k: int| 0u8),
                input@,
                fuel as nat,
            ),
            m.wf(),
            pos <= input@.len(),
            ({
                let (o, f) = run_spec(
                    prog@,
                    m.ip as int,
                    m.rp as int,
                    m.registers@,
                    input@.subrange(pos as int, input@.len() as int),
                    left as nat,
                );
                (out@ + o, f) == total
            }),
        decreases left,
    {
        let ghost rest = input@.subrange(pos as int, input@.len() as int);
        let a = m.step(prog);
        left = left - 1;
        match a {
            Action::Halt | Action::Fault => {
                assert(out@ + Seq::<u8>::empty() == out@);
                return (out, a);
            },
            Action::Output(b) => {
                let ghost prev = out@;
                out.push(b);
                assert(prev + (seq![b] + run_spec(prog@, m.ip as int, m.rp as int, m.registers@, rest, left as nat).0) == out@ + run_spec(prog@, m.ip as int, m.rp as int, m.registers@, rest, left as nat).0);
            },
            Action::Input => {
                if pos < input.len() {
                    m.feed(prog, Some(input[pos]));
                    assert(rest.drop_first() == input@.subrange(pos + 1, input@.len() as int));
                    pos = pos + 1;
                } else {
                    m.feed(prog, None);
                }
            },
            Action::Continue => {},
        }
    }
    assert(out@ + Seq::<u8>::empty() == out@);
    (out, Action::Continue)
}

/// Wrapping add of `v` to a cell.
fn cell_add(a: u8, v: u8) -> (r: u8)
    ensures
        r == wrap_add(a, v as int),
{
    a.wrapping_add(v)
}

/// Wrapping subtraction of `v` from a cell.
fn cell_sub(a: u8, v: u8) -> (r: u8)
    ensures
        r == wrap_sub(a, v as int),
{
    a.wrapping_sub(v)
}

/// Wrapping product of a multiplier and a cell, taken modulo 256.
fn cell_mul(k: u8, v: u8) -> (r: u8)
    ensures
        r as int == (k * v) % 256,
{
    k.wrapping_mul(v)
}

/// Performs one straight-line instruction on a tape; `false`, with the tape
/// and pointer untouched, where it would leave the tape.
pub fn apply_exec(tape: &mut Vec<u8>, rp: &mut usize, inst: Instruction) -> (ok: bool)
    requires
        old(tape)@.len() == NUM_REGISTERS,
        *old(rp) < NUM_REGISTERS,
        is_straight(inst),
    ensures
        ok == apply(old(tape)@, *old(rp) as int, inst) is Some,
        ok ==> (*final(rp) as int, final(tape)@) == apply(old(tape)@, *old(rp) as int, inst).unwrap(),
        !ok ==> *final(rp) == *old(rp) && final(tape)@ == old(tape)@,
        final(tape)@.len() == NUM_REGISTERS,
        *final(rp) < NUM_REGISTERS,
{
    let p = *rp;
    match inst {
        Instruction::Shl(n) => {
            if p < n as usize {
                return false;
            }
            *rp = p - n as usize;
        },
        Instruction::Shr(n) => {
            if p + n as usize >= NUM_REGISTERS {
                return false;
            }
            *rp = p + n as usize;
        },
        Instruction::Inc(n) => {
            let v = cell_add(tape[p], n);
            tape.set(p, v);
        },
        Instruction::Dec(n) => {
            let v = cell_sub(tape[p], n);
            tape.set(p, v);
        },
        Instruction::Zero(o) | Instruction::Add(o) | Instruction::Sub(o) | Instruction::AddMul(o, _)
        | Instruction::SubMul(o, _) => {
            let x = p as i64 + o as i64;
            if x < 0 || x >= NUM_REGISTERS as i64 {
                return false;
            }
            let x = x as usize;
            let cur = tape[p];
            let target = tape[x];
            let v = match inst {
                Instruction::Add(_) => cell_add(target, cur),
                Instruction::Sub(_) => cell_sub(target, cur),
                Instruction::AddMul(_, k) => {
                    let m = cell_mul(k, cur);
                    proof { lemma_wrap_mul_add(target, k, cur); }
                    cell_add(target, m)
                },
                Instruction::SubMul(_, k) => {
                    let m = cell_mul(k, cur);
                    proof { lemma_wrap_mul_sub(target, k, cur); }
                    cell_sub(target, m)
                },
                _ => 0u8,
            };
            tape.set(x, v);
        },
        _ => {},
    }
    true
}

proof fn lemma_wrap_mul_add(t: u8, k: u8, v: u8)
    ensures
        wrap_add(t, (k * v) % 256) == wrap_add(t, k * v),
{
    let p = k * v;
    assert((t + p % 256) % 256 == (t + p) % 256) by (nonlinear_arith)
        requires p >= 0;
}

proof fn lemma_wrap_mul_sub(t: u8, k: u8, v: u8)
    ensures
        wrap_sub(t, (k * v) % 256) == wrap_sub(t, k * v),
{
    let p = k * v;
    assert((t - p % 256) % 256 == (t - p) % 256) by (nonlinear_arith)
        requires p >= 0;
}

} // verus!
