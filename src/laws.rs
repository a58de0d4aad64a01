use vstd::prelude::*;
use vstd::arithmetic::div_mod::lemma_add_mod_noop_right;
use crate::ir::{
    UNRESOLVED,
    combinable, combined_form, expand, expand_one, fresh_instruction, run_kind, saturated, tokens_of,
    Instruction, Jump, Token,
};
use crate::loops::{adds_after_clear, cleared, in_i16, inner_loop, loop_rewrite, rewrite_body, rewrite_one, scan, scan_step, Config, IterationDiff};
use crate::machine::{apply, cell_at, step_spec, wrap_add, wrap_sub, NUM_REGISTERS};

verus! {

/// Effect of executing one straight-line instruction `k` times in a row.
pub open spec fn apply_times(tape: Seq<u8>, rp: int, inst: Instruction, k: nat) -> Option<(int, Seq<u8>)>
    decreases k,
{
    if k == 0 {
        Some((rp, tape))
    } else {
        match apply_times(tape, rp, inst, (k - 1) as nat) {
            Some((r, t)) => apply(t, r, inst),
            None => None,
        }
    }
}

/// Effect of executing a loop body once as straight-line code.
pub open spec fn run_straight(body: Seq<Instruction>, rp: int, tape: Seq<u8>) -> Option<(int, Seq<u8>)>
    decreases body.len(),
{
    if body.len() == 0 {
        Some((rp, tape))
    } else {
        match run_straight(body.drop_last(), rp, tape) {
            Some((r, t)) => apply(t, r, body.last()),
            None => None,
        }
    }
}

proof fn lemma_wrap_add_add(x: u8, a: int, b: int)
    ensures
        wrap_add(wrap_add(x, a), b) == wrap_add(x, a + b),
{
    lemma_add_mod_noop_right(b, x + a, 256);
}

/// One more `Add(o)` or `Sub(o)` on a tape where the cell at the offset has
/// already received `m`.
proof fn lemma_add_once(tape: Seq<u8>, rp: int, o: i16, inst: Instruction, sign: int, m: int)
    requires
        tape.len() == NUM_REGISTERS,
        0 <= rp < NUM_REGISTERS,
        o != 0,
        cell_at(rp, o as int) is Some,
        (inst == Instruction::Add(o) && sign == 1) || (inst == Instruction::Sub(o) && sign == -1),
    ensures
        apply(tape.update(rp + o, wrap_add(tape[rp + o], m)), rp, inst) == Some((rp, tape.update(rp + o, wrap_add(tape[rp + o], m + sign * tape[rp])))),
{
    let x = rp + o;
    let c = tape[rp] as int;
    let prev = tape.update(x, wrap_add(tape[x], m));
    assert(prev[rp] == tape[rp]);
    assert(cell_at(rp, o as int) == Some(x));
    if sign == 1 {
        lemma_wrap_add_add(tape[x], m, c);
        assert(sign * c == c) by (nonlinear_arith)
            requires sign == 1;
        assert(apply(prev, rp, inst) == Some((rp, prev.update(x, wrap_add(prev[x], c)))));
    } else {
        lemma_wrap_add_add(tape[x], m, -c);
        assert(sign * c == -c) by (nonlinear_arith)
            requires sign == -1;
        assert(wrap_sub(prev[x], c) == wrap_add(prev[x], -c));
        assert(apply(prev, rp, inst) == Some((rp, prev.update(x, wrap_add(prev[x], -c)))));
    }
    assert(prev.update(x, wrap_add(tape[x], m + sign * c)) =~= tape.update(x, wrap_add(tape[x], m + sign * c)));
}

/// `k` successive `Add(o)` or `Sub(o)` (chosen by `sign`) add `sign * k` times
/// the current cell to the cell at the offset.
proof fn lemma_add_times(tape: Seq<u8>, rp: int, o: i16, k: nat, inst: Instruction, sign: int)
    requires
        tape.len() == NUM_REGISTERS,
        0 <= rp < NUM_REGISTERS,
        o != 0,
        cell_at(rp, o as int) is Some,
        (inst == Instruction::Add(o) && sign == 1) || (inst == Instruction::Sub(o) && sign == -1),
    ensures
        apply_times(tape, rp, inst, k) == Some((rp, tape.update(rp + o, wrap_add(tape[rp + o], sign * (k * tape[rp]))))),
    decreases k,
{
    let x = rp + o;
    let c = tape[rp] as int;
    if k == 0 {
        assert(sign * (0 * c) == 0) by (nonlinear_arith);
        assert(wrap_add(tape[x], 0) == tape[x]);
        assert(tape.update(x, tape[x]) =~= tape);
    } else {
        lemma_add_times(tape, rp, o, (k - 1) as nat, inst, sign);
        let m = sign * ((k - 1) * c);
        lemma_add_once(tape, rp, o, inst, sign, m);
        assert(m + sign * c == sign * (k * c)) by (nonlinear_arith)
            requires m == sign * ((k - 1) * c);
    }
}

/// Multiplying instructions wrap modulo 256 as repeated additions do:
/// `AddMul(o, k)` has the effect of `k` successive `Add(o)`, and `SubMul(o, k)`
/// that of `k` successive `Sub(o)`, all reading the current cell as it was on
/// entry (which they do not change, as the offset is not zero).
pub proof fn multiply_is_repeated_add(tape: Seq<u8>, rp: int, o: i16, k: u8)
    requires
        tape.len() == NUM_REGISTERS,
        0 <= rp < NUM_REGISTERS,
        o != 0,
        k >= 1,
    ensures
        apply(tape, rp, Instruction::AddMul(o, k)) == apply_times(tape, rp, Instruction::Add(o), k as nat),
        apply(tape, rp, Instruction::SubMul(o, k)) == apply_times(tape, rp, Instruction::Sub(o), k as nat),
{
    if cell_at(rp, o as int) is Some {
        lemma_add_times(tape, rp, o, k as nat, Instruction::Add(o), 1);
        lemma_add_times(tape, rp, o, k as nat, Instruction::Sub(o), -1);
        assert(wrap_sub(tape[rp + o], k * tape[rp]) == wrap_add(tape[rp + o], -1 * (k * tape[rp])));
    } else {
        lemma_apply_times_off_tape(tape, rp, Instruction::Add(o), k as nat);
        lemma_apply_times_off_tape(tape, rp, Instruction::Sub(o), k as nat);
    }
}

proof fn lemma_apply_times_off_tape(tape: Seq<u8>, rp: int, inst: Instruction, k: nat)
    requires
        k >= 1,
        apply(tape, rp, inst) is None,
        inst is Add || inst is Sub,
    ensures
        apply_times(tape, rp, inst, k) is None,
    decreases k,
{
    if k > 1 {
        lemma_apply_times_off_tape(tape, rp, inst, (k - 1) as nat);
    } else {
        assert(apply_times(tape, rp, inst, 0) == Some((rp, tape)));
    }
}

/// What the summary of a loop body says of the cell where the body started.
pub open spec fn summary_holds(d: IterationDiff, before: u8, after: u8) -> bool {
    match d {
        IterationDiff::Diff(a) => after == wrap_add(before, a as int),
        IterationDiff::Zeroed => after == 0,
        IterationDiff::ZeroedDiff(a) => after == wrap_add(0, a as int),
    }
}

/// What the analysis records holds of the pointer and the induction cell.
pub open spec fn tracks(off: int, d: IterationDiff, rp: int, before: u8, r: int, t: Seq<u8>) -> bool {
    &&& r == rp + off
    &&& t.len() == NUM_REGISTERS
    &&& 0 <= r < NUM_REGISTERS
    &&& summary_holds(d, before, t[rp])
}

proof fn lemma_scan_sound_step(off: int, d: IterationDiff, inst: Instruction, rp: int, before: u8, r: int, t: Seq<u8>)
    requires
        0 <= rp < NUM_REGISTERS,
        tracks(off, d, rp, before, r, t),
        scan_step(off, d, inst) is Some,
        apply(t, r, inst) is Some,
    ensures
        tracks(scan_step(off, d, inst).unwrap().0, scan_step(off, d, inst).unwrap().1, rp, before, apply(t, r, inst).unwrap().0, apply(t, r, inst).unwrap().1),
{
    match inst {
        Instruction::Inc(n) => {
            if off == 0 {
                match d {
                    IterationDiff::Diff(a) => lemma_wrap_add_add(before, a as int, n as int),
                    IterationDiff::Zeroed => {},
                    IterationDiff::ZeroedDiff(a) => lemma_wrap_add_add(0, a as int, n as int),
                }
            }
        },
        Instruction::Dec(n) => {
            if off == 0 {
                match d {
                    IterationDiff::Diff(a) => lemma_wrap_add_add(before, a as int, -(n as int)),
                    IterationDiff::Zeroed => {},
                    IterationDiff::ZeroedDiff(a) => lemma_wrap_add_add(0, a as int, -(n as int)),
                }
            }
        },
        _ => {},
    }
}

proof fn lemma_scan_sound(body: Seq<Instruction>, rp: int, tape: Seq<u8>)
    requires
        tape.len() == NUM_REGISTERS,
        0 <= rp < NUM_REGISTERS,
        scan(body) is Some,
        run_straight(body, rp, tape) is Some,
    ensures
        tracks(scan(body).unwrap().0, scan(body).unwrap().1, rp, tape[rp], run_straight(body, rp, tape).unwrap().0, run_straight(body, rp, tape).unwrap().1),
    decreases body.len(),
{
    if body.len() == 0 {
        assert(wrap_add(tape[rp], 0) == tape[rp]);
    } else {
        let pre = body.drop_last();
        lemma_scan_sound(pre, rp, tape);
        let (off, d) = scan(pre).unwrap();
        let (r, t) = run_straight(pre, rp, tape).unwrap();
        lemma_scan_sound_step(off, d, body.last(), rp, tape[rp], r, t);
    }
}

/// A closing jump is marked redundant only where one pass of the loop body,
/// from any tape on which it stays on the tape, ends back at the loop's cell
/// with that cell at zero, so the jump can never branch.
pub proof fn redundant_jump_is_safe(cfg: Config, t: Seq<Instruction>, rp: int, tape: Seq<u8>)
    requires
        loop_rewrite(cfg, t).1 is MarkedRedundant,
        tape.len() == NUM_REGISTERS,
        0 <= rp < NUM_REGISTERS,
        run_straight(t.subrange(1, inner_loop(t).unwrap()), rp, tape) is Some,
    ensures
        ({
            let (r, after) = run_straight(t.subrange(1, inner_loop(t).unwrap()), rp, tape).unwrap();
            r == rp && after[rp] == 0
        }),
{
    let body = t.subrange(1, inner_loop(t).unwrap());
    lemma_scan_sound(body, rp, tape);
    assert(wrap_add(0, 0) == 0);
}

/// Pointer offset after a sequence of instructions, counting only shifts.
pub open spec fn offset_of(b: Seq<Instruction>) -> int
    decreases b.len(),
{
    if b.len() == 0 {
        0
    } else {
        offset_of(b.drop_last()) + match b.last() {
            Instruction::Shl(n) => -(n as int),
            Instruction::Shr(n) => n as int,
            _ => 0int,
        }
    }
}

/// Net amount that one pass of `b` adds to the cell at offset `o` from where
/// it starts.
pub open spec fn net_add(b: Seq<Instruction>, o: int) -> int
    decreases b.len(),
{
    if b.len() == 0 {
        0
    } else {
        let off = offset_of(b.drop_last());
        net_add(b.drop_last(), o) + match b.last() {
            Instruction::Inc(n) => if off == o { n as int } else { 0int },
            Instruction::Dec(n) => if off == o { -(n as int) } else { 0int },
            _ => 0int,
        }
    }
}

/// Every position that a pass of `b` from `rp` visits lies on the tape.
pub open spec fn stays_on_tape(b: Seq<Instruction>, rp: int) -> bool {
    forall|k: int| 0 <= k <= b.len() ==> 0 <= rp + #[trigger] offset_of(b.subrange(0, k)) < NUM_REGISTERS
}

/// Every cell that a pass of `b` from `rp` clears lies on the tape.
pub open spec fn clears_on_tape(b: Seq<Instruction>, rp: int) -> bool {
    forall|x: int| #[trigger] cleared(b, x) ==> 0 <= rp + x < NUM_REGISTERS
}

/// Effect of executing a loop body `c` times in a row.
pub open spec fn iterate(b: Seq<Instruction>, rp: int, tape: Seq<u8>, c: nat) -> Option<(int, Seq<u8>)>
    decreases c,
{
    if c == 0 {
        Some((rp, tape))
    } else {
        match iterate(b, rp, tape, (c - 1) as nat) {
            Some((r, t)) => run_straight(b, r, t),
            None => None,
        }
    }
}

/// The tape after `m` passes of `b` from `rp`: a cell that `b` clears is zero
/// once a pass has run; every other cell has received `m` times the net amount
/// of `b` at its offset.
pub open spec fn scaled_tape(b: Seq<Instruction>, rp: int, tape: Seq<u8>, m: int) -> Seq<u8> {
    Seq::new(
        NUM_REGISTERS as nat,
        |x: int| if m >= 1 && cleared(b, x - rp) { 0u8 } else { wrap_add(tape[x], m * net_add(b, x - rp)) },
    )
}

proof fn lemma_stays_prefix(b: Seq<Instruction>, rp: int)
    requires
        b.len() > 0,
        stays_on_tape(b, rp),
    ensures
        stays_on_tape(b.drop_last(), rp),
{
    assert forall|k: int| 0 <= k <= b.drop_last().len() implies 0 <= rp + #[trigger] offset_of(
        b.drop_last().subrange(0, k),
    ) < NUM_REGISTERS by {
        assert(b.drop_last().subrange(0, k) =~= b.subrange(0, k));
        assert(0 <= rp + offset_of(b.subrange(0, k)) < NUM_REGISTERS);
    }
}

/// The offsets that the analysis tracks are those of `offset_of`; while the
/// summary is a plain `Diff`, it is the net amount at offset zero and the
/// induction cell has not been cleared.
proof fn lemma_scan_offsets(b: Seq<Instruction>)
    requires
        scan(b) is Some,
    ensures
        scan(b).unwrap().0 == offset_of(b),
        scan(b).unwrap().1 is Diff ==> scan(b).unwrap().1 == IterationDiff::Diff(net_add(b, 0) as i16),
        scan(b).unwrap().1 is Diff ==> in_i16(net_add(b, 0)),
        scan(b).unwrap().1 is Diff ==> !cleared(b, 0),
        b.len() > 0 && scan(b).unwrap().1 is Diff ==> scan(b.drop_last()).unwrap().1 is Diff,
        in_i16(offset_of(b)),
        forall|k: int| 0 <= k < b.len() ==> (#[trigger] b[k] is Shl || b[k] is Shr || b[k] is Inc || b[k] is Dec || b[k] is Zero),
    decreases b.len(),
{
    if b.len() > 0 {
        let pre = b.drop_last();
        lemma_scan_offsets(pre);
        assert forall|k: int| 0 <= k < b.len() implies (#[trigger] b[k] is Shl || b[k] is Shr || b[k] is Inc || b[k] is Dec || b[k] is Zero) by {
            if k < pre.len() {
                assert(pre[k] == b[k]);
            }
        }
    }
}

/// What a rewritable copy-loop body satisfies, stated of a prefix as well.
pub open spec fn copy_body(b: Seq<Instruction>, rp: int) -> bool {
    &&& scan(b) is Some
    &&& scan(b).unwrap().1 is Diff
    &&& !adds_after_clear(b)
    &&& stays_on_tape(b, rp)
    &&& clears_on_tape(b, rp)
}

proof fn lemma_copy_body_prefix(b: Seq<Instruction>, rp: int)
    requires
        b.len() > 0,
        copy_body(b, rp),
    ensures
        copy_body(b.drop_last(), rp),
{
    lemma_scan_offsets(b);
    lemma_stays_prefix(b, rp);
    let pre = b.drop_last();
    assert forall|x: int| #[trigger] cleared(pre, x) implies 0 <= rp + x < NUM_REGISTERS by {
        assert(cleared(b, x));
    }
}

/// One pass of a copy-loop body adds its net amounts and clears what it clears.
proof fn lemma_one_pass(b: Seq<Instruction>, rp: int, tape: Seq<u8>)
    requires
        tape.len() == NUM_REGISTERS,
        copy_body(b, rp),
    ensures
        run_straight(b, rp, tape) == Some((rp + offset_of(b), scaled_tape(b, rp, tape, 1))),
    decreases b.len(),
{
    lemma_scan_offsets(b);
    if b.len() == 0 {
        assert(0 <= rp + offset_of(b.subrange(0, 0)) < NUM_REGISTERS);
        assert(b.subrange(0, 0) =~= b);
        assert forall|x: int| 0 <= x < NUM_REGISTERS implies scaled_tape(b, rp, tape, 1)[x] == tape[x] by {
            assert(1 * net_add(b, x - rp) == 0);
        }
        assert(scaled_tape(b, rp, tape, 1) =~= tape);
    } else {
        let pre = b.drop_last();
        lemma_copy_body_prefix(b, rp);
        lemma_one_pass(pre, rp, tape);
        lemma_one_pass_step(b, rp, tape);
    }
}

/// The last instruction of a copy-loop body, after one pass of the rest.
#[verifier::rlimit(100)]
proof fn lemma_one_pass_step(b: Seq<Instruction>, rp: int, tape: Seq<u8>)
    requires
        tape.len() == NUM_REGISTERS,
        b.len() > 0,
        copy_body(b, rp),
        copy_body(b.drop_last(), rp),
        run_straight(b.drop_last(), rp, tape) == Some((rp + offset_of(b.drop_last()), scaled_tape(b.drop_last(), rp, tape, 1))),
    ensures
        run_straight(b, rp, tape) == Some((rp + offset_of(b), scaled_tape(b, rp, tape, 1))),
{
    lemma_scan_offsets(b);
    let pre = b.drop_last();
    lemma_scan_offsets(pre);
    let off = offset_of(pre);
    let r = rp + off;
    let t = scaled_tape(pre, rp, tape, 1);
    assert(b.subrange(0, b.len() as int) =~= b);
    assert(b.subrange(0, pre.len() as int) =~= pre);
    assert(0 <= rp + offset_of(b.subrange(0, pre.len() as int)) < NUM_REGISTERS);
    assert(0 <= rp + offset_of(b.subrange(0, b.len() as int)) < NUM_REGISTERS);
    let inst = b.last();
    match inst {
        Instruction::Inc(n) => {
            assert(!cleared(pre, off));
            assert forall|x: int| 0 <= x < NUM_REGISTERS implies #[trigger] t.update(r, wrap_add(t[r], n as int))[x] == scaled_tape(b, rp, tape, 1)[x] by {
                assert(cleared(b, x - rp) == cleared(pre, x - rp));
                if x == r {
                    lemma_wrap_add_add(tape[x], net_add(pre, x - rp), n as int);
                }
            }
            assert(t.update(r, wrap_add(t[r], n as int)) =~= scaled_tape(b, rp, tape, 1));
        },
        Instruction::Dec(n) => {
            assert(!cleared(pre, off));
            assert forall|x: int| 0 <= x < NUM_REGISTERS implies #[trigger] t.update(r, wrap_sub(t[r], n as int))[x] == scaled_tape(b, rp, tape, 1)[x] by {
                assert(cleared(b, x - rp) == cleared(pre, x - rp));
                if x == r {
                    lemma_wrap_add_add(tape[x], net_add(pre, x - rp), -(n as int));
                }
            }
            assert(t.update(r, wrap_sub(t[r], n as int)) =~= scaled_tape(b, rp, tape, 1));
        },
        Instruction::Zero(o) => {
            let y = off + o;
            assert(cleared(b, y));
            assert(cell_at(r, o as int) == Some(rp + y));
            assert forall|x: int| 0 <= x < NUM_REGISTERS implies #[trigger] t.update(rp + y, 0u8)[x] == scaled_tape(b, rp, tape, 1)[x] by {
                assert(cleared(b, x - rp) == (cleared(pre, x - rp) || x - rp == y));
            }
            assert(t.update(rp + y, 0u8) =~= scaled_tape(b, rp, tape, 1));
        },
        _ => {
            assert forall|x: int| 0 <= x < NUM_REGISTERS implies #[trigger] t[x] == scaled_tape(b, rp, tape, 1)[x] by {
                assert(cleared(b, x - rp) == cleared(pre, x - rp));
            }
            assert(t =~= scaled_tape(b, rp, tape, 1));
        },
    }
}

proof fn lemma_wrap_zero(a: u8)
    ensures
        wrap_add(a, 0) == a,
{
}

/// `c` passes of a copy-loop body that ends where it began.
#[verifier::spinoff_prover]
proof fn lemma_iterate(b: Seq<Instruction>, rp: int, tape: Seq<u8>, c: nat)
    requires
        tape.len() == NUM_REGISTERS,
        copy_body(b, rp),
        offset_of(b) == 0,
    ensures
        iterate(b, rp, tape, c) == Some((rp, scaled_tape(b, rp, tape, c as int))),
    decreases c,
{
    if c == 0 {
        assert forall|x: int| 0 <= x < NUM_REGISTERS implies #[trigger] scaled_tape(b, rp, tape, 0)[x] == tape[x] by {
            assert(0 * net_add(b, x - rp) == 0);
            lemma_wrap_zero(tape[x]);
        }
        assert(scaled_tape(b, rp, tape, 0) =~= tape);
    } else {
        lemma_iterate(b, rp, tape, (c - 1) as nat);
        let t = scaled_tape(b, rp, tape, c - 1);
        lemma_one_pass(b, rp, t);
        assert forall|x: int| 0 <= x < NUM_REGISTERS implies #[trigger] scaled_tape(b, rp, t, 1)[x] == scaled_tape(b, rp, tape, c as int)[x] by {
            let m = net_add(b, x - rp);
            lemma_wrap_add_add(tape[x], (c - 1) * m, 1 * m);
            assert((c - 1) * m + 1 * m == c * m) by (nonlinear_arith);
        }
        assert(scaled_tape(b, rp, t, 1) =~= scaled_tape(b, rp, tape, c as int));
    }
}

/// Effect of straight-line code in which each `JumpZ, x, JumpNz(Redundant)`
/// runs `x` only where the current cell is not zero.
pub open spec fn run_code(r: Seq<Instruction>, rp: int, tape: Seq<u8>) -> Option<(int, Seq<u8>)>
    decreases r.len(),
{
    if r.len() == 0 {
        Some((rp, tape))
    } else if r.len() >= 3 && r[r.len() - 3] is JumpZ && r.last() == Instruction::JumpNz(Jump::Redundant) {
        match run_code(r.subrange(0, r.len() - 3), rp, tape) {
            Some((p, t)) => if t[p] == 0 { Some((p, t)) } else { apply(t, p, r[r.len() - 2]) },
            None => None,
        }
    } else {
        match run_code(r.drop_last(), rp, tape) {
            Some((p, t)) => apply(t, p, r.last()),
            None => None,
        }
    }
}

/// The tape after the code that replaces a copy loop, before its final clear:
/// each other cell has received the induction cell times its net amount, or,
/// where the body clears it and the induction cell is not zero, is zero.
pub open spec fn copied_tape(b: Seq<Instruction>, rp: int, tape: Seq<u8>) -> Seq<u8> {
    Seq::new(
        NUM_REGISTERS as nat,
        |x: int| if x == rp {
            tape[x]
        } else if tape[rp] != 0 && cleared(b, x - rp) {
            0u8
        } else {
            wrap_add(tape[x], tape[rp] * net_add(b, x - rp))
        },
    )
}

proof fn lemma_copied_bump(pre: Seq<Instruction>, b: Seq<Instruction>, rp: int, tape: Seq<u8>, x0: int, amount: int)
    requires
        tape.len() == NUM_REGISTERS,
        0 <= rp < NUM_REGISTERS,
        0 <= x0 < NUM_REGISTERS,
        x0 != rp,
        !cleared(pre, x0 - rp),
        forall|x: int| #[trigger] cleared(b, x - rp) == cleared(pre, x - rp),
        forall|x: int| #[trigger] net_add(b, x - rp) == net_add(pre, x - rp) + (if x == x0 { amount } else { 0 }),
    ensures
        copied_tape(pre, rp, tape).update(x0, wrap_add(copied_tape(pre, rp, tape)[x0], amount * tape[rp])) == copied_tape(b, rp, tape),
{
    let t = copied_tape(pre, rp, tape);
    let c = tape[rp] as int;
    let v = wrap_add(t[x0], amount * c);
    assert forall|x: int| 0 <= x < NUM_REGISTERS implies #[trigger] t.update(x0, v)[x] == copied_tape(b, rp, tape)[x] by {
        assert(net_add(b, x - rp) == net_add(pre, x - rp) + (if x == x0 { amount } else { 0 }));
        assert(cleared(b, x - rp) == cleared(pre, x - rp));
        if x == x0 {
            let m = net_add(pre, x - rp);
            lemma_wrap_add_add(tape[x], c * m, amount * c);
            assert(c * m + amount * c == c * (m + amount)) by (nonlinear_arith);
        }
    }
    assert(t.update(x0, v) =~= copied_tape(b, rp, tape));
}

/// The guarded clear that replaces a `Zero` at the end of `b`.
#[verifier::spinoff_prover]
proof fn lemma_replacement_clear(b: Seq<Instruction>, rp: int, tape: Seq<u8>)
    requires
        tape.len() == NUM_REGISTERS,
        0 <= rp < NUM_REGISTERS,
        b.len() > 0,
        b.last() is Zero,
        copy_body(b, rp),
        run_code(rewrite_body(b.drop_last()), rp, tape) == Some((rp, copied_tape(b.drop_last(), rp, tape))),
    ensures
        run_code(rewrite_body(b), rp, tape) == Some((rp, copied_tape(b, rp, tape))),
{
    let pre = b.drop_last();
    lemma_scan_offsets(b);
    lemma_scan_offsets(pre);
    let c = tape[rp] as int;
    let off = offset_of(pre);
    let t = copied_tape(pre, rp, tape);
    let inst = b.last();
    let one = rewrite_one(off, inst);
    assert(rewrite_body(b) == rewrite_body(pre) + one);
    assert(t[rp] == tape[rp]);
    let o = match inst { Instruction::Zero(o) => o as int, _ => 0int };
        let y = off + o;
        assert(y != 0);
        assert(cleared(b, y));
        let guard = seq![
            Instruction::JumpZ(Jump::Location(UNRESOLVED)),
            Instruction::Zero(y as i16),
            Instruction::JumpNz(Jump::Redundant),
        ];
        assert(one == guard);
        let r = rewrite_body(pre) + one;
        assert(r.subrange(0, r.len() - 3) =~= rewrite_body(pre));
        assert(r[r.len() - 2] == Instruction::Zero(y as i16));
        assert forall|x: int| #[trigger] cleared(b, x - rp) == (cleared(pre, x - rp) || x - rp == y) by {}
        assert forall|x: int| #[trigger] net_add(b, x - rp) == net_add(pre, x - rp) by {}
        if c == 0 {
            assert(t =~= copied_tape(b, rp, tape));
        } else {
            assert(cell_at(rp, y) == Some(rp + y));
            assert(t.update(rp + y, 0u8) =~= copied_tape(b, rp, tape));
        }
}

/// The replacement of the last body instruction of `b` carries the copied
/// tape of the rest of the body to that of `b`.
#[verifier::spinoff_prover]
#[verifier::rlimit(100)]
proof fn lemma_replacement_step(b: Seq<Instruction>, rp: int, tape: Seq<u8>)
    requires
        tape.len() == NUM_REGISTERS,
        0 <= rp < NUM_REGISTERS,
        b.len() > 0,
        copy_body(b, rp),
        run_code(rewrite_body(b.drop_last()), rp, tape) == Some((rp, copied_tape(b.drop_last(), rp, tape))),
    ensures
        run_code(rewrite_body(b), rp, tape) == Some((rp, copied_tape(b, rp, tape))),
{
    let pre = b.drop_last();
    lemma_scan_offsets(b);
    lemma_copy_body_prefix(b, rp);
    lemma_scan_offsets(pre);
    let c = tape[rp] as int;
    let off = offset_of(pre);
    let t = copied_tape(pre, rp, tape);
    let inst = b.last();
    let one = rewrite_one(off, inst);
    let x0 = rp + off;
    assert(rewrite_body(b) == rewrite_body(pre) + one);
    assert(b.subrange(0, pre.len() as int) =~= pre);
    assert(0 <= rp + offset_of(b.subrange(0, pre.len() as int)) < NUM_REGISTERS);
    assert(t[rp] == tape[rp]);
    let grows = match inst {
        Instruction::Inc(n) => off != 0,
        Instruction::Dec(n) => off != 0,
        _ => false,
    };
    if grows {
        let (i2, amount) = match inst {
            Instruction::Inc(n) => (if n == 1 { Instruction::Add(off as i16) } else { Instruction::AddMul(off as i16, n) }, n as int),
            Instruction::Dec(n) => (if n == 1 { Instruction::Sub(off as i16) } else { Instruction::SubMul(off as i16, n) }, -(n as int)),
            _ => (inst, 0int),
        };
        assert(one == seq![i2]);
        assert((rewrite_body(pre) + one).drop_last() =~= rewrite_body(pre));
        assert(!cleared(pre, off));
        let v = wrap_add(t[x0], amount * c);
        assert(cell_at(rp, off) == Some(x0));
        assert(apply(t, rp, i2) == Some((rp, t.update(x0, v)))) by {
            if let Instruction::Dec(n) = inst {
                assert(amount * c == -((n as int) * c)) by (nonlinear_arith)
                    requires amount == -(n as int);
                assert(wrap_sub(t[x0], (n as int) * c) == v);
                assert((n as int) == 1 ==> (n as int) * c == c);
            } else if let Instruction::Inc(n) = inst {
                assert(amount * c == (n as int) * c);
                assert((n as int) == 1 ==> (n as int) * c == c);
            }
        }
        assert forall|x: int| #[trigger] net_add(b, x - rp) == net_add(pre, x - rp) + (if x == x0 { amount } else { 0 }) by {}
        assert forall|x: int| #[trigger] cleared(b, x - rp) == cleared(pre, x - rp) by {}
        lemma_copied_bump(pre, b, rp, tape, x0, amount);
    } else if inst is Zero {
        lemma_replacement_clear(b, rp, tape);
    } else {
        assert(one == Seq::<Instruction>::empty());
        assert(rewrite_body(pre) + one =~= rewrite_body(pre));
        assert forall|x: int| x != rp implies #[trigger] cleared(b, x - rp) == cleared(pre, x - rp) by {}
        assert forall|x: int| x != rp implies #[trigger] net_add(b, x - rp) == net_add(pre, x - rp) by {}
        assert(t =~= copied_tape(b, rp, tape));
    }
}

proof fn lemma_replacement(b: Seq<Instruction>, rp: int, tape: Seq<u8>)
    requires
        tape.len() == NUM_REGISTERS,
        0 <= rp < NUM_REGISTERS,
        copy_body(b, rp),
    ensures
        run_code(rewrite_body(b), rp, tape) == Some((rp, copied_tape(b, rp, tape))),
    decreases b.len(),
{
    if b.len() == 0 {
        assert forall|x: int| 0 <= x < NUM_REGISTERS implies #[trigger] copied_tape(b, rp, tape)[x] == tape[x] by {
            assert(tape[rp] * 0 == 0);
            lemma_wrap_zero(tape[x]);
        }
        assert(copied_tape(b, rp, tape) =~= tape);
    } else {
        lemma_copy_body_prefix(b, rp);
        lemma_replacement(b.drop_last(), rp, tape);
        lemma_replacement_step(b, rp, tape);
    }
}

/// The rewrite of a copy loop is faithful: its replacement, run once with each
/// guarded clear taken only where the induction cell is not zero, leaves the
/// tape as running the body as many times as the induction cell counts, which
/// brings that cell to zero.
#[verifier::spinoff_prover]
#[verifier::rlimit(100)]
pub proof fn copy_loop_rewrite_is_sound(b: Seq<Instruction>, rp: int, tape: Seq<u8>)
    requires
        tape.len() == NUM_REGISTERS,
        0 <= rp < NUM_REGISTERS,
        scan(b) == Some((0int, IterationDiff::Diff(-1i16))),
        !adds_after_clear(b),
        stays_on_tape(b, rp),
        clears_on_tape(b, rp),
    ensures
        run_code(rewrite_body(b).push(Instruction::Zero(0)), rp, tape) == iterate(b, rp, tape, tape[rp] as nat),
        iterate(b, rp, tape, tape[rp] as nat) matches Some((r, after)) && r == rp && after[rp] == 0,
{
    lemma_scan_offsets(b);
    let c = tape[rp] as int;
    lemma_iterate(b, rp, tape, tape[rp] as nat);
    lemma_replacement(b, rp, tape);
    let t = copied_tape(b, rp, tape);
    let r = rewrite_body(b).push(Instruction::Zero(0));
    assert(r.drop_last() =~= rewrite_body(b));
    assert(cell_at(rp, 0) == Some(rp));
    assert(net_add(b, 0) == -1);
    let s = scaled_tape(b, rp, tape, c);
    assert forall|x: int| 0 <= x < NUM_REGISTERS implies #[trigger] t.update(rp, 0u8)[x] == s[x] by {
        if x == rp {
            assert(c * -1 == -c);
        } else {
            assert(tape[rp] * net_add(b, x - rp) == c * net_add(b, x - rp));
        }
    }
    assert(t.update(rp, 0u8) =~= s);
}

/// Instruction pointer, cell pointer and tape after `n` interpreter steps.
pub open spec fn steps(prog: Seq<Instruction>, ip: int, rp: int, tape: Seq<u8>, n: nat) -> (int, int, Seq<u8>)
    decreases n,
{
    if n == 0 {
        (ip, rp, tape)
    } else {
        let (ip2, rp2, tape2, _a) = step_spec(prog, ip, rp, tape);
        steps(prog, ip2, rp2, tape2, (n - 1) as nat)
    }
}

/// A linked clear loop `[-]` at index `i` of `prog`.
pub open spec fn clear_loop_at(prog: Seq<Instruction>, i: int) -> bool {
    &&& 0 <= i
    &&& i + 3 <= prog.len()
    &&& prog[i] == Instruction::JumpZ(Jump::Location((i + 3) as u32))
    &&& prog[i + 1] == Instruction::Dec(1)
    &&& prog[i + 2] == Instruction::JumpNz(Jump::Location((i + 1) as u32))
}

proof fn lemma_clear_loop_body(prog: Seq<Instruction>, i: int, rp: int, tape: Seq<u8>)
    requires
        clear_loop_at(prog, i),
        i + 3 <= 0xffff_ffff,
        tape.len() == NUM_REGISTERS,
        0 <= rp < NUM_REGISTERS,
        tape[rp] >= 1,
    ensures
        steps(prog, i + 1, rp, tape, (2 * tape[rp]) as nat) == (i + 3, rp, tape.update(rp, 0u8)),
    decreases tape[rp],
{
    let v = tape[rp];
    let t1 = tape.update(rp, (v - 1) as u8);
    assert(wrap_sub(v, 1) == (v - 1) as u8);
    assert(step_spec(prog, i + 1, rp, tape).0 == i + 2);
    assert(step_spec(prog, i + 1, rp, tape).2 == t1);
    assert(step_spec(prog, i + 1, rp, tape).1 == rp);
    let n = (2 * v) as nat;
    assert(steps(prog, i + 1, rp, tape, n) == steps(prog, i + 2, rp, t1, (n - 1) as nat));
    let next = if v == 1 { i + 3 } else { i + 1 };
    assert(step_spec(prog, i + 2, rp, t1) == (next, rp, t1, crate::machine::Action::Continue));
    assert(steps(prog, i + 2, rp, t1, (n - 1) as nat) == steps(prog, next, rp, t1, (n - 2) as nat));
    if v == 1 {
        assert(steps(prog, i + 3, rp, t1, 0) == (i + 3, rp, t1));
        assert(t1 =~= tape.update(rp, 0u8));
    } else {
        lemma_clear_loop_body(prog, i, rp, t1);
        assert(t1.update(rp, 0u8) =~= tape.update(rp, 0u8));
        assert((2 * v - 2) as nat == (2 * t1[rp]) as nat);
    }
}

/// A linked clear loop `[-]` takes the interpreter past itself with the
/// current cell at zero and nothing else changed, as `Zero(0)` does in a
/// single step.
pub proof fn clear_loop_matches_zero(prog: Seq<Instruction>, i: int, rp: int, tape: Seq<u8>)
    requires
        clear_loop_at(prog, i),
        i + 3 <= 0xffff_ffff,
        tape.len() == NUM_REGISTERS,
        0 <= rp < NUM_REGISTERS,
    ensures
        steps(prog, i, rp, tape, (1 + 2 * tape[rp]) as nat) == (i + 3, rp, tape.update(rp, 0u8)),
        apply(tape, rp, Instruction::Zero(0)) == Some((rp, tape.update(rp, 0u8))),
{
    assert(cell_at(rp, 0) == Some(rp));
    if tape[rp] == 0 {
        assert(steps(prog, i + 3, rp, tape, 0) == (i + 3, rp, tape));
        assert(tape.update(rp, 0u8) =~= tape);
    } else {
        lemma_clear_loop_body(prog, i, rp, tape);
        assert(step_spec(prog, i, rp, tape).0 == i + 1);
    }
}

proof fn lemma_steps_add(prog: Seq<Instruction>, ip: int, rp: int, tape: Seq<u8>, n: nat, m: nat)
    ensures
        steps(prog, ip, rp, tape, n + m) == ({
            let (a, b, c) = steps(prog, ip, rp, tape, n);
            steps(prog, a, b, c, m)
        }),
    decreases n,
{
    if n > 0 {
        let (ip2, rp2, tape2, _a) = step_spec(prog, ip, rp, tape);
        lemma_steps_add(prog, ip2, rp2, tape2, (n - 1) as nat, m);
        assert((n + m - 1) as nat == ((n - 1) as nat + m) as nat);
    }
}

/// Straight-line code that stands in `prog` from index `a` runs through the
/// interpreter as `run_straight` describes, one step per instruction.
proof fn lemma_segment(prog: Seq<Instruction>, a: int, b: Seq<Instruction>, rp: int, tape: Seq<u8>)
    requires
        0 <= a,
        a + b.len() <= prog.len(),
        prog.subrange(a, a + b.len()) == b,
        run_straight(b, rp, tape) is Some,
    ensures
        steps(prog, a, rp, tape, b.len()) == (a + b.len(), run_straight(b, rp, tape).unwrap().0, run_straight(b, rp, tape).unwrap().1),
    decreases b.len(),
{
    if b.len() > 0 {
        let pre = b.drop_last();
        assert(prog.subrange(a, a + pre.len()) =~= pre);
        lemma_segment(prog, a, pre, rp, tape);
        let (r, t) = run_straight(pre, rp, tape).unwrap();
        lemma_steps_add(prog, a, rp, tape, pre.len(), 1);
        let inst = b.last();
        assert(prog[a + pre.len()] == inst);
        assert(apply(t, r, inst) is Some);
        assert(steps(prog, a + b.len(), apply(t, r, inst).unwrap().0, apply(t, r, inst).unwrap().1, 0) == (a + b.len(), apply(t, r, inst).unwrap().0, apply(t, r, inst).unwrap().1));
    }
}

/// Interpreter steps that `run_code` stands for: one per instruction, and for a
/// guarded clear one when the current cell is zero and three otherwise.
pub open spec fn code_steps(r: Seq<Instruction>, rp: int, tape: Seq<u8>) -> nat
    decreases r.len(),
{
    if r.len() == 0 {
        0
    } else if r.len() >= 3 && r[r.len() - 3] is JumpZ && r.last() == Instruction::JumpNz(Jump::Redundant) {
        let x = r.subrange(0, r.len() - 3);
        let (p, t) = run_code(x, rp, tape).unwrap();
        code_steps(x, rp, tape) + if t[p] == 0 { 1nat } else { 3nat }
    } else {
        code_steps(r.drop_last(), rp, tape) + 1
    }
}

/// `prog` holds `r` from index `a`, with each `JumpZ` linked just past the
/// guarded instruction that follows it.
pub open spec fn holds_code(prog: Seq<Instruction>, a: int, r: Seq<Instruction>) -> bool {
    &&& 0 <= a
    &&& a + r.len() <= prog.len()
    &&& a + r.len() < 0xffff_ffff
    &&& forall|k: int|
        0 <= k < r.len() ==> #[trigger] prog[a + k] == if r[k] is JumpZ {
            Instruction::JumpZ(Jump::Location((a + k + 3) as u32))
        } else {
            r[k]
        }
}

proof fn lemma_holds_prefix(prog: Seq<Instruction>, a: int, r: Seq<Instruction>, m: int)
    requires
        holds_code(prog, a, r),
        0 <= m <= r.len(),
    ensures
        holds_code(prog, a, r.subrange(0, m)),
{
    let x = r.subrange(0, m);
    assert forall|k: int| 0 <= k < x.len() implies #[trigger] prog[a + k] == if x[k] is JumpZ {
        Instruction::JumpZ(Jump::Location((a + k + 3) as u32))
    } else {
        x[k]
    } by {
        assert(x[k] == r[k]);
        assert(prog[a + k] == if r[k] is JumpZ { Instruction::JumpZ(Jump::Location((a + k + 3) as u32)) } else { r[k] });
    }
}

/// Running a guarded clear at the end of `r`, after the code before it.
#[verifier::spinoff_prover]
proof fn lemma_code_guard_step(prog: Seq<Instruction>, a: int, r: Seq<Instruction>, rp: int, tape: Seq<u8>)
    requires
        holds_code(prog, a, r),
        r.len() >= 3,
        r[r.len() - 3] is JumpZ,
        r.last() == Instruction::JumpNz(Jump::Redundant),
        run_code(r, rp, tape) is Some,
        run_code(r.subrange(0, r.len() - 3), rp, tape) matches Some((p, t)) && steps(
            prog,
            a,
            rp,
            tape,
            code_steps(r.subrange(0, r.len() - 3), rp, tape),
        ) == (a + r.len() - 3, p, t),
    ensures
        steps(prog, a, rp, tape, code_steps(r, rp, tape)) == (a + r.len(), run_code(r, rp, tape).unwrap().0, run_code(r, rp, tape).unwrap().1),
{
    let n = r.len() as int;
    let x = r.subrange(0, n - 3);
    let (p, t) = run_code(x, rp, tape).unwrap();
    let m = code_steps(x, rp, tape);
    assert(prog[a + (n - 3)] == Instruction::JumpZ(Jump::Location((a + n) as u32)));
    assert(prog[a + (n - 1)] == r[n - 1]);
    if t[p] == 0 {
        lemma_steps_add(prog, a, rp, tape, m, 1);
        assert(steps(prog, a + n, p, t, 0) == (a + n, p, t));
    } else {
        lemma_steps_add(prog, a, rp, tape, m, 3);
        let (p2, t2) = apply(t, p, r[n - 2]).unwrap();
        assert(!(r[n - 2] is JumpZ || r[n - 2] is JumpNz || r[n - 2] is Output || r[n - 2] is Input));
        assert(prog[a + (n - 2)] == r[n - 2]);
        assert(step_spec(prog, a + n - 3, p, t) == (a + n - 2, p, t, crate::machine::Action::Continue));
        assert(step_spec(prog, a + n - 2, p, t) == (a + n - 1, p2, t2, crate::machine::Action::Continue));
        assert(step_spec(prog, a + n - 1, p2, t2) == (a + n, p2, t2, crate::machine::Action::Continue));
        assert(steps(prog, a + n, p2, t2, 0) == (a + n, p2, t2));
        assert(steps(prog, a + n - 1, p2, t2, 1) == (a + n, p2, t2));
        assert(steps(prog, a + n - 2, p, t, 2) == (a + n, p2, t2));
    }
}

/// Running the last plain instruction of `r`, after the code before it.
#[verifier::spinoff_prover]
proof fn lemma_code_plain_step(prog: Seq<Instruction>, a: int, r: Seq<Instruction>, rp: int, tape: Seq<u8>)
    requires
        holds_code(prog, a, r),
        r.len() >= 1,
        !(r.len() >= 3 && r[r.len() - 3] is JumpZ && r.last() == Instruction::JumpNz(Jump::Redundant)),
        run_code(r, rp, tape) is Some,
        run_code(r.drop_last(), rp, tape) matches Some((p, t)) && steps(
            prog,
            a,
            rp,
            tape,
            code_steps(r.drop_last(), rp, tape),
        ) == (a + r.len() - 1, p, t),
    ensures
        steps(prog, a, rp, tape, code_steps(r, rp, tape)) == (a + r.len(), run_code(r, rp, tape).unwrap().0, run_code(r, rp, tape).unwrap().1),
{
    let n = r.len() as int;
    let x = r.drop_last();
    let (p, t) = run_code(x, rp, tape).unwrap();
    let m = code_steps(x, rp, tape);
    lemma_steps_add(prog, a, rp, tape, m, 1);
    assert(apply(t, p, r.last()) is Some);
    assert(!(r[n - 1] is JumpZ || r[n - 1] is JumpNz || r[n - 1] is Output || r[n - 1] is Input));
    assert(prog[a + (n - 1)] == r[n - 1]);
    let (p2, t2) = apply(t, p, r.last()).unwrap();
    assert(steps(prog, a + n, p2, t2, 0) == (a + n, p2, t2));
}

/// Code that `prog` holds from `a` runs through the interpreter as `run_code`
/// describes, in `code_steps` steps.
proof fn lemma_code_segment(prog: Seq<Instruction>, a: int, r: Seq<Instruction>, rp: int, tape: Seq<u8>)
    requires
        holds_code(prog, a, r),
        run_code(r, rp, tape) is Some,
    ensures
        steps(prog, a, rp, tape, code_steps(r, rp, tape)) == (a + r.len(), run_code(r, rp, tape).unwrap().0, run_code(r, rp, tape).unwrap().1),
    decreases r.len(),
{
    if r.len() > 0 {
        let n = r.len() as int;
        if n >= 3 && r[n - 3] is JumpZ && r.last() == Instruction::JumpNz(Jump::Redundant) {
            let x = r.subrange(0, n - 3);
            lemma_holds_prefix(prog, a, r, n - 3);
            lemma_code_segment(prog, a, x, rp, tape);
            lemma_code_guard_step(prog, a, r, rp, tape);
        } else {
            let x = r.drop_last();
            assert(x == r.subrange(0, n - 1));
            lemma_holds_prefix(prog, a, r, n - 1);
            lemma_code_segment(prog, a, x, rp, tape);
            lemma_code_plain_step(prog, a, r, rp, tape);
        }
    }
}

/// A linked loop at `i` whose closing bracket is at `e`.
pub open spec fn linked_loop_at(prog: Seq<Instruction>, i: int, e: int) -> bool {
    &&& 0 <= i < e < prog.len()
    &&& e + 1 <= 0xffff_ffff
    &&& prog[i] == Instruction::JumpZ(Jump::Location((e + 1) as u32))
    &&& prog[e] == Instruction::JumpNz(Jump::Location((i + 1) as u32))
}

#[verifier::spinoff_prover]
#[verifier::rlimit(100)]
proof fn lemma_copy_loop_iterations(prog: Seq<Instruction>, i: int, e: int, rp: int, tape: Seq<u8>, k: nat)
    requires
        linked_loop_at(prog, i, e),
        tape.len() == NUM_REGISTERS,
        0 <= rp < NUM_REGISTERS,
        scan(prog.subrange(i + 1, e)) == Some((0int, IterationDiff::Diff(-1i16))),
        copy_body(prog.subrange(i + 1, e), rp),
        k >= 1,
        tape[rp] == k,
    ensures
        steps(prog, i + 1, rp, tape, k * ((e - i) as nat)) == (e + 1, rp, scaled_tape(prog.subrange(i + 1, e), rp, tape, k as int)),
    decreases k,
{
    let b = prog.subrange(i + 1, e);
    let len = b.len();
    lemma_scan_offsets(b);
    lemma_one_pass(b, rp, tape);
    let t1 = scaled_tape(b, rp, tape, 1);
    lemma_segment(prog, i + 1, b, rp, tape);
    assert(net_add(b, 0) == -1);
    assert(t1[rp] == wrap_add(tape[rp], -1));
    assert(t1[rp] == k - 1);
    let next = if k == 1 { e + 1 } else { i + 1 };
    assert(step_spec(prog, e, rp, t1) == (next, rp, t1, crate::machine::Action::Continue));
    lemma_steps_add(prog, i + 1, rp, tape, len, 1);
    assert(steps(prog, e, rp, t1, 1) == steps(prog, next, rp, t1, 0));
    assert(k * ((e - i) as nat) == (len + 1) + (k - 1) * ((e - i) as nat)) by (nonlinear_arith)
        requires len + 1 == e - i;
    lemma_steps_add(prog, i + 1, rp, tape, (len + 1) as nat, ((k - 1) * ((e - i) as nat)) as nat);
    if k == 1 {
        assert(steps(prog, e + 1, rp, t1, 0) == (e + 1, rp, t1));
    } else {
        lemma_copy_loop_iterations(prog, i, e, rp, t1, (k - 1) as nat);
        assert forall|x: int| 0 <= x < NUM_REGISTERS implies #[trigger] scaled_tape(b, rp, t1, k - 1)[x] == scaled_tape(b, rp, tape, k as int)[x] by {
            let m = net_add(b, x - rp);
            assert(k - 1 >= 1);
            lemma_wrap_add_add(tape[x], 1 * m, (k - 1) * m);
            assert(1 * m + (k - 1) * m == k * m) by (nonlinear_arith);
        }
        assert(scaled_tape(b, rp, t1, k - 1) =~= scaled_tape(b, rp, tape, k as int));
    }
}

/// Rewriting a copy loop keeps what the interpreter computes: where `prog`
/// holds the linked loop at `i..=e` and `prog2` holds its linked replacement
/// from `i`, both reach the end of that code with the same cell pointer and
/// the same tape.
pub proof fn copy_loop_rewrite_preserves_run(
    prog: Seq<Instruction>,
    prog2: Seq<Instruction>,
    i: int,
    e: int,
    rp: int,
    tape: Seq<u8>,
)
    requires
        linked_loop_at(prog, i, e),
        tape.len() == NUM_REGISTERS,
        0 <= rp < NUM_REGISTERS,
        scan(prog.subrange(i + 1, e)) == Some((0int, IterationDiff::Diff(-1i16))),
        !adds_after_clear(prog.subrange(i + 1, e)),
        stays_on_tape(prog.subrange(i + 1, e), rp),
        clears_on_tape(prog.subrange(i + 1, e), rp),
        holds_code(prog2, i, rewrite_body(prog.subrange(i + 1, e)).push(Instruction::Zero(0))),
    ensures
        ({
            let b = prog.subrange(i + 1, e);
            let repl = rewrite_body(b).push(Instruction::Zero(0));
            let c = tape[rp] as nat;
            let (ip1, rp1, tape1) = steps(prog, i, rp, tape, 1 + c * ((e - i) as nat));
            let (ip2, rp2, tape2) = steps(prog2, i, rp, tape, code_steps(repl, rp, tape));
            &&& ip1 == e + 1
            &&& ip2 == i + repl.len()
            &&& rp1 == rp2 == rp
            &&& tape1 == tape2
        }),
{
    let b = prog.subrange(i + 1, e);
    let repl = rewrite_body(b).push(Instruction::Zero(0));
    let c = tape[rp] as nat;
    copy_loop_rewrite_is_sound(b, rp, tape);
    lemma_scan_offsets(b);
    lemma_iterate(b, rp, tape, c);
    lemma_code_segment(prog2, i, repl, rp, tape);
    lemma_steps_add(prog, i, rp, tape, 1, c * ((e - i) as nat));
    if c == 0 {
        assert(scaled_tape(b, rp, tape, 0) =~= tape) by {
            assert forall|x: int| 0 <= x < NUM_REGISTERS implies #[trigger] scaled_tape(b, rp, tape, 0)[x] == tape[x] by {
                assert(0 * net_add(b, x - rp) == 0);
                lemma_wrap_zero(tape[x]);
            }
        }
        assert(step_spec(prog, i, rp, tape) == (e + 1, rp, tape, crate::machine::Action::Continue));
        assert(c * ((e - i) as nat) == 0);
        assert(steps(prog, e + 1, rp, tape, 0) == (e + 1, rp, tape));
    } else {
        assert(step_spec(prog, i, rp, tape) == (i + 1, rp, tape, crate::machine::Action::Continue));
        lemma_copy_loop_iterations(prog, i, e, rp, tape, c);
    }
}

/// The largest count an instruction holds for a run of this token.
pub open spec fn run_cap(t: Token) -> int {
    if t == Token::Shl || t == Token::Shr {
        0xffff
    } else {
        0xff
    }
}

/// Somewhere in `ts` a combinable token repeats more often than one
/// instruction can count.
pub open spec fn has_long_run(ts: Seq<Token>) -> bool {
    exists|p: int, t: Token|
        #![trigger ts[p], combinable(t)]
        combinable(t) && 0 <= p && p + run_cap(t) < ts.len() && forall|q: int|
            p <= q <= p + run_cap(t) ==> #[trigger] ts[q] == t
}

/// No two neighbouring instructions are run-length instructions of one kind.
pub open spec fn no_adjacent_runs(s: Seq<Instruction>) -> bool {
    forall|k: int|
        0 <= k < s.len() - 1 && (#[trigger] run_kind(s[k])).is_some() ==> run_kind(s[k]) != run_kind(
            s[k + 1],
        )
}

proof fn lemma_expand_concat(a: Seq<Instruction>, b: Seq<Instruction>)
    ensures
        expand(a + b) == expand(a) + expand(b),
    decreases b.len(),
{
    if b.len() == 0 {
        assert(a + b =~= a);
        assert(expand(b) =~= Seq::<Token>::empty());
        assert(expand(a) + expand(b) =~= expand(a));
    } else {
        lemma_expand_concat(a, b.drop_last());
        assert((a + b).drop_last() =~= a + b.drop_last());
        assert(expand(a) + expand(b) =~= expand(a) + expand(b.drop_last()) + expand_one(b.last()));
    }
}

/// Combining the tokens of a source leaves no two neighbouring instructions
/// of one run-length kind, wherever no run in the source is longer than an
/// instruction's count can hold.
pub proof fn combined_runs_are_maximal(src: Seq<u8>, r: Seq<Instruction>)
    requires
        expand(r) == tokens_of(src),
        combined_form(r),
        !has_long_run(tokens_of(src)),
    ensures
        no_adjacent_runs(r),
{
    let ts = tokens_of(src);
    assert forall|k: int|
        0 <= k < r.len() - 1 && (#[trigger] run_kind(r[k])).is_some() implies run_kind(r[k]) != run_kind(r[k + 1]) by {
        if run_kind(r[k]) == run_kind(r[k + 1]) {
            let t = run_kind(r[k]).unwrap();
            assert(saturated(r[k]));
            assert(fresh_instruction(r[k + 1]));
            let head = r.subrange(0, k);
            let pair = seq![r[k], r[k + 1]];
            let tail = r.subrange(k + 2, r.len() as int);
            assert(r =~= head + pair + tail);
            lemma_expand_concat(head + pair, tail);
            lemma_expand_concat(head, pair);
            assert(pair.drop_last() =~= seq![r[k]]);
            assert(seq![r[k]].drop_last() =~= Seq::<Instruction>::empty());
            assert(expand(Seq::<Instruction>::empty()) == Seq::<Token>::empty());
            assert(expand(seq![r[k]]) == expand(Seq::<Instruction>::empty()) + expand_one(r[k]));
            assert(expand(seq![r[k]]) =~= expand_one(r[k]));
            assert(expand(pair) == expand(seq![r[k]]) + expand_one(r[k + 1]));
            let p = expand(head).len() as int;
            assert(expand_one(r[k]).len() == run_cap(t));
            assert(expand_one(r[k + 1]).len() >= 1);
            assert(expand(r) == expand(head) + expand_one(r[k]) + expand_one(r[k + 1]) + expand(tail));
            assert forall|q: int| p <= q <= p + run_cap(t) implies #[trigger] ts[q] == t by {
                if q < p + run_cap(t) {
                    assert(ts[q] == expand_one(r[k])[q - p]);
                } else {
                    assert(ts[q] == expand_one(r[k + 1])[0]);
                }
            }
            assert(combinable(t));
            assert(p + run_cap(t) < ts.len());
            assert(ts[p] == t);
            assert(has_long_run(ts));
        }
    }
}

} // verus!
