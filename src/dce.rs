use vstd::prelude::*;
use crate::ir::Instruction;
use crate::link::{balanced, depth};
use crate::machine::{apply, apply_exec, NUM_REGISTERS};

verus! {

/// Index of the bracket that closes the loop open at depth `depth` when the
/// scan reaches `j`.
pub open spec fn close_from(t: Seq<Instruction>, j: int, depth: int) -> Option<int>
    decreases t.len() - j,
{
    if j < 0 || j >= t.len() {
        None
    } else {
        match t[j] {
            Instruction::JumpZ(_) => close_from(t, j + 1, depth + 1),
            Instruction::JumpNz(_) => if depth == 1 {
                Some(j)
            } else {
                close_from(t, j + 1, depth - 1)
            },
            _ => close_from(t, j + 1, depth),
        }
    }
}

/// Index of the `JumpNz` that matches the `JumpZ` at the start of `t`.
pub open spec fn matching_close(t: Seq<Instruction>) -> Option<int> {
    close_from(t, 0, 0)
}

proof fn lemma_close_from_bounds(t: Seq<Instruction>, j: int, depth: int)
    ensures
        close_from(t, j, depth) matches Some(c) ==> (j <= c < t.len()),
    decreases t.len() - j,
{
    if 0 <= j < t.len() {
        match t[j] {
            Instruction::JumpZ(_) => lemma_close_from_bounds(t, j + 1, depth + 1),
            Instruction::JumpNz(_) => lemma_close_from_bounds(t, j + 1, depth - 1),
            _ => lemma_close_from_bounds(t, j + 1, depth),
        }
    }
}

/// The scan that finds a closing bracket ends where the depth first returns
/// to zero.
proof fn lemma_close_from_depth(t: Seq<Instruction>, j: int, d: int)
    requires
        0 <= j,
        d >= 1,
        depth(t, j) == d,
        close_from(t, j, d) is Some,
    ensures
        depth(t, close_from(t, j, d).unwrap() + 1) == 0,
        forall|k: int| j <= k <= close_from(t, j, d).unwrap() ==> #[trigger] depth(t, k) >= 1,
    decreases t.len() - j,
{
    let c = close_from(t, j, d).unwrap();
    lemma_close_from_bounds(t, j, d);
    assert(depth(t, j + 1) == depth(t, j) + match t[j] {
        Instruction::JumpZ(_) => 1int,
        Instruction::JumpNz(_) => -1int,
        _ => 0int,
    });
    match t[j] {
        Instruction::JumpZ(_) => lemma_close_from_depth(t, j + 1, d + 1),
        Instruction::JumpNz(_) => if d != 1 {
            lemma_close_from_depth(t, j + 1, d - 1);
        },
        _ => lemma_close_from_depth(t, j + 1, d),
    }
}

proof fn lemma_depth_suffix(s: Seq<Instruction>, start: int, k: int)
    requires
        0 <= start,
        0 <= k,
        start + k <= s.len(),
    ensures
        depth(s, start + k) == depth(s, start) + depth(s.subrange(start, s.len() as int), k),
    decreases k,
{
    if k > 0 {
        lemma_depth_suffix(s, start, k - 1);
        assert(s.subrange(start, s.len() as int)[k - 1] == s[start + k - 1]);
    }
}

proof fn lemma_depth_cut(s: Seq<Instruction>, start: int, end: int, m: int)
    requires
        0 <= start <= end <= s.len(),
        depth(s, end) == depth(s, start),
        0 <= m <= s.len() - end,
    ensures
        ({
            let f = s.subrange(0, start) + s.subrange(end, s.len() as int);
            &&& depth(f, start + m) == depth(s, end + m)
            &&& forall|k: int| 0 <= k <= start ==> #[trigger] depth(f, k) == depth(s, k)
        }),
    decreases m,
{
    let f = s.subrange(0, start) + s.subrange(end, s.len() as int);
    if m > 0 {
        lemma_depth_cut(s, start, end, m - 1);
        assert(f[start + m - 1] == s[end + m - 1]);
    } else {
        lemma_depth_prefix(s, f, start);
    }
}

proof fn lemma_depth_prefix(s: Seq<Instruction>, f: Seq<Instruction>, start: int)
    requires
        0 <= start <= s.len(),
        start <= f.len(),
        forall|k: int| 0 <= k < start ==> f[k] == s[k],
    ensures
        forall|k: int| 0 <= k <= start ==> #[trigger] depth(f, k) == depth(s, k),
{
    assert forall|k: int| 0 <= k <= start implies #[trigger] depth(f, k) == depth(s, k) by {
        lemma_depth_prefix_at(s, f, start, k);
    }
}

proof fn lemma_depth_prefix_at(s: Seq<Instruction>, f: Seq<Instruction>, start: int, k: int)
    requires
        0 <= k <= start <= s.len(),
        start <= f.len(),
        forall|j: int| 0 <= j < start ==> f[j] == s[j],
    ensures
        depth(f, k) == depth(s, k),
    decreases k,
{
    if k > 0 {
        lemma_depth_prefix_at(s, f, start, k - 1);
        assert(f[k - 1] == s[k - 1]);
    }
}

/// Deleting a loop from its opening bracket through the bracket that matches
/// it keeps a balanced program balanced.
pub proof fn removing_a_loop_keeps_balance(s: Seq<Instruction>, start: int)
    requires
        0 <= start < s.len(),
        s[start] is JumpZ,
        balanced(s),
        matching_close(s.subrange(start, s.len() as int)) is Some,
    ensures
        ({
            let c = matching_close(s.subrange(start, s.len() as int)).unwrap();
            balanced(s.subrange(0, start) + s.subrange(start + c + 1, s.len() as int))
        }),
{
    let t = s.subrange(start, s.len() as int);
    let c = matching_close(t).unwrap();
    lemma_close_from_bounds(t, 0, 0);
    assert(close_from(t, 0, 0) == close_from(t, 1, 1));
    assert(t[0] == s[start]);
    assert(depth(t, 0) == 0);
    assert(depth(t, 1) == 1);
    lemma_close_from_depth(t, 1, 1);
    lemma_depth_suffix(s, start, c + 1);
    let end = start + c + 1;
    let f = s.subrange(0, start) + s.subrange(end, s.len() as int);
    assert forall|k: int| 0 <= k <= f.len() implies #[trigger] depth(f, k) >= 0 by {
        if k <= start {
            lemma_depth_cut(s, start, end, 0);
        } else {
            lemma_depth_cut(s, start, end, k - start);
        }
    }
    lemma_depth_cut(s, start, end, s.len() - end);
}

/// Deletes the loop that opens at `start`, through its matching `JumpNz`;
/// returns `false`, changing nothing, where no bracket matches it.
pub fn remove_dead_code(instructions: &mut Vec<Instruction>, start: usize) -> (removed: bool)
    requires
        start < old(instructions)@.len(),
        old(instructions)@[start as int] is JumpZ,
    ensures
        ({
            let s = old(instructions)@;
            let t = s.subrange(start as int, s.len() as int);
            match matching_close(t) {
                Some(c) => removed && final(instructions)@ == s.subrange(0, start as int) + s.subrange(
                    start + c + 1,
                    s.len() as int,
                ),
                None => !removed && final(instructions)@ == s,
            }
        }),
        balanced(old(instructions)@) ==> balanced(final(instructions)@),
{
    let ghost s = instructions@;
    let ghost t = s.subrange(start as int, s.len() as int);
    let n = instructions.len();
    let mut depth: usize = 0;
    let mut j: usize = start;
    while j < n
        invariant
            s == old(instructions)@,
            instructions@ == s,
            n == s.len(),
            t == s.subrange(start as int, n as int),
            start <= j <= n,
            depth <= j - start,
            j > start ==> depth >= 1,
            j == start ==> depth == 0,
            s[start as int] is JumpZ,
            matching_close(t) == close_from(t, j - start, depth as int),
        decreases n - j,
    {
        match instructions[j] {
            Instruction::JumpZ(_) => {
                depth = depth + 1;
            },
            Instruction::JumpNz(_) => {
                if depth == 1 {
                    let mut out: Vec<Instruction> = Vec::new();
                    let mut k: usize = 0;
                    while k < n
                        invariant
                            instructions@ == s,
                            n == s.len(),
                            start <= j < n,
                            k <= n,
                            out@ == if k <= start {
                                s.subrange(0, k as int)
                            } else if k <= j + 1 {
                                s.subrange(0, start as int)
                            } else {
                                s.subrange(0, start as int) + s.subrange(j + 1, k as int)
                            },
                        decreases n - k,
                    {
                        if k < start || k > j {
                            out.push(instructions[k]);
                        }
                        k = k + 1;
                        assert(out@ =~= if k <= start {
                            s.subrange(0, k as int)
                        } else if k <= j + 1 {
                            s.subrange(0, start as int)
                        } else {
                            s.subrange(0, start as int) + s.subrange(j + 1, k as int)
                        });
                    }
                    proof {
                        if balanced(s) {
                            removing_a_loop_keeps_balance(s, start as int);
                        }
                    }
                    *instructions = out;
                    return true;
                }
                depth = depth - 1;
            },
            _ => {},
        }
        j = j + 1;
    }
    false
}

/// Dead-code elimination by symbolic execution of `t` from cell pointer `rp`
/// and tape `tape`: instructions with a known effect are kept and executed, a
/// loop entered with its cell at zero is deleted, and the first I/O, `JumpNz`,
/// loop entered with a nonzero cell, or step off the tape ends the pass.
pub open spec fn dce_from(t: Seq<Instruction>, rp: int, tape: Seq<u8>) -> Seq<Instruction>
    decreases t.len(),
    via dce_from_decreases
{
    if t.len() == 0 {
        t
    } else {
        match t[0] {
            Instruction::Output => t,
            Instruction::Input => t,
            Instruction::JumpNz(_) => t,
            Instruction::JumpZ(_) => if tape[rp] != 0 {
                t
            } else {
                match matching_close(t) {
                    Some(c) => dce_from(t.subrange(c + 1, t.len() as int), rp, tape),
                    None => t,
                }
            },
            inst => match apply(tape, rp, inst) {
                Some((r, tp)) => seq![t[0]] + dce_from(t.drop_first(), r, tp),
                None => t,
            },
        }
    }
}

#[via_fn]
proof fn dce_from_decreases(t: Seq<Instruction>, rp: int, tape: Seq<u8>) {
    lemma_close_from_bounds(t, 0, 0);
}

/// The tape at the start of a program: every cell zero.
pub open spec fn blank_tape() -> Seq<u8> {
    Seq::new(NUM_REGISTERS as nat, |_k: int| 0u8)
}

/// Executes the prefix of the program whose effect is known without input,
/// deleting each loop that this shows is never entered.
pub fn dead_code_elimination(instructions: &mut Vec<Instruction>)
    ensures
        final(instructions)@ == dce_from(old(instructions)@, 0, blank_tape()),
        balanced(old(instructions)@) ==> balanced(final(instructions)@),
{
    let mut registers = vec![0u8; NUM_REGISTERS];
    let mut rp: usize = 0;
    let mut i: usize = 0;
    assert(instructions@.subrange(0, 0) + instructions@.subrange(0, instructions@.len() as int) =~= instructions@);
    assert(registers@ =~= blank_tape());
    assert(instructions@.subrange(0, instructions@.len() as int) == instructions@);
    while i < instructions.len()
        invariant
            registers@.len() == NUM_REGISTERS,
            rp < NUM_REGISTERS,
            i <= instructions@.len(),
            balanced(old(instructions)@) ==> balanced(instructions@),
            dce_from(old(instructions)@, 0, blank_tape()) == instructions@.subrange(0, i as int)
                + dce_from(instructions@.subrange(i as int, instructions@.len() as int), rp as int, registers@),
        decreases instructions@.len() - i,
    {
        let ghost s = instructions@;
        let ghost t = s.subrange(i as int, s.len() as int);
        assert(s =~= s.subrange(0, i as int) + t);
        let inst = instructions[i];
        match inst {
            Instruction::Output | Instruction::Input | Instruction::JumpNz(_) => {
                return;
            },
            Instruction::JumpZ(_) => {
                if registers[rp] != 0 {
                    return;
                }
                if !remove_dead_code(instructions, i) {
                    return;
                }
                proof { lemma_close_from_bounds(t, 0, 0); }
                assert(instructions@.subrange(i as int, instructions@.len() as int) =~= t.subrange(
                    matching_close(t).unwrap() + 1,
                    t.len() as int,
                ));
                assert(instructions@.subrange(0, i as int) =~= s.subrange(0, i as int));
            },
            _ => {
                let ghost rp0 = rp as int;
                let ghost tape0 = registers@;
                if !apply_exec(&mut registers, &mut rp, inst) {
                    return;
                }
                assert(t.drop_first() =~= s.subrange(i + 1, s.len() as int));
                assert(s.subrange(0, i + 1) =~= s.subrange(0, i as int) + seq![t[0]]);
                i = i + 1;
            },
        }
    }
    assert(instructions@.subrange(0, i as int) + instructions@.subrange(i as int, i as int) =~= instructions@);
}

} // verus!
