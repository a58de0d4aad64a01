use vstd::prelude::*;
use crate::dce::{blank_tape, dce_from, dead_code_elimination};
use crate::ir::{combine, tokenize, Instruction};
use crate::loops::{arithmetic_pass, sweep, zero_loop_pass, zero_loops, Config};

verus! {

/// The instructions after every optimization that `cfg` enables, and the
/// (opening, closing) indices of the loops found never to terminate.
pub open spec fn optimized(cfg: Config, s: Seq<Instruction>) -> (Seq<Instruction>, Seq<(usize, usize)>) {
    if !cfg.optimize {
        (s, Seq::empty())
    } else {
        let a = if cfg.o_zeros { zero_loops(s) } else { s };
        let (b, w) = if cfg.o_arithmetic || cfg.o_jumps { sweep(cfg, a, 0) } else { (a, Seq::empty()) };
        let c = if cfg.o_dead_code { dce_from(b, 0, blank_tape()) } else { b };
        (c, w)
    }
}

/// Runs the enabled passes in order: zero loops, arithmetic loops, dead code.
pub fn optimize(cfg: &Config, instructions: &mut Vec<Instruction>) -> (w: Vec<(usize, usize)>)
    ensures
        (final(instructions)@, w@) == optimized(*cfg, old(instructions)@),
{
    let mut warnings: Vec<(usize, usize)> = Vec::new();
    if !cfg.optimize {
        return warnings;
    }
    if cfg.o_zeros {
        zero_loop_pass(instructions);
    }
    if cfg.o_arithmetic || cfg.o_jumps {
        warnings = arithmetic_pass(cfg, instructions);
    }
    if cfg.o_dead_code {
        dead_code_elimination(instructions);
    }
    warnings
}

/// Source bytes to combined instructions, before optimization.
pub fn parse(src: &[u8]) -> (r: Vec<Instruction>)
    ensures
        crate::ir::expand(r@) == crate::ir::tokens_of(src@),
        crate::ir::combined_form(r@),
{
    let tokens = tokenize(src);
    combine(tokens.as_slice())
}

} // verus!
