use vstd::prelude::*;

verus! {

/// The eight commands of the source language.
#[derive(Clone, Copy, Debug, PartialEq, Eq, Structural, PartialOrd, Ord)]
pub enum Token {
    Shl,
    Shr,
    Inc,
    Dec,
    Output,
    Input,
    LSquare,
    RSquare,
}

/// Target of a conditional jump: a 1-based index just past the partner
/// bracket, or a branch that can never be taken.
#[derive(Clone, Copy, Debug, PartialEq, Eq, Structural, PartialOrd, Ord)]
pub enum Jump {
    Location(u32),
    Redundant,
}

/// One instruction of the intermediate representation.
#[derive(Clone, Copy, Debug, PartialEq, Eq, Structural, PartialOrd, Ord)]
pub enum Instruction {
    Shl(u16),
    Shr(u16),
    Inc(u8),
    Dec(u8),
    Output,
    Input,
    /// Jump to the position if the current register value is zero.
    JumpZ(Jump),
    /// Jump to the position if the current register value is not zero.
    JumpNz(Jump),
    /// Clear the register at the offset.
    Zero(i16),
    /// Add current register value to register at offset.
    Add(i16),
    /// Subtract current register value from register at offset.
    Sub(i16),
    /// Multiply current register value and add to register at offset.
    AddMul(i16, u8),
    /// Multiply current register value and subtract from register at offset.
    SubMul(i16, u8),
}

/// Target written into brackets before the linker resolves them.
pub const UNRESOLVED: u32 = 0xffff_ffff;

pub open spec fn combinable(t: Token) -> bool {
    t == Token::Shl || t == Token::Shr || t == Token::Inc || t == Token::Dec
}

impl Token {
    pub fn is_combinable(self) -> (r: bool)
        ensures
            r == combinable(self),
    {
        match self {
            Token::Shl | Token::Shr | Token::Inc | Token::Dec => true,
            Token::Output | Token::Input | Token::LSquare | Token::RSquare => false,
        }
    }
}

impl Jump {
    pub fn is_redundant(&self) -> (r: bool)
        ensures
            r == (*self == Jump::Redundant),
    {
        matches!(self, Self::Redundant)
    }
}

/// The token a source byte stands for; every other byte is a comment.
pub open spec fn token_of(b: u8) -> Option<Token> {
    if b == 60 {
        Some(Token::Shl)
    } else if b == 62 {
        Some(Token::Shr)
    } else if b == 43 {
        Some(Token::Inc)
    } else if b == 45 {
        Some(Token::Dec)
    } else if b == 46 {
        Some(Token::Output)
    } else if b == 44 {
        Some(Token::Input)
    } else if b == 91 {
        Some(Token::LSquare)
    } else if b == 93 {
        Some(Token::RSquare)
    } else {
        None
    }
}

/// The tokens of a source text, in order, comments dropped.
pub open spec fn tokens_of(src: Seq<u8>) -> Seq<Token>
    decreases src.len(),
{
    if src.len() == 0 {
        Seq::empty()
    } else {
        let rest = tokens_of(src.drop_last());
        match token_of(src.last()) {
            Some(t) => rest.push(t),
            None => rest,
        }
    }
}

pub fn token_from_byte(b: u8) -> (r: Option<Token>)
    ensures
        r == token_of(b),
{
    match b {
        60u8 => Some(Token::Shl),
        62u8 => Some(Token::Shr),
        43u8 => Some(Token::Inc),
        45u8 => Some(Token::Dec),
        46u8 => Some(Token::Output),
        44u8 => Some(Token::Input),
        91u8 => Some(Token::LSquare),
        93u8 => Some(Token::RSquare),
        _ => None,
    }
}

/// Maps source bytes to tokens, dropping every byte that is not a command.
pub fn tokenize(src: &[u8]) -> (r: Vec<Token>)
    ensures
        r@ == tokens_of(src@),
{
    let mut out: Vec<Token> = Vec::new();
    let mut i: usize = 0;
    while i < src.len()
        invariant
            i <= src@.len(),
            out@ == tokens_of(src@.subrange(0, i as int)),
        decreases src@.len() - i,
    {
        assert(src@.subrange(0, i as int + 1).drop_last() == src@.subrange(0, i as int));
        if let Some(t) = token_from_byte(src[i]) {
            out.push(t);
        }
        i += 1;
    }
    assert(src@.subrange(0, src@.len() as int) == src@);
    out
}

/// A sequence of `n` copies of a token.
pub open spec fn repeat(t: Token, n: nat) -> Seq<Token> {
    Seq::new(n, |_k: int| t)
}

/// The tokens that one instruction of the combiner's output stands for.
pub open spec fn expand_one(i: Instruction) -> Seq<Token> {
    match i {
        Instruction::Shl(n) => repeat(Token::Shl, n as nat),
        Instruction::Shr(n) => repeat(Token::Shr, n as nat),
        Instruction::Inc(n) => repeat(Token::Inc, n as nat),
        Instruction::Dec(n) => repeat(Token::Dec, n as nat),
        Instruction::Output => seq![Token::Output],
        Instruction::Input => seq![Token::Input],
        Instruction::JumpZ(_) => seq![Token::LSquare],
        Instruction::JumpNz(_) => seq![Token::RSquare],
        _ => Seq::empty(),
    }
}

/// The tokens that a sequence of instructions stands for.
pub open spec fn expand(s: Seq<Instruction>) -> Seq<Token>
    decreases s.len(),
{
    if s.len() == 0 {
        Seq::empty()
    } else {
        expand(s.drop_last()) + expand_one(s.last())
    }
}

/// The token kind of a run-length instruction, if it is one.
pub open spec fn run_kind(i: Instruction) -> Option<Token> {
    match i {
        Instruction::Shl(_) => Some(Token::Shl),
        Instruction::Shr(_) => Some(Token::Shr),
        Instruction::Inc(_) => Some(Token::Inc),
        Instruction::Dec(_) => Some(Token::Dec),
        _ => None,
    }
}

/// A run-length instruction whose count has reached the largest its field holds.
pub open spec fn saturated(i: Instruction) -> bool {
    match i {
        Instruction::Shl(n) => n == 0xffff,
        Instruction::Shr(n) => n == 0xffff,
        Instruction::Inc(n) => n == 0xff,
        Instruction::Dec(n) => n == 0xff,
        _ => false,
    }
}

/// Every run-length count is positive and brackets are unresolved.
pub open spec fn fresh_instruction(i: Instruction) -> bool {
    match i {
        Instruction::Shl(n) => n >= 1,
        Instruction::Shr(n) => n >= 1,
        Instruction::Inc(n) => n >= 1,
        Instruction::Dec(n) => n >= 1,
        Instruction::Output => true,
        Instruction::Input => true,
        Instruction::JumpZ(j) => j == Jump::Location(UNRESOLVED),
        Instruction::JumpNz(j) => j == Jump::Location(UNRESOLVED),
        _ => false,
    }
}

/// What the combiner produces: fresh instructions, and two neighbours of one
/// run-length kind only where the first is full.
pub open spec fn combined_form(s: Seq<Instruction>) -> bool {
    &&& forall|k: int| 0 <= k < s.len() ==> #[trigger] fresh_instruction(s[k])
    &&& forall|k: int|
        0 <= k < s.len() - 1 && (#[trigger] run_kind(s[k])).is_some() && run_kind(s[k])
            == run_kind(s[k + 1]) ==> saturated(s[k])
}

pub fn instruction_of_token(t: Token) -> (r: Instruction)
    ensures
        expand_one(r) == seq![t],
        fresh_instruction(r),
        run_kind(r) == (if combinable(t) { Some(t) } else { None }),
        !saturated(r),
{
    let r = match t {
        Token::Shl => Instruction::Shl(1),
        Token::Shr => Instruction::Shr(1),
        Token::Inc => Instruction::Inc(1),
        Token::Dec => Instruction::Dec(1),
        Token::Output => Instruction::Output,
        Token::Input => Instruction::Input,
        Token::LSquare => Instruction::JumpZ(Jump::Location(UNRESOLVED)),
        Token::RSquare => Instruction::JumpNz(Jump::Location(UNRESOLVED)),
    };
    assert(expand_one(r) =~= seq![t]);
    r
}

/// Adds one more step to a run-length instruction that is not yet full.
fn grow(i: Instruction) -> (r: Instruction)
    requires
        run_kind(i).is_some(),
        !saturated(i),
        fresh_instruction(i),
    ensures
        expand_one(r) == expand_one(i).push(run_kind(i).unwrap()),
        run_kind(r) == run_kind(i),
        fresh_instruction(r),
{
    let r = match i {
        Instruction::Shl(n) => Instruction::Shl(n + 1),
        Instruction::Shr(n) => Instruction::Shr(n + 1),
        Instruction::Inc(n) => Instruction::Inc(n + 1),
        Instruction::Dec(n) => Instruction::Dec(n + 1),
        _ => i,
    };
    assert(expand_one(r) =~= expand_one(i).push(run_kind(i).unwrap()));
    r
}

fn same_run(i: Instruction, t: Token) -> (r: bool)
    ensures
        r == (run_kind(i) == Some(t) && !saturated(i)),
{
    match (i, t) {
        (Instruction::Shl(n), Token::Shl) => n < 0xffff,
        (Instruction::Shr(n), Token::Shr) => n < 0xffff,
        (Instruction::Inc(n), Token::Inc) => n < 0xff,
        (Instruction::Dec(n), Token::Dec) => n < 0xff,
        _ => false,
    }
}

/// Collapses each run of one combinable token into a single instruction,
/// splitting a run only where its count would not fit.
pub fn combine(tokens: &[Token]) -> (r: Vec<Instruction>)
    ensures
        expand(r@) == tokens@,
        combined_form(r@),
{
    let mut out: Vec<Instruction> = Vec::new();
    let mut i: usize = 0;
    while i < tokens.len()
        invariant
            i <= tokens@.len(),
            expand(out@) == tokens@.subrange(0, i as int),
            combined_form(out@),
        decreases tokens@.len() - i,
    {
        let t = tokens[i];
        let n = out.len();
        if n > 0 && same_run(out[n - 1], t) {
            let g = grow(out[n - 1]);
            let ghost prev = out@;
            out.set(n - 1, g);
            assert(out@.drop_last() == prev.drop_last());
            assert(expand(prev) == expand(prev.drop_last()) + expand_one(prev.last()));
            assert(expand(out@) == expand(prev.drop_last()) + expand_one(g));
            assert(tokens@.subrange(0, i as int + 1) =~= tokens@.subrange(0, i as int).push(t));
            assert(expand(out@) =~= (expand(prev.drop_last()) + expand_one(prev.last())).push(t));
            assert(expand(out@) =~= tokens@.subrange(0, i as int + 1));
        } else {
            let ghost prev = out@;
            out.push(instruction_of_token(t));
            assert(out@.drop_last() == prev);
            assert(expand(out@) =~= tokens@.subrange(0, i as int + 1));
        }
        i += 1;
    }
    assert(tokens@.subrange(0, tokens@.len() as int) == tokens@);
    out
}

} // verus!
