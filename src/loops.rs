use vstd::prelude::*;
use crate::ir::{Instruction, Jump, UNRESOLVED};
use crate::link::{balanced, depth, lemma_depth_concat, lemma_depth_same_kinds};

verus! {

/// Which optimizations run, and how much the driver reports.
#[derive(Clone, Copy, Debug, PartialEq, Eq, Structural)]
pub struct Config {
    pub verbose: u8,
    pub optimize: bool,
    pub o_zeros: bool,
    pub o_arithmetic: bool,
    pub o_jumps: bool,
    pub o_dead_code: bool,
}

/// How one loop iteration changes the cell that controls the loop.
#[derive(Clone, Copy, Debug, PartialEq, Eq, Structural)]
pub enum IterationDiff {
    /// The change each loop iteration will have on the iteration register.
    Diff(i16),
    /// The loop always zeros the iteration register.
    Zeroed,
    /// The loop zeros the iteration register and then changes it by the amount.
    ZeroedDiff(i16),
}

pub open spec fn in_i16(x: int) -> bool {
    -0x8000 <= x <= 0x7fff
}

impl IterationDiff {
    /// Net change recorded since the start or since the last zeroing.
    pub open spec fn amount(self) -> int {
        match self {
            IterationDiff::Diff(d) => d as int,
            IterationDiff::Zeroed => 0,
            IterationDiff::ZeroedDiff(d) => d as int,
        }
    }

    /// The summary after a further change of `v` to the iteration register.
    pub open spec fn added(self, v: int) -> IterationDiff {
        match self {
            IterationDiff::Diff(_) => IterationDiff::Diff((self.amount() + v) as i16),
            _ => IterationDiff::ZeroedDiff((self.amount() + v) as i16),
        }
    }

    fn value(&self) -> (r: i16)
        ensures
            r as int == self.amount(),
    {
        match self {
            IterationDiff::Diff(d) | IterationDiff::ZeroedDiff(d) => *d,
            IterationDiff::Zeroed => 0,
        }
    }

    fn inc(&mut self, inc: u8)
        requires
            old(self).amount() + inc <= 0x7fff,
        ensures
            *final(self) == old(self).added(inc as int),
    {
        let inc = inc as i16;
        match self {
            IterationDiff::Diff(d) => *d = *d + inc,
            IterationDiff::ZeroedDiff(d) => *d = *d + inc,
            IterationDiff::Zeroed => *self = IterationDiff::ZeroedDiff(inc),
        }
    }

    fn dec(&mut self, dec: u8)
        requires
            old(self).amount() - dec >= -0x8000,
        ensures
            *final(self) == old(self).added(-(dec as int)),
    {
        let dec = dec as i16;
        match self {
            IterationDiff::Diff(d) => *d = *d - dec,
            IterationDiff::ZeroedDiff(d) => *d = *d - dec,
            IterationDiff::Zeroed => *self = IterationDiff::ZeroedDiff(-dec),
        }
    }

    fn zero(&mut self)
        ensures
            *final(self) == IterationDiff::Zeroed,
    {
        *self = IterationDiff::Zeroed;
    }
}

/// The analysis of one body instruction, from the pointer offset since loop
/// entry and the summary so far; `None` where the loop is not a candidate
/// (a forbidden instruction, or an offset or amount beyond 16 bits).
pub open spec fn scan_step(off: int, d: IterationDiff, inst: Instruction) -> Option<(int, IterationDiff)> {
    match inst {
        Instruction::Shl(n) => if in_i16(off - n) { Some((off - n, d)) } else { None },
        Instruction::Shr(n) => if in_i16(off + n) { Some((off + n, d)) } else { None },
        Instruction::Inc(n) => if off != 0 {
            Some((off, d))
        } else if in_i16(d.amount() + n) {
            Some((off, d.added(n as int)))
        } else {
            None
        },
        Instruction::Dec(n) => if off != 0 {
            Some((off, d))
        } else if in_i16(d.amount() - n) {
            Some((off, d.added(-(n as int))))
        } else {
            None
        },
        Instruction::Zero(o) => if off + o == 0 {
            Some((off, IterationDiff::Zeroed))
        } else if in_i16(off + o) {
            Some((off, d))
        } else {
            None
        },
        _ => None,
    }
}

/// Pointer offset and induction summary after a loop body.
pub open spec fn scan(body: Seq<Instruction>) -> Option<(int, IterationDiff)>
    decreases body.len(),
{
    if body.len() == 0 {
        Some((0, IterationDiff::Diff(0)))
    } else {
        match scan(body.drop_last()) {
            Some((off, d)) => scan_step(off, d, body.last()),
            None => None,
        }
    }
}

/// Straight-line code for one body instruction of a copy loop, at pointer
/// offset `off` from the induction cell.
pub open spec fn rewrite_one(off: int, inst: Instruction) -> Seq<Instruction> {
    match inst {
        Instruction::Inc(n) => if off == 0 {
            Seq::empty()
        } else if n == 1 {
            seq![Instruction::Add(off as i16)]
        } else {
            seq![Instruction::AddMul(off as i16, n)]
        },
        Instruction::Dec(n) => if off == 0 {
            Seq::empty()
        } else if n == 1 {
            seq![Instruction::Sub(off as i16)]
        } else {
            seq![Instruction::SubMul(off as i16, n)]
        },
        Instruction::Zero(o) => if off + o == 0 {
            Seq::empty()
        } else {
            seq![
                Instruction::JumpZ(Jump::Location(UNRESOLVED)),
                Instruction::Zero((off + o) as i16),
                Instruction::JumpNz(Jump::Redundant),
            ]
        },
        _ => Seq::empty(),
    }
}

/// Straight-line code for a whole copy-loop body.
pub open spec fn rewrite_body(body: Seq<Instruction>) -> Seq<Instruction>
    decreases body.len(),
{
    if body.len() == 0 {
        Seq::empty()
    } else {
        rewrite_body(body.drop_last()) + rewrite_one(scan(body.drop_last()).unwrap().0, body.last())
    }
}

/// Some instruction of `b` clears the cell at offset `x` from where `b` starts.
pub open spec fn cleared(b: Seq<Instruction>, x: int) -> bool
    decreases b.len(),
{
    if b.len() == 0 {
        false
    } else {
        cleared(b.drop_last(), x) || match b.last() {
            Instruction::Zero(o) => scan(b.drop_last()).unwrap().0 + o == x,
            _ => false,
        }
    }
}

/// Somewhere in `b` a cell other than the induction cell is changed after it
/// was cleared; one pass of such a body does not scale with the loop count.
pub open spec fn adds_after_clear(b: Seq<Instruction>) -> bool
    decreases b.len(),
{
    if b.len() == 0 {
        false
    } else {
        adds_after_clear(b.drop_last()) || match b.last() {
            Instruction::Inc(_) => {
                let off = scan(b.drop_last()).unwrap().0;
                off != 0 && cleared(b.drop_last(), off)
            },
            Instruction::Dec(_) => {
                let off = scan(b.drop_last()).unwrap().0;
                off != 0 && cleared(b.drop_last(), off)
            },
            _ => false,
        }
    }
}

/// `x` is one of the offsets in `v`.
pub open spec fn listed(v: Seq<i32>, x: int) -> bool {
    exists|k: int| 0 <= k < v.len() && v[k] as int == x
}

fn is_listed(v: &Vec<i32>, x: i32) -> (r: bool)
    ensures
        r == listed(v@, x as int),
{
    let mut k: usize = 0;
    while k < v.len()
        invariant
            k <= v@.len(),
            forall|j: int| 0 <= j < k ==> v@[j] != x,
        decreases v@.len() - k,
    {
        if v[k] == x {
            return true;
        }
        k += 1;
    }
    false
}

proof fn lemma_adds_after_clear_prefix(b: Seq<Instruction>, k: int)
    requires
        0 <= k <= b.len(),
        adds_after_clear(b.subrange(0, k)),
    ensures
        adds_after_clear(b),
    decreases b.len() - k,
{
    if k < b.len() {
        assert(b.subrange(0, k + 1).drop_last() =~= b.subrange(0, k));
        lemma_adds_after_clear_prefix(b, k + 1);
    } else {
        assert(b.subrange(0, k) =~= b);
    }
}

/// Index of the first bracket at or after `j`.
pub open spec fn first_bracket(t: Seq<Instruction>, j: int) -> Option<int>
    decreases t.len() - j,
{
    if j < 0 || j >= t.len() {
        None
    } else if t[j] is JumpZ || t[j] is JumpNz {
        Some(j)
    } else {
        first_bracket(t, j + 1)
    }
}

/// What the pass did at one position.
#[derive(Clone, Copy, Debug, PartialEq, Eq, Structural)]
pub enum LoopOutcome {
    /// Nothing to do here.
    Skipped,
    /// The loop became straight-line code of this many instructions.
    Rewritten(usize),
    /// The loop's closing jump, at this index, can never branch.
    MarkedRedundant(usize),
    /// The loop, closing at this index, never terminates once entered.
    InfiniteLoop(usize),
}

/// The innermost loop body that opens at index 0 of `t`, with the index of its
/// closing bracket.
pub open spec fn inner_loop(t: Seq<Instruction>) -> Option<int> {
    if t.len() > 0 && t[0] is JumpZ {
        match first_bracket(t, 1) {
            Some(e) => if t[e] is JumpNz { Some(e) } else { None },
            None => None,
        }
    } else {
        None
    }
}

/// The arithmetic-loop pass at the start of `t`: the new instructions and the
/// outcome, with indices relative to the start.
pub open spec fn loop_rewrite(cfg: Config, t: Seq<Instruction>) -> (Seq<Instruction>, LoopOutcome) {
    match inner_loop(t) {
        None => (t, LoopOutcome::Skipped),
        Some(e) => {
            let body = t.subrange(1, e);
            match scan(body) {
                None => (t, LoopOutcome::Skipped),
                Some((off, d)) => if off != 0 {
                    (t, LoopOutcome::Skipped)
                } else if d == IterationDiff::Diff(-1i16) {
                    if cfg.o_arithmetic && !adds_after_clear(body) {
                        let repl = replacement(t);
                        (repl + t.subrange(e + 1, t.len() as int), LoopOutcome::Rewritten(repl.len() as usize))
                    } else {
                        (t, LoopOutcome::Skipped)
                    }
                } else if d == IterationDiff::Zeroed || d == IterationDiff::ZeroedDiff(0i16) {
                    if cfg.o_jumps {
                        (t.update(e, Instruction::JumpNz(Jump::Redundant)), LoopOutcome::MarkedRedundant(e as usize))
                    } else {
                        (t, LoopOutcome::Skipped)
                    }
                } else if d == IterationDiff::Diff(0i16) || d is ZeroedDiff {
                    if t[e] == Instruction::JumpNz(Jump::Redundant) {
                        (t, LoopOutcome::Skipped)
                    } else {
                        (t, LoopOutcome::InfiniteLoop(e as usize))
                    }
                } else {
                    (t, LoopOutcome::Skipped)
                },
            }
        },
    }
}

/// Straight-line code that replaces the copy loop opening at the start of `t`.
pub open spec fn replacement(t: Seq<Instruction>) -> Seq<Instruction> {
    rewrite_body(t.subrange(1, inner_loop(t).unwrap())).push(Instruction::Zero(0))
}

proof fn lemma_first_bracket_bounds(t: Seq<Instruction>, j: int)
    ensures
        first_bracket(t, j) matches Some(x) ==> (j <= x < t.len() && (t[x] is JumpZ || t[x] is JumpNz)),
    decreases t.len() - j,
{
    if 0 <= j < t.len() && !(t[j] is JumpZ || t[j] is JumpNz) {
        lemma_first_bracket_bounds(t, j + 1);
    }
}

/// The pass keeps the length of the code unless it rewrites a loop, and a
/// rewrite leaves what follows the loop in place after the replacement.
proof fn lemma_loop_rewrite_shape(cfg: Config, t: Seq<Instruction>)
    ensures
        loop_rewrite(cfg, t).1 is Rewritten ==> (inner_loop(t) matches Some(e) && 0 < e < t.len()
            && loop_rewrite(cfg, t).0 == replacement(t) + t.subrange(e + 1, t.len() as int)),
        !(loop_rewrite(cfg, t).1 is Rewritten) ==> loop_rewrite(cfg, t).0.len() == t.len(),
        loop_rewrite(cfg, t).1 matches LoopOutcome::InfiniteLoop(e) ==> loop_rewrite(cfg, t).0 == t,
{
    lemma_first_bracket_bounds(t, 1);
}

/// An outcome with its indices moved up by `i`.
pub open spec fn shifted(o: LoopOutcome, i: int) -> LoopOutcome {
    match o {
        LoopOutcome::MarkedRedundant(e) => LoopOutcome::MarkedRedundant((e + i) as usize),
        LoopOutcome::InfiniteLoop(e) => LoopOutcome::InfiniteLoop((e + i) as usize),
        _ => o,
    }
}

proof fn lemma_scan_prefix(body: Seq<Instruction>, k: int)
    requires
        0 <= k <= body.len(),
        scan(body) is Some,
    ensures
        scan(body.subrange(0, k)) is Some,
    decreases body.len() - k,
{
    if k < body.len() {
        lemma_scan_prefix(body, k + 1);
        assert(body.subrange(0, k + 1).drop_last() == body.subrange(0, k));
    } else {
        assert(body.subrange(0, k) == body);
    }
}

fn is_bracket(inst: &Instruction) -> (r: bool)
    ensures
        r == (*inst is JumpZ || *inst is JumpNz),
{
    matches!(inst, Instruction::JumpZ(_) | Instruction::JumpNz(_))
}

/// `v` with the range `lo..hi` replaced by `repl`.
pub fn splice_range(v: &Vec<Instruction>, lo: usize, hi: usize, repl: &Vec<Instruction>) -> (r: Vec<
    Instruction,
>)
    requires
        lo <= hi <= v@.len(),
    ensures
        r@ == v@.subrange(0, lo as int) + repl@ + v@.subrange(hi as int, v@.len() as int),
{
    let mut r: Vec<Instruction> = Vec::new();
    let mut k: usize = 0;
    while k < lo
        invariant
            k <= lo <= hi <= v@.len(),
            r@ == v@.subrange(0, k as int),
        decreases lo - k,
    {
        r.push(v[k]);
        k += 1;
        assert(r@ =~= v@.subrange(0, k as int));
    }
    let ghost head = r@;
    k = 0;
    while k < repl.len()
        invariant
            k <= repl@.len(),
            head == v@.subrange(0, lo as int),
            r@ == head + repl@.subrange(0, k as int),
        decreases repl@.len() - k,
    {
        r.push(repl[k]);
        k += 1;
        assert(r@ =~= head + repl@.subrange(0, k as int));
    }
    assert(repl@.subrange(0, repl@.len() as int) == repl@);
    let ghost mid = r@;
    k = hi;
    while k < v.len()
        invariant
            hi <= k <= v@.len(),
            mid == v@.subrange(0, lo as int) + repl@,
            r@ == mid + v@.subrange(hi as int, k as int),
        decreases v@.len() - k,
    {
        r.push(v[k]);
        k += 1;
        assert(r@ =~= mid + v@.subrange(hi as int, k as int));
    }
    r
}

/// Tries to prove the loop that opens at `i` a copy or multiply loop and
/// rewrites it as straight-line code; marks the closing jump redundant where
/// the body always clears the induction cell, and reports a loop that never
/// terminates once entered.
pub fn arithmetic_loop_pass(cfg: &Config, instructions: &mut Vec<Instruction>, i: usize) -> (r:
    LoopOutcome)
    requires
        i < old(instructions)@.len(),
    ensures
        ({
            let s = old(instructions)@;
            let (t2, o) = loop_rewrite(*cfg, s.subrange(i as int, s.len() as int));
            &&& final(instructions)@ == s.subrange(0, i as int) + t2
            &&& r == shifted(o, i as int)
        }),
        balanced(old(instructions)@) ==> balanced(final(instructions)@),
{
    let ghost s = instructions@;
    let ghost t = s.subrange(i as int, s.len() as int);
    proof {
        if balanced(s) {
            loop_rewrite_keeps_balance(*cfg, s, i as int);
        }
    }
    let n = instructions.len();
    assert(s =~= s.subrange(0, i as int) + t);
    if !matches!(instructions[i], Instruction::JumpZ(_)) {
        return LoopOutcome::Skipped;
    }
    let mut j: usize = i + 1;
    while j < n && !is_bracket(&instructions[j])
        invariant
            s == old(instructions)@,
            balanced(s) ==> balanced(s.subrange(0, i as int) + loop_rewrite(*cfg, s.subrange(i as int, s.len() as int)).0),
            i < j <= n,
            n == s.len(),
            instructions@ == s,
            t == s.subrange(i as int, s.len() as int),
            first_bracket(t, 1) == first_bracket(t, j - i),
        decreases n - j,
    {
        j += 1;
    }
    if j == n || matches!(instructions[j], Instruction::JumpZ(_)) {
        return LoopOutcome::Skipped;
    }
    let end = j;
    assert(inner_loop(t) == Some(end - i));
    let ghost body = t.subrange(1, end - i);
    assert(body =~= s.subrange(i + 1, end as int));
    // first sweep: pointer offset and induction summary
    let mut off: i32 = 0;
    let mut d = IterationDiff::Diff(0);
    let mut k: usize = i + 1;
    assert(body.subrange(0, 0) =~= Seq::<Instruction>::empty());
    while k < end
        invariant
            i < k <= end < n,
            n == s.len(),
            instructions@ == s,
            body == s.subrange(i + 1, end as int),
            s == old(instructions)@,
            balanced(s) ==> balanced(s.subrange(0, i as int) + loop_rewrite(*cfg, s.subrange(i as int, s.len() as int)).0),
            t == s.subrange(i as int, s.len() as int),
            inner_loop(t) == Some(end - i),
            body == t.subrange(1, end - i),
            in_i16(off as int),
            scan(body.subrange(0, k - i - 1)) == Some((off as int, d)),
        decreases end - k,
    {
        let ghost pre = body.subrange(0, k - i - 1);
        let ghost next = body.subrange(0, k - i);
        assert(next.drop_last() =~= pre);
        assert(next.last() == instructions@[k as int]);
        let inst = instructions[k];
        match inst {
            Instruction::Shl(m) => {
                let o2 = off - m as i32;
                if o2 < -0x8000 {
                    proof { lemma_scan_stuck(body, k - i); }
                    return LoopOutcome::Skipped;
                }
                off = o2;
            },
            Instruction::Shr(m) => {
                let o2 = off + m as i32;
                if o2 > 0x7fff {
                    proof { lemma_scan_stuck(body, k - i); }
                    return LoopOutcome::Skipped;
                }
                off = o2;
            },
            Instruction::Inc(m) => {
                if off == 0 {
                    if d.value() as i32 + m as i32 > 0x7fff {
                        proof { lemma_scan_stuck(body, k - i); }
                        return LoopOutcome::Skipped;
                    }
                    d.inc(m);
                }
            },
            Instruction::Dec(m) => {
                if off == 0 {
                    if (d.value() as i32) - (m as i32) < -0x8000 {
                        proof { lemma_scan_stuck(body, k - i); }
                        return LoopOutcome::Skipped;
                    }
                    d.dec(m);
                }
            },
            Instruction::Zero(o) => {
                let x = off + o as i32;
                if x == 0 {
                    d.zero();
                } else if x < -0x8000 || x > 0x7fff {
                    proof { lemma_scan_stuck(body, k - i); }
                    return LoopOutcome::Skipped;
                }
            },
            _ => {
                proof { lemma_scan_stuck(body, k - i); }
                return LoopOutcome::Skipped;
            },
        }
        k += 1;
    }
    assert(body.subrange(0, end - i - 1) =~= body);
    if off != 0 {
        return LoopOutcome::Skipped;
    }
    match d {
        IterationDiff::Diff(-1) => {},
        IterationDiff::Zeroed | IterationDiff::ZeroedDiff(0) => {
            if cfg.o_jumps {
                instructions.set(end, Instruction::JumpNz(Jump::Redundant));
                assert(instructions@ =~= s.subrange(0, i as int) + t.update(end - i, Instruction::JumpNz(Jump::Redundant)));
                return LoopOutcome::MarkedRedundant(end);
            }
            return LoopOutcome::Skipped;
        },
        IterationDiff::Diff(0) | IterationDiff::ZeroedDiff(_) => {
            if let Instruction::JumpNz(Jump::Redundant) = instructions[end] {
                return LoopOutcome::Skipped;
            }
            return LoopOutcome::InfiniteLoop(end);
        },
        IterationDiff::Diff(_) => {
            return LoopOutcome::Skipped;
        },
    }
    if !cfg.o_arithmetic {
        return LoopOutcome::Skipped;
    }
    // second sweep: straight-line replacement
    let mut off: i32 = 0;
    let mut repl: Vec<Instruction> = Vec::new();
    let mut zeroed: Vec<i32> = Vec::new();
    let mut k: usize = i + 1;
    while k < end
        invariant
            i < k <= end < n,
            n == s.len(),
            instructions@ == s,
            body == s.subrange(i + 1, end as int),
            s == old(instructions)@,
            balanced(s) ==> balanced(s.subrange(0, i as int) + loop_rewrite(*cfg, s.subrange(i as int, s.len() as int)).0),
            t == s.subrange(i as int, s.len() as int),
            inner_loop(t) == Some(end - i),
            body == t.subrange(1, end - i),
            scan(body) == Some((0int, IterationDiff::Diff(-1i16))),
            cfg.o_arithmetic,
            in_i16(off as int),
            scan(body.subrange(0, k - i - 1)) is Some,
            off as int == scan(body.subrange(0, k - i - 1)).unwrap().0,
            repl@ == rewrite_body(body.subrange(0, k - i - 1)),
            !adds_after_clear(body.subrange(0, k - i - 1)),
            forall|x: int| #[trigger] cleared(body.subrange(0, k - i - 1), x) == listed(zeroed@, x),
        decreases end - k,
    {
        let ghost pre = body.subrange(0, k - i - 1);
        let ghost next = body.subrange(0, k - i);
        assert(next.drop_last() =~= pre);
        assert(next.last() == instructions@[k as int]);
        proof { lemma_scan_prefix(body, k - i); }
        let ghost z0 = zeroed@;
        let ghost off0 = off as int;
        let inst = instructions[k];
        match inst {
            Instruction::Shl(m) => {
                off = off - m as i32;
            },
            Instruction::Shr(m) => {
                off = off + m as i32;
            },
            Instruction::Inc(m) => {
                if off != 0 {
                    if is_listed(&zeroed, off) {
                        proof { lemma_adds_after_clear_prefix(body, k - i); }
                        return LoopOutcome::Skipped;
                    }
                    if m == 1 {
                        repl.push(Instruction::Add(off as i16));
                    } else {
                        repl.push(Instruction::AddMul(off as i16, m));
                    }
                }
            },
            Instruction::Dec(m) => {
                if off != 0 {
                    if is_listed(&zeroed, off) {
                        proof { lemma_adds_after_clear_prefix(body, k - i); }
                        return LoopOutcome::Skipped;
                    }
                    if m == 1 {
                        repl.push(Instruction::Sub(off as i16));
                    } else {
                        repl.push(Instruction::SubMul(off as i16, m));
                    }
                }
            },
            Instruction::Zero(o) => {
                let x = off + o as i32;
                let ghost before = zeroed@;
                zeroed.push(x);
                assert forall|y: int| #[trigger] listed(zeroed@, y) == (listed(before, y) || y == x as int) by {
                    if listed(zeroed@, y) {
                        let j = choose|j: int| 0 <= j < zeroed@.len() && zeroed@[j] as int == y;
                        if j < before.len() {
                            assert(before[j] == zeroed@[j]);
                        }
                    }
                    if listed(before, y) {
                        let j = choose|j: int| 0 <= j < before.len() && before[j] as int == y;
                        assert(zeroed@[j] == before[j]);
                    }
                    if y == x as int {
                        assert(zeroed@[before.len() as int] == x);
                    }
                }
                if x != 0 {
                    repl.push(Instruction::JumpZ(Jump::Location(UNRESOLVED)));
                    repl.push(Instruction::Zero(x as i16));
                    repl.push(Instruction::JumpNz(Jump::Redundant));
                }
            },
            _ => {},
        }
        k += 1;
        assert(repl@ =~= rewrite_body(next));
        assert forall|y: int| #[trigger] cleared(next, y) == listed(zeroed@, y) by {
            assert(cleared(pre, y) == listed(z0, y));
            if let Instruction::Zero(o) = inst {
                assert(listed(zeroed@, y) == (listed(z0, y) || y == off0 + o));
            } else {
                assert(zeroed@ == z0);
            }
        }
    }
    assert(body.subrange(0, end - i - 1) =~= body);
    repl.push(Instruction::Zero(0));
    let spliced = splice_range(instructions, i, end + 1, &repl);
    assert(spliced@ =~= s.subrange(0, i as int) + (repl@ + t.subrange(end - i + 1, t.len() as int)));
    *instructions = spliced;
    LoopOutcome::Rewritten(repl.len())
}

/// The arithmetic-loop pass run at every position of `t` from left to right,
/// skipping over code that a rewrite produced: the resulting instructions and
/// the (opening, closing) indices of each loop found never to terminate, with
/// `base` the index where `t` starts.
pub open spec fn sweep(cfg: Config, t: Seq<Instruction>, base: int) -> (Seq<Instruction>, Seq<(usize, usize)>)
    decreases t.len(),
    via sweep_decreases
{
    if t.len() == 0 {
        (t, Seq::empty())
    } else {
        let (t2, o) = loop_rewrite(cfg, t);
        match o {
            LoopOutcome::Rewritten(_) => {
                let e = inner_loop(t).unwrap();
                let r = replacement(t);
                let (rest, w) = sweep(cfg, t.subrange(e + 1, t.len() as int), base + r.len());
                (r + rest, w)
            },
            LoopOutcome::InfiniteLoop(e) => {
                let (rest, w) = sweep(cfg, t.drop_first(), base + 1);
                (seq![t[0]] + rest, seq![(base as usize, (base + e) as usize)] + w)
            },
            _ => {
                let (rest, w) = sweep(cfg, t2.drop_first(), base + 1);
                (seq![t2[0]] + rest, w)
            },
        }
    }
}

#[via_fn]
proof fn sweep_decreases(cfg: Config, t: Seq<Instruction>, base: int) {
    lemma_loop_rewrite_shape(cfg, t);
}

/// Runs the arithmetic-loop pass at every position; returns the
/// (opening, closing) indices of the loops found never to terminate.
pub fn arithmetic_pass(cfg: &Config, instructions: &mut Vec<Instruction>) -> (w: Vec<(usize, usize)>)
    ensures
        (final(instructions)@, w@) == sweep(*cfg, old(instructions)@, 0),
{
    let ghost total = sweep(*cfg, instructions@, 0);
    let mut warnings: Vec<(usize, usize)> = Vec::new();
    let mut i: usize = 0;
    assert(instructions@.subrange(0, 0) + instructions@.subrange(0, instructions@.len() as int) =~= instructions@);
    while i < instructions.len()
        invariant
            total == sweep(*cfg, old(instructions)@, 0),
            i <= instructions@.len(),
            ({
                let s = instructions@;
                let (rest, w) = sweep(*cfg, s.subrange(i as int, s.len() as int), i as int);
                total == (s.subrange(0, i as int) + rest, warnings@ + w)
            }),
        decreases instructions@.len() - i,
    {
        let ghost s = instructions@;
        let ghost t = s.subrange(i as int, s.len() as int);
        let ghost w0 = warnings@;
        let o = arithmetic_loop_pass(cfg, instructions, i);
        let ghost s2 = instructions@;
        let ghost t2 = loop_rewrite(*cfg, t).0;
        match o {
            LoopOutcome::Rewritten(k) => {
                proof { lemma_loop_rewrite_shape(*cfg, t); }
                let ghost e = inner_loop(t).unwrap();
                let ghost r = replacement(t);
                let len2 = instructions.len();
                assert(s2 =~= s.subrange(0, i as int) + r + t.subrange(e + 1, t.len() as int));
                assert(i + r.len() <= len2);
                assert(k == r.len());
                assert(s2.subrange(i + k, s2.len() as int) =~= t.subrange(e + 1, t.len() as int));
                assert(s2.subrange(0, i + k) =~= s.subrange(0, i as int) + r);
                i = i + k;
            },
            LoopOutcome::InfiniteLoop(e) => {
                proof { lemma_loop_rewrite_shape(*cfg, t); }
                warnings.push((i, e));
                assert(t2 == t);
                assert(s2 == s);
                assert(t.drop_first() =~= s.subrange(i + 1, s.len() as int));
                assert(s.subrange(0, i + 1) =~= s.subrange(0, i as int) + seq![t[0]]);
                assert(warnings@ == w0 + seq![(i, e)]);
                assert(w0 + (seq![(i, e)] + sweep(*cfg, t.drop_first(), i + 1).1) =~= warnings@ + sweep(*cfg, t.drop_first(), i + 1).1);
                i = i + 1;
            },
            _ => {
                proof { lemma_loop_rewrite_shape(*cfg, t); }
                assert(t2.drop_first() =~= s2.subrange(i + 1, s2.len() as int));
                assert(s2.subrange(0, i + 1) =~= s.subrange(0, i as int) + seq![t2[0]]);
                i = i + 1;
            },
        }
    }
    assert(instructions@.subrange(0, i as int) == instructions@);
    warnings
}

/// The replacement of a loop body opens and closes its guards in pairs.
proof fn lemma_rewrite_depth(b: Seq<Instruction>)
    ensures
        depth(rewrite_body(b), rewrite_body(b).len() as int) == 0,
        forall|k: int| 0 <= k <= rewrite_body(b).len() ==> #[trigger] depth(rewrite_body(b), k) >= 0,
    decreases b.len(),
{
    if b.len() > 0 {
        let pre = b.drop_last();
        lemma_rewrite_depth(pre);
        let x = rewrite_body(pre);
        let one = rewrite_one(scan(pre).unwrap().0, b.last());
        assert(rewrite_body(b) == x + one);
        assert forall|k: int| 0 <= k <= one.len() implies #[trigger] depth(one, k) >= 0 && (k == one.len() ==> depth(one, k) == 0) by {
            assert(depth(one, 0) == 0);
            if one.len() >= 1 {
                assert(depth(one, 1) >= 0);
            }
            if one.len() >= 2 {
                assert(depth(one, 2) >= 0);
            }
            if one.len() >= 3 {
                assert(depth(one, 3) == 0);
            }
        }
        assert forall|k: int| 0 <= k <= (x + one).len() implies #[trigger] depth(x + one, k) >= 0 by {
            if k <= x.len() {
                lemma_depth_concat(x, one, 0);
            } else {
                lemma_depth_concat(x, one, k - x.len());
            }
        }
        lemma_depth_concat(x, one, one.len() as int);
    }
}

/// Up to the first bracket after the opening one, the depth stays one above.
proof fn lemma_no_bracket_depth(t: Seq<Instruction>, j: int, e: int)
    requires
        1 <= j <= e,
        first_bracket(t, j) == Some(e),
        t.len() > 0,
        t[0] is JumpZ,
    ensures
        depth(t, e) == depth(t, j),
    decreases e - j,
{
    lemma_first_bracket_bounds(t, j);
    if j < e {
        assert(!(t[j] is JumpZ || t[j] is JumpNz));
        lemma_no_bracket_depth(t, j + 1, e);
    }
}

#[verifier::spinoff_prover]
#[verifier::rlimit(100)]
proof fn lemma_rewritten_keeps_balance(cfg: Config, s: Seq<Instruction>, i: int)
    requires
        0 <= i < s.len(),
        balanced(s),
        loop_rewrite(cfg, s.subrange(i, s.len() as int)).1 is Rewritten,
    ensures
        balanced(s.subrange(0, i) + loop_rewrite(cfg, s.subrange(i, s.len() as int)).0),
{
    let a = s.subrange(0, i);
    let t = s.subrange(i, s.len() as int);
    let (t2, o) = loop_rewrite(cfg, t);
    let f = a + t2;
    assert(a + t =~= s);
    lemma_loop_rewrite_shape(cfg, t);
        let e = inner_loop(t).unwrap();
        let r = replacement(t);
        let body = t.subrange(1, e);
        let rest = t.subrange(e + 1, t.len() as int);
        lemma_first_bracket_bounds(t, 1);
        assert(depth(t, 0) == 0);
        assert(depth(t, 1) == 1);
        lemma_no_bracket_depth(t, 1, e);
        assert(depth(t, e + 1) == 0);
        lemma_rewrite_depth(body);
        let rb = rewrite_body(body);
        assert(r == rb.push(Instruction::Zero(0)));
        assert(r =~= rb + seq![Instruction::Zero(0)]);
        lemma_depth_concat(rb, seq![Instruction::Zero(0)], 1);
        let z = seq![Instruction::Zero(0)];
        assert(z[0] == Instruction::Zero(0));
        assert(depth(z, 0) == 0);
        assert(depth(z, 1) == 0);
        assert forall|k: int| 0 <= k <= r.len() implies #[trigger] depth(r, k) >= 0 by {
            if k <= rb.len() {
                lemma_depth_concat(rb, seq![Instruction::Zero(0)], 0);
            }
        }
        assert(t2 == r + rest);
        assert(s.subrange(i + e + 1, s.len() as int) =~= rest);
        let head = t.subrange(0, e + 1);
        assert(t =~= head + rest);
        lemma_depth_concat(a, t, e + 1);
        assert(depth(t, e + 1) == depth(head, e + 1)) by {
            lemma_depth_concat(head, rest, 0);
        }
        lemma_splice_balance(s, i, i + e + 1, r);
        assert(f =~= s.subrange(0, i) + r + s.subrange(i + e + 1, s.len() as int));
}

proof fn lemma_splice_depth_at(s: Seq<Instruction>, i: int, e1: int, r: Seq<Instruction>, k: int)
    requires
        0 <= i <= e1 <= s.len(),
        0 <= k <= i + r.len() + (s.len() - e1),
    ensures
        ({
            let f = s.subrange(0, i) + r + s.subrange(e1, s.len() as int);
            depth(f, k) == if k <= i {
                depth(s, k)
            } else if k <= i + r.len() {
                depth(s, i) + depth(r, k - i)
            } else {
                depth(s, i) + depth(r, r.len() as int) + depth(s, k - i - r.len() + e1) - depth(s, e1)
            }
        }),
{
    let x = s.subrange(0, i);
    let y = s.subrange(e1, s.len() as int);
    assert(x + s.subrange(i, s.len() as int) =~= s);
    assert(s.subrange(0, e1) + y =~= s);
    lemma_depth_concat(x, s.subrange(i, s.len() as int), 0);
    if k <= i {
        lemma_depth_concat(x + r, y, 0);
        lemma_depth_concat(x, r, 0);
    } else if k <= i + r.len() {
        lemma_depth_concat(x + r, y, 0);
        lemma_depth_concat(x, r, k - i);
    } else {
        lemma_depth_concat(x + r, y, k - i - r.len());
        lemma_depth_concat(x, r, r.len() as int);
        lemma_depth_concat(s.subrange(0, e1), y, k - i - r.len());
        lemma_depth_concat(s.subrange(0, e1), y, 0);
    }
}

/// Replacing the range `i..e1` of a balanced program, across which the depth
/// does not change, by balanced code keeps the program balanced.
proof fn lemma_splice_balance(s: Seq<Instruction>, i: int, e1: int, r: Seq<Instruction>)
    requires
        0 <= i <= e1 <= s.len(),
        balanced(s),
        depth(s, e1) == depth(s, i),
        depth(r, r.len() as int) == 0,
        forall|k: int| 0 <= k <= r.len() ==> #[trigger] depth(r, k) >= 0,
    ensures
        balanced(s.subrange(0, i) + r + s.subrange(e1, s.len() as int)),
{
    let f = s.subrange(0, i) + r + s.subrange(e1, s.len() as int);
    assert forall|k: int| 0 <= k <= f.len() implies #[trigger] depth(f, k) >= 0 by {
        lemma_splice_depth_at(s, i, e1, r, k);
        if k > i + r.len() {
            assert(depth(s, k - i - r.len() + e1) >= 0);
        } else if k > i {
            assert(depth(r, k - i) >= 0);
        }
    }
    lemma_splice_depth_at(s, i, e1, r, f.len() as int);
}

/// The arithmetic-loop pass keeps a balanced program balanced.
pub proof fn loop_rewrite_keeps_balance(cfg: Config, s: Seq<Instruction>, i: int)
    requires
        0 <= i < s.len(),
        balanced(s),
    ensures
        balanced(s.subrange(0, i) + loop_rewrite(cfg, s.subrange(i, s.len() as int)).0),
{
    let a = s.subrange(0, i);
    let t = s.subrange(i, s.len() as int);
    let (t2, o) = loop_rewrite(cfg, t);
    let f = a + t2;
    assert(a + t =~= s);
    lemma_loop_rewrite_shape(cfg, t);
    if o is Rewritten {
        lemma_rewritten_keeps_balance(cfg, s, i);
    } else if o is MarkedRedundant {
        let e = inner_loop(t).unwrap();
        lemma_first_bracket_bounds(t, 1);
        assert forall|j: int| 0 <= j < s.len() implies (#[trigger] s[j] is JumpZ) == (f[j] is JumpZ) && (s[j] is JumpNz) == (f[j] is JumpNz) by {
            if j >= i {
                assert(f[j] == t2[j - i]);
                assert(s[j] == t[j - i]);
            } else {
                assert(f[j] == a[j]);
            }
        }
        assert forall|k: int| 0 <= k <= f.len() implies #[trigger] depth(f, k) == depth(s, k) by {
            lemma_depth_same_kinds(s, f, k);
        }
    } else {
        assert(t2 == t);
    }
}

/// A body whose scan fails at its `k`-th instruction fails as a whole.
proof fn lemma_scan_stuck(body: Seq<Instruction>, k: int)
    requires
        0 < k <= body.len(),
        scan(body.subrange(0, k)) is None,
    ensures
        scan(body) is None,
{
    if scan(body) is Some {
        lemma_scan_prefix(body, k);
    }
}

/// `JumpZ(_), Dec(1), JumpNz(_)`: a loop that counts its cell down to zero.
pub open spec fn is_clear_loop(t: Seq<Instruction>) -> bool {
    &&& t.len() >= 3
    &&& t[0] is JumpZ
    &&& t[1] == Instruction::Dec(1)
    &&& t[2] is JumpNz
}

/// The zero-loop pass: a left-to-right sweep that rewrites each clear loop as
/// `Zero(0)` and goes on after it.
pub open spec fn zero_loops(t: Seq<Instruction>) -> Seq<Instruction>
    decreases t.len(),
{
    if t.len() == 0 {
        t
    } else if is_clear_loop(t) {
        seq![Instruction::Zero(0)] + zero_loops(t.subrange(3, t.len() as int))
    } else {
        seq![t[0]] + zero_loops(t.drop_first())
    }
}

/// Replaces every `[-]` loop with `Zero(0)`.
pub fn zero_loop_pass(instructions: &mut Vec<Instruction>)
    ensures
        final(instructions)@ == zero_loops(old(instructions)@),
{
    let ghost s = instructions@;
    let n = instructions.len();
    let mut out: Vec<Instruction> = Vec::new();
    let mut i: usize = 0;
    assert(s.subrange(0, n as int) == s);
    while i < n
        invariant
            n == s.len(),
            instructions@ == s,
            i <= n,
            zero_loops(s) == out@ + zero_loops(s.subrange(i as int, n as int)),
        decreases n - i,
    {
        let ghost t = s.subrange(i as int, n as int);
        if n - i >= 3 && matches!(instructions[i], Instruction::JumpZ(_))
            && instructions[i + 1] == Instruction::Dec(1) && matches!(
            instructions[i + 2],
            Instruction::JumpNz(_)
        ) {
            assert(is_clear_loop(t));
            assert(t.subrange(3, t.len() as int) =~= s.subrange(i + 3, n as int));
            let ghost prev = out@;
            out.push(Instruction::Zero(0));
            assert(prev + (seq![Instruction::Zero(0)] + zero_loops(s.subrange(i + 3, n as int))) =~= out@ + zero_loops(s.subrange(i + 3, n as int)));
            i = i + 3;
        } else {
            assert(!is_clear_loop(t));
            assert(t.drop_first() =~= s.subrange(i + 1, n as int));
            let ghost prev = out@;
            out.push(instructions[i]);
            assert(prev + (seq![t[0]] + zero_loops(s.subrange(i + 1, n as int))) =~= out@ + zero_loops(s.subrange(i + 1, n as int)));
            i = i + 1;
        }
    }
    assert(out@ + zero_loops(s.subrange(n as int, n as int)) =~= out@);
    *instructions = out;
}

} // verus!
