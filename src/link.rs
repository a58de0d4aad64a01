use vstd::prelude::*;
use crate::ir::{Instruction, Jump};

verus! {

/// Failure of the jump linker.
#[derive(Clone, Copy, Debug, PartialEq, Eq, Structural)]
pub enum LinkError {
    MismatchedBrackets,
}

/// Opening brackets minus closing brackets among the first `k` instructions.
pub open spec fn depth(s: Seq<Instruction>, k: int) -> int
    decreases k,
{
    if k <= 0 {
        0
    } else {
        depth(s, k - 1) + match s[k - 1] {
            Instruction::JumpZ(_) => 1int,
            Instruction::JumpNz(_) => -1int,
            _ => 0int,
        }
    }
}

/// Brackets are balanced and properly nested.
pub open spec fn balanced(s: Seq<Instruction>) -> bool {
    &&& forall|k: int| 0 <= k <= s.len() ==> #[trigger] depth(s, k) >= 0
    &&& depth(s, s.len() as int) == 0
}

/// Two instructions agree but for the index a concrete jump target holds.
pub open spec fn same_shape(a: Instruction, b: Instruction) -> bool {
    match (a, b) {
        (Instruction::JumpZ(Jump::Location(_)), Instruction::JumpZ(Jump::Location(_))) => true,
        (Instruction::JumpNz(Jump::Location(_)), Instruction::JumpNz(Jump::Location(_))) => true,
        _ => a == b,
    }
}

/// The `JumpZ` at `k`, if its target is concrete, points just past a `JumpNz`
/// below `bound` that points back just past it or is redundant.
pub open spec fn opener_linked(s: Seq<Instruction>, k: int, bound: int) -> bool {
    match s[k] {
        Instruction::JumpZ(Jump::Location(t)) => k + 1 < t <= bound && match s[t - 1] {
            Instruction::JumpNz(j) => j == Jump::Location((k + 1) as u32) || j == Jump::Redundant,
            _ => false,
        },
        _ => true,
    }
}

/// The `JumpNz` at `k`, if its target is concrete, points just past an earlier
/// `JumpZ` that points back just past it or is redundant.
pub open spec fn closer_linked(s: Seq<Instruction>, k: int) -> bool {
    match s[k] {
        Instruction::JumpNz(Jump::Location(t)) => 1 <= t <= k && match s[t - 1] {
            Instruction::JumpZ(j) => j == Jump::Location((k + 1) as u32) || j == Jump::Redundant,
            _ => false,
        },
        _ => true,
    }
}

/// A linked `JumpNz` whose partner is not among the pending openers.
spec fn closer_settled(s: Seq<Instruction>, k: int, pending: Seq<usize>) -> bool {
    &&& closer_linked(s, k)
    &&& match s[k] {
        Instruction::JumpNz(Jump::Location(t)) => !pending.contains((t - 1) as usize),
        _ => true,
    }
}

/// The brackets at `k` and `c` match in `s`: the nesting depth rises by one
/// at `k` and first comes back down at `c`.
pub open spec fn encloses(s: Seq<Instruction>, k: int, c: int) -> bool {
    &&& 0 <= k < c
    &&& depth(s, c) == depth(s, k) + 1
    &&& forall|j: int| k < j <= c ==> #[trigger] depth(s, j) >= depth(s, k) + 1
}

/// The concrete target of the `JumpZ` at `k` of `s` lies just past the
/// bracket that matches it in `orig`.
pub open spec fn opener_nested(orig: Seq<Instruction>, s: Seq<Instruction>, k: int) -> bool {
    match s[k] {
        Instruction::JumpZ(Jump::Location(t)) => encloses(orig, k, t - 1),
        _ => true,
    }
}

/// The concrete target of the `JumpNz` at `k` of `s` lies just past the
/// bracket that matches it in `orig`.
pub open spec fn closer_nested(orig: Seq<Instruction>, s: Seq<Instruction>, k: int) -> bool {
    match s[k] {
        Instruction::JumpNz(Jump::Location(t)) => encloses(orig, t - 1, k),
        _ => true,
    }
}

/// Each concrete target of `s` pairs brackets that match in `orig`.
pub open spec fn nested(orig: Seq<Instruction>, s: Seq<Instruction>) -> bool {
    &&& forall|k: int| 0 <= k < s.len() ==> #[trigger] opener_nested(orig, s, k)
    &&& forall|k: int| 0 <= k < s.len() ==> #[trigger] closer_nested(orig, s, k)
}

/// Every concrete jump target of the program addresses the instruction just
/// past its partner bracket.
pub open spec fn linked(s: Seq<Instruction>) -> bool {
    &&& forall|k: int| 0 <= k < s.len() ==> #[trigger] opener_linked(s, k, s.len() as int)
    &&& forall|k: int| 0 <= k < s.len() ==> #[trigger] closer_linked(s, k)
}

/// Depth over a concatenation.
pub proof fn lemma_depth_concat(x: Seq<Instruction>, y: Seq<Instruction>, k: int)
    requires
        0 <= k <= y.len(),
    ensures
        depth(x + y, x.len() + k) == depth(x, x.len() as int) + depth(y, k),
        forall|j: int| 0 <= j <= x.len() ==> #[trigger] depth(x + y, j) == depth(x, j),
    decreases k,
{
    if k > 0 {
        lemma_depth_concat(x, y, k - 1);
        assert((x + y)[x.len() + k - 1] == y[k - 1]);
    } else {
        assert forall|j: int| 0 <= j <= x.len() implies #[trigger] depth(x + y, j) == depth(x, j) by {
            lemma_depth_concat_prefix(x, y, j);
        }
    }
}

proof fn lemma_depth_concat_prefix(x: Seq<Instruction>, y: Seq<Instruction>, j: int)
    requires
        0 <= j <= x.len(),
    ensures
        depth(x + y, j) == depth(x, j),
    decreases j,
{
    if j > 0 {
        lemma_depth_concat_prefix(x, y, j - 1);
        assert((x + y)[j - 1] == x[j - 1]);
    }
}

/// Two sequences with a bracket of the same kind at each index have the same depths.
pub proof fn lemma_depth_same_kinds(a: Seq<Instruction>, b: Seq<Instruction>, k: int)
    requires
        0 <= k <= a.len(),
        a.len() == b.len(),
        forall|j: int| 0 <= j < a.len() ==> (#[trigger] a[j] is JumpZ) == (b[j] is JumpZ) && (a[j] is JumpNz) == (b[j] is JumpNz),
    ensures
        depth(a, k) == depth(b, k),
    decreases k,
{
    if k > 0 {
        lemma_depth_same_kinds(a, b, k - 1);
        assert((a[k - 1] is JumpZ) == (b[k - 1] is JumpZ));
    }
}

proof fn lemma_depth_same_shape(a: Seq<Instruction>, b: Seq<Instruction>, k: int)
    requires
        0 <= k <= a.len(),
        a.len() == b.len(),
        forall|j: int| 0 <= j < a.len() ==> #[trigger] same_shape(a[j], b[j]),
    ensures
        depth(a, k) == depth(b, k),
    decreases k,
{
    if k > 0 {
        lemma_depth_same_shape(a, b, k - 1);
        assert(same_shape(a[k - 1], b[k - 1]));
    }
}

/// Pairs each `JumpZ` with its `JumpNz` and writes into each concrete target
/// the index just past the partner; redundant targets stay as they are.
pub fn link(instructions: &mut Vec<Instruction>) -> (r: Result<(), LinkError>)
    requires
        old(instructions)@.len() < 0xffff_ffff,
    ensures
        final(instructions)@.len() == old(instructions)@.len(),
        forall|k: int|
            0 <= k < old(instructions)@.len() ==> #[trigger] same_shape(
                old(instructions)@[k],
                final(instructions)@[k],
            ),
        r is Ok <==> balanced(old(instructions)@),
        r is Ok ==> linked(final(instructions)@),
        r is Ok ==> balanced(final(instructions)@),
        r is Ok ==> nested(old(instructions)@, final(instructions)@),
{
    let ghost s = instructions@;
    let n = instructions.len();
    let mut stack: Vec<usize> = Vec::new();
    let mut i: usize = 0;
    while i < n
        invariant
            s == old(instructions)@,
            n == s.len(),
            n < 0xffff_ffff,
            i <= n,
            instructions@.len() == n,
            forall|k: int| 0 <= k < n ==> #[trigger] same_shape(s[k], instructions@[k]),
            forall|k: int| 0 <= k <= i ==> #[trigger] depth(s, k) >= 0,
            stack@.len() == depth(s, i as int),
            forall|a: int, b: int|
                0 <= a < b < stack@.len() ==> #[trigger] stack@[a] < #[trigger] stack@[b],
            forall|a: int| 0 <= a < stack@.len() ==> depth(s, #[trigger] stack@[a] as int) == a,
            forall|a: int, j: int|
                #![trigger stack@[a], depth(s, j)]
                0 <= a < stack@.len() && stack@[a] < j <= i ==> depth(s, j) >= a + 1,
            forall|k: int|
                0 <= k < i && !stack@.contains(k as usize) ==> #[trigger] opener_nested(s, instructions@, k),
            forall|k: int| 0 <= k < i ==> #[trigger] closer_nested(s, instructions@, k),
            forall|a: int|
                0 <= a < stack@.len() ==> #[trigger] stack@[a] < i && (
                instructions@[stack@[a] as int] is JumpZ),
            forall|k: int|
                0 <= k < i && !stack@.contains(k as usize) ==> #[trigger] opener_linked(
                    instructions@,
                    k,
                    i as int,
                ),
            forall|k: int|
                0 <= k < i ==> #[trigger] closer_settled(instructions@, k, stack@),
        decreases n - i,
    {
        let inst = instructions[i];
        let ghost before = instructions@;
        assert(same_shape(s[i as int], inst));
        match inst {
            Instruction::JumpZ(_) => {
                let ghost old_stack = stack@;
                stack.push(i);
                assert forall|x: usize| #[trigger] stack@.contains(x) <==> (old_stack.contains(x) || x == i) by {
                    if stack@.contains(x) {
                        let a = choose|a: int| 0 <= a < stack@.len() && stack@[a] == x;
                        if a < old_stack.len() {
                            assert(old_stack[a] == x);
                        }
                    }
                    if old_stack.contains(x) {
                        let a = choose|a: int| 0 <= a < old_stack.len() && old_stack[a] == x;
                        assert(stack@[a] == x);
                    }
                    if x == i {
                        assert(stack@[stack@.len() - 1] == x);
                    }
                }
                assert forall|k: int| 0 <= k <= i && !stack@.contains(k as usize) implies #[trigger] opener_linked(instructions@, k, i + 1) by {
                    assert(!old_stack.contains(k as usize));
                    assert(opener_linked(instructions@, k, i as int));
                }
                assert forall|k: int| 0 <= k <= i implies #[trigger] closer_settled(instructions@, k, stack@) by {
                    if k < i {
                        assert(closer_settled(instructions@, k, old_stack));
                        if let Instruction::JumpNz(Jump::Location(t)) = instructions@[k] {
                            assert(!old_stack.contains((t - 1) as usize));
                            assert(!stack@.contains((t - 1) as usize));
                        }
                    }
                }
                assert forall|k: int| 0 <= k <= i && !stack@.contains(k as usize) implies #[trigger] opener_nested(s, instructions@, k) by {
                    if k < i {
                        assert(!old_stack.contains(k as usize));
                    }
                }
                assert forall|k: int| 0 <= k <= i implies #[trigger] closer_nested(s, instructions@, k) by {
                    if k < i {
                        assert(closer_nested(s, instructions@, k));
                    }
                }
            },
            Instruction::JumpNz(closing) => {
                if stack.len() == 0 {
                    assert(depth(s, i + 1) < 0);
                    return Err(LinkError::MismatchedBrackets);
                }
                let ghost popped = stack@;
                let o = stack.pop().unwrap();
                assert(popped[popped.len() - 1] == o);
                if let Instruction::JumpNz(Jump::Location(_)) = inst {
                    instructions.set(i, Instruction::JumpNz(Jump::Location(o as u32 + 1)));
                }
                let opening = instructions[o];
                if let Instruction::JumpZ(Jump::Location(_)) = opening {
                    instructions.set(o, Instruction::JumpZ(Jump::Location(i as u32 + 1)));
                }
                let ghost cur = instructions@;
                assert(o < i && before[o as int] is JumpZ);
                assert forall|k: int| 0 <= k < n implies #[trigger] same_shape(s[k], cur[k]) by {
                    assert(same_shape(s[k], before[k]));
                }
                assert(forall|a: int| 0 <= a < stack@.len() ==> stack@[a] == popped[a]);
                assert(forall|k: int| 0 <= k < n && k != i && k != o ==> cur[k] == before[k]);
                assert forall|k: int|
                    0 <= k <= i && !stack@.contains(k as usize) implies #[trigger] opener_linked(
                        cur,
                        k,
                        i + 1,
                    ) by {
                    if k < i && k != o {
                        if popped.contains(k as usize) {
                            let a = choose|a: int| 0 <= a < popped.len() && popped[a] == k as usize;
                            if a < stack@.len() {
                                assert(stack@[a] == k as usize);
                            } else {
                                assert(k == o);
                            }
                        }
                        assert(opener_linked(before, k, i as int));
                        if let Instruction::JumpZ(Jump::Location(t)) = before[k] {
                            assert(t - 1 != o) by {
                                if t - 1 == o {
                                    assert(before[o as int] is JumpZ);
                                }
                            }
                        }
                    } else if k == o {
                        assert(cur[i as int] is JumpNz);
                    } else {
                        assert(cur[i as int] is JumpNz);
                    }
                }
                assert forall|k: int| 0 <= k <= i implies #[trigger] closer_settled(cur, k, stack@) by {
                    if k < i && k != o {
                        assert(closer_settled(before, k, popped));
                        if let Instruction::JumpNz(Jump::Location(t)) = before[k] {
                            assert(!popped.contains((t - 1) as usize));
                            assert((t - 1) as usize != o) by {
                                assert(popped[popped.len() - 1] == o);
                            }
                            if stack@.contains((t - 1) as usize) {
                                let a = choose|a: int| 0 <= a < stack@.len() && stack@[a] == (t - 1) as usize;
                                assert(popped[a] == (t - 1) as usize);
                            }
                        }
                    }
                    if k == i {
                        if stack@.contains(o) {
                            let a = choose|a: int| 0 <= a < stack@.len() && stack@[a] == o;
                            assert(popped[a] < popped[popped.len() - 1]);
                        }
                        if let Instruction::JumpNz(Jump::Location(t)) = cur[k] {
                            assert(t == o + 1);
                            assert(cur[o as int] is JumpZ);
                            assert(closer_linked(cur, k));
                        }
                    }
                }
                let ghost top = (popped.len() - 1) as int;
                assert(popped[top] == o);
                assert(depth(s, o as int) == top);
                assert(encloses(s, o as int, i as int)) by {
                    assert forall|j: int| o < j <= i implies #[trigger] depth(s, j) >= depth(s, o as int) + 1 by {
                        assert(popped[top] < j <= i);
                    }
                }
                assert forall|k: int| 0 <= k <= i && !stack@.contains(k as usize) implies #[trigger] opener_nested(s, cur, k) by {
                    if k < i && k != o {
                        if popped.contains(k as usize) {
                            let a = choose|a: int| 0 <= a < popped.len() && popped[a] == k as usize;
                            if a < stack@.len() {
                                assert(stack@[a] == k as usize);
                            }
                        }
                        assert(opener_nested(s, before, k));
                    }
                }
                assert forall|k: int| 0 <= k <= i implies #[trigger] closer_nested(s, cur, k) by {
                    if k < i && k != o {
                        assert(closer_nested(s, before, k));
                    }
                }
            },
            _ => {
                assert forall|k: int| 0 <= k <= i && !stack@.contains(k as usize) implies #[trigger] opener_linked(instructions@, k, i + 1) by {
                    if k < i {
                        assert(opener_linked(instructions@, k, i as int));
                    }
                }
                assert forall|k: int| 0 <= k <= i implies #[trigger] closer_settled(instructions@, k, stack@) by {
                    if k < i {
                        assert(closer_settled(instructions@, k, stack@));
                    }
                }
                assert forall|k: int| 0 <= k <= i && !stack@.contains(k as usize) implies #[trigger] opener_nested(s, instructions@, k) by {
                    if k < i {
                        assert(opener_nested(s, instructions@, k));
                    }
                }
                assert forall|k: int| 0 <= k <= i implies #[trigger] closer_nested(s, instructions@, k) by {
                    if k < i {
                        assert(closer_nested(s, instructions@, k));
                    }
                }
            },
        }
        i += 1;
    }
    if stack.len() != 0 {
        return Err(LinkError::MismatchedBrackets);
    }
    proof {
        assert forall|k: int| 0 <= k <= n implies #[trigger] depth(instructions@, k) == depth(s, k) by {
            lemma_depth_same_shape(s, instructions@, k);
        }
    }
    assert(linked(instructions@)) by {
        assert forall|k: int| 0 <= k < n implies #[trigger] opener_linked(instructions@, k, n as int) by {
            assert(!stack@.contains(k as usize));
        }
        assert forall|k: int| 0 <= k < n implies #[trigger] closer_linked(instructions@, k) by {
            assert(closer_settled(instructions@, k, stack@));
        }
    }
    assert(nested(s, instructions@)) by {
        assert forall|k: int| 0 <= k < n implies #[trigger] opener_nested(s, instructions@, k) by {
            assert(!stack@.contains(k as usize));
        }
    }
    Ok(())
}

} // verus!
