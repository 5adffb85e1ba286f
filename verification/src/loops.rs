//! Bracket matching: every opening bracket learns the index of its closing
//! bracket, and every closing bracket that of its opening bracket.

use vstd::prelude::*;
use crate::command::Command;
use crate::error::Error;

verus! {

/// What a command adds to the nesting depth.
pub open spec fn delta(c: Command) -> int {
    match c {
        Command::LOOPSTART { .. } => 1,
        Command::LOOPEND { .. } => -1,
        _ => 0,
    }
}

/// Opening minus closing brackets among the commands at `from`, ..., `to - 1`.
pub open spec fn depth(s: Seq<Command>, from: int, to: int) -> int
    decreases to - from,
{
    if to <= from {
        0
    } else {
        depth(s, from, to - 1) + delta(s[to - 1])
    }
}

/// The bracket opened at `a` is still open after the command at `i - 1`:
/// from `a` on, the depth has stayed positive.
pub open spec fn pending(s: Seq<Command>, a: int, i: int) -> bool {
    forall|k: int| a < k <= i ==> #[trigger] depth(s, a, k) > 0
}

/// The closing bracket at `b` is the partner of the opening bracket at `a`:
/// it is the first place after `a` where the depth counted from `a` is back
/// at zero.
pub open spec fn partners(s: Seq<Command>, a: int, b: int) -> bool {
    &&& 0 <= a < b < s.len()
    &&& s[a] is LOOPSTART
    &&& s[b] is LOOPEND
    &&& pending(s, a, b)
    &&& depth(s, a, b + 1) == 0
}

/// No prefix closes more brackets than it opens.
pub open spec fn never_negative(s: Seq<Command>, i: int) -> bool {
    forall|k: int| 0 <= k <= i ==> #[trigger] depth(s, 0, k) >= 0
}

/// Every bracket has a partner.
pub open spec fn balanced(s: Seq<Command>) -> bool {
    never_negative(s, s.len() as int) && depth(s, 0, s.len() as int) == 0
}

/// The closing bracket at `i` is the first one without a partner.
pub open spec fn first_unmatched_close(s: Seq<Command>, i: int) -> bool {
    0 <= i < s.len() && never_negative(s, i) && depth(s, 0, i + 1) < 0
}

/// How the command at `a` stands in `r` once the commands before `i` have
/// been read: a pair that was closed before `i` points at each other, and
/// everything else is as it was in `s`.
pub open spec fn resolved_at(s: Seq<Command>, r: Seq<Command>, a: int, i: int) -> bool {
    match s[a] {
        Command::LOOPSTART { .. } => if a < i && !pending(s, a, i) {
            match r[a] {
                Command::LOOPSTART { end } => end < i && partners(s, a, end as int),
                _ => false,
            }
        } else {
            r[a] == s[a]
        },
        Command::LOOPEND { .. } => if a < i {
            match r[a] {
                Command::LOOPEND { start } => partners(s, start as int, a),
                _ => false,
            }
        } else {
            r[a] == s[a]
        },
        c => r[a] == c,
    }
}

/// `r` is `s` with the pairs that close before `i` resolved.
pub open spec fn resolved_upto(s: Seq<Command>, r: Seq<Command>, i: int) -> bool {
    &&& r.len() == s.len()
    &&& forall|a: int| 0 <= a < s.len() ==> #[trigger] resolved_at(s, r, a, i)
}

/// `r` is `s` with every bracket pointing at its partner.
pub open spec fn resolved(s: Seq<Command>, r: Seq<Command>) -> bool {
    &&& r.len() == s.len()
    &&& forall|a: int|
        0 <= a < s.len() ==> match #[trigger] s[a] {
            Command::LOOPSTART { .. } => match r[a] {
                Command::LOOPSTART { end } => partners(s, a, end as int),
                _ => false,
            },
            Command::LOOPEND { .. } => match r[a] {
                Command::LOOPEND { start } => partners(s, start as int, a),
                _ => false,
            },
            c => r[a] == c,
        }
}

/// An opening bracket has at most one partner.
pub proof fn lemma_partner_unique(s: Seq<Command>, a: int, b1: int, b2: int)
    requires
        partners(s, a, b1),
        partners(s, a, b2),
    ensures
        b1 == b2,
{
    if b1 < b2 {
        assert(depth(s, a, b1 + 1) > 0);
    } else if b2 < b1 {
        assert(depth(s, a, b2 + 1) > 0);
    }
}

/// The depth over a stretch is the sum of the depths over its two parts.
proof fn lemma_depth_split(s: Seq<Command>, a: int, b: int, c: int)
    requires
        a <= b <= c,
    ensures
        depth(s, a, c) == depth(s, a, b) + depth(s, b, c),
    decreases c - b,
{
    if b < c {
        lemma_depth_split(s, a, b, c - 1);
    } else {
        assert(depth(s, b, c) == 0);
    }
}

/// A closing bracket has at most one partner.
pub proof fn lemma_opener_unique(s: Seq<Command>, a1: int, a2: int, b: int)
    requires
        partners(s, a1, b),
        partners(s, a2, b),
    ensures
        a1 == a2,
{
    if a1 < a2 {
        lemma_depth_split(s, a1, a2, b + 1);
        assert(depth(s, a1, a2) > 0);
    } else if a2 < a1 {
        lemma_depth_split(s, a2, a1, b + 1);
        assert(depth(s, a2, a1) > 0);
    }
}

/// There is one way only to resolve a sequence.
pub proof fn lemma_resolved_unique(s: Seq<Command>, r1: Seq<Command>, r2: Seq<Command>)
    requires
        resolved(s, r1),
        resolved(s, r2),
    ensures
        r1 == r2,
{
    assert forall|a: int| 0 <= a < s.len() implies r1[a] == r2[a] by {
        match s[a] {
            Command::LOOPSTART { .. } => {
                lemma_partner_unique(s, a, r1[a]->end as int, r2[a]->end as int);
            },
            Command::LOOPEND { .. } => {
                lemma_opener_unique(s, r1[a]->start as int, r2[a]->start as int, a);
            },
            _ => {},
        }
    }
    assert(r1 =~= r2);
}

/// What the stack of open brackets holds before the command at `i`: the
/// pending brackets, innermost last, each at the place its depth gives.
spec fn stack_ok(s: Seq<Command>, stack: Seq<usize>, i: int) -> bool {
    &&& depth(s, 0, i) == stack.len()
    &&& forall|t: int|
        0 <= t < stack.len() ==> {
            &&& 0 <= #[trigger] stack[t] < i
            &&& s[stack[t] as int] is LOOPSTART
            &&& pending(s, stack[t] as int, i)
            &&& depth(s, stack[t] as int, i) == stack.len() - t
        }
    &&& forall|a: int|
        0 <= a < i && s[a] is LOOPSTART && #[trigger] pending(s, a, i) ==> {
            &&& 1 <= depth(s, a, i) <= stack.len()
            &&& stack[stack.len() - depth(s, a, i)] == a
        }
}

/// Reading one more command extends what is pending.
proof fn lemma_pending_step(s: Seq<Command>, a: int, i: int)
    requires
        0 <= a <= i,
    ensures
        pending(s, a, i + 1) <==> pending(s, a, i) && depth(s, a, i + 1) > 0,
{
    if pending(s, a, i) && depth(s, a, i + 1) > 0 {
        assert forall|k: int| a < k <= i + 1 implies #[trigger] depth(s, a, k) > 0 by {
            if k <= i {
            }
        }
    }
    if pending(s, a, i + 1) {
        assert(depth(s, a, i + 1) > 0);
        assert forall|k: int| a < k <= i implies #[trigger] depth(s, a, k) > 0 by {}
    }
}

/// The pending brackets other than the one at `i` keep their places on the
/// stack when the command at `i` has been read.
proof fn lemma_stack_places(s: Seq<Command>, old_stack: Seq<usize>, stack: Seq<usize>, i: int)
    requires
        0 <= i < s.len(),
        stack_ok(s, old_stack, i),
        stack.len() == old_stack.len() + delta(s[i]),
        forall|t: int| 0 <= t < stack.len() && t < old_stack.len() ==> stack[t] == old_stack[t],
        s[i] is LOOPSTART ==> stack[stack.len() - 1] == i,
    ensures
        stack_ok(s, stack, i + 1),
{
    assert(depth(s, i, i) == 0);
    assert(depth(s, i, i + 1) == delta(s[i]));
    assert(pending(s, i, i));
    assert forall|a: int| 0 <= a <= i implies (pending(s, a, i + 1) <==> pending(s, a, i) && depth(
        s,
        a,
        i + 1,
    ) > 0) by {
        lemma_pending_step(s, a, i);
    }
    assert forall|t: int| 0 <= t < stack.len() implies {
        &&& 0 <= #[trigger] stack[t] < i + 1
        &&& s[stack[t] as int] is LOOPSTART
        &&& pending(s, stack[t] as int, i + 1)
        &&& depth(s, stack[t] as int, i + 1) == stack.len() - t
    } by {
        if t < old_stack.len() {
            assert(stack[t] == old_stack[t]);
            lemma_pending_step(s, old_stack[t] as int, i);
        }
    }
    assert forall|a: int|
        0 <= a < i + 1 && s[a] is LOOPSTART && #[trigger] pending(s, a, i + 1) implies {
        &&& 1 <= depth(s, a, i + 1) <= stack.len()
        &&& stack[stack.len() - depth(s, a, i + 1)] == a
    } by {
        lemma_pending_step(s, a, i);
        if a < i {
            assert(pending(s, a, i));
            let d = depth(s, a, i);
            assert(old_stack[old_stack.len() - d] == a);
            assert(stack[old_stack.len() - d] == old_stack[old_stack.len() - d]);
        }
    }
}

/// Pairs every opening bracket with its closing bracket, in one pass from
/// left to right, and writes into each the index of the other.
///
/// Succeeds exactly on balanced sequences. A closing bracket without a
/// partner stops the pass where it stands; opening brackets without a
/// partner are found at the end. Either way the pairs closed so far stay
/// resolved and nothing else is changed.
pub fn find_loops(commands: &mut Vec<Command>) -> (result: Result<(), Error>)
    ensures
        final(commands)@.len() == old(commands)@.len(),
        match result {
            Ok(()) => balanced(old(commands)@) && resolved(old(commands)@, final(commands)@),
            Err(Error::UnmatchedClosingBracket) => exists|i: int|
                #[trigger] first_unmatched_close(old(commands)@, i) && resolved_upto(
                    old(commands)@,
                    final(commands)@,
                    i,
                ),
            Err(Error::UnmatchedOpeningBracket) => {
                &&& never_negative(old(commands)@, old(commands)@.len() as int)
                &&& depth(old(commands)@, 0, old(commands)@.len() as int) > 0
                &&& resolved_upto(old(commands)@, final(commands)@, old(commands)@.len() as int)
            },
            Err(_) => false,
        },
{
    let ghost s = commands@;
    let n = commands.len();
    let mut stack: Vec<usize> = Vec::new();
    let mut i: usize = 0;
    while i < n
        invariant
            s == old(commands)@,
            n == s.len(),
            commands@.len() == n,
            i <= n,
            never_negative(s, i as int),
            stack_ok(s, stack@, i as int),
            resolved_upto(s, commands@, i as int),
        decreases n - i,
    {
        let ghost before = commands@;
        let ghost old_stack = stack@;
        proof {
            assert forall|a: int| 0 <= a <= i implies (pending(s, a, i + 1) <==> pending(s, a, i as int)
                && depth(s, a, i + 1) > 0) by {
                lemma_pending_step(s, a, i as int);
            }
            assert(before[i as int] == s[i as int]) by {
                assert(resolved_at(s, before, i as int, i as int));
            }
            assert(depth(s, i as int, i as int) == 0);
            assert(depth(s, i as int, i + 1) == delta(s[i as int]));
            assert(pending(s, i as int, i as int));
        }
        match commands[i] {
            Command::LOOPSTART { .. } => {
                stack.push(i);
                proof {
                    lemma_stack_places(s, old_stack, stack@, i as int);
                    assert forall|a: int| 0 <= a < s.len() implies #[trigger] resolved_at(
                        s,
                        commands@,
                        a,
                        i + 1,
                    ) by {
                        assert(resolved_at(s, before, a, i as int));
                    }
                }
            },
            Command::LOOPEND { .. } => {
                if stack.len() == 0 {
                    proof {
                        assert(first_unmatched_close(s, i as int));
                    }
                    return Err(Error::UnmatchedClosingBracket);
                }
                let start = stack.pop().unwrap();
                commands.set(start, Command::LOOPSTART { end: i });
                commands.set(i, Command::LOOPEND { start });
                proof {
                    assert(start == old_stack[old_stack.len() - 1]);
                    assert(depth(s, start as int, i as int) == 1);
                    assert(partners(s, start as int, i as int));
                    lemma_stack_places(s, old_stack, stack@, i as int);
                    assert forall|a: int| 0 <= a < s.len() implies #[trigger] resolved_at(
                        s,
                        commands@,
                        a,
                        i + 1,
                    ) by {
                        assert(resolved_at(s, before, a, i as int));
                        if a < i && a != start && s[a] is LOOPSTART && pending(s, a, i as int) {
                            assert(old_stack[old_stack.len() - depth(s, a, i as int)] == a);
                        }
                    }
                }
            },
            _ => {
                proof {
                    lemma_stack_places(s, old_stack, stack@, i as int);
                    assert forall|a: int| 0 <= a < s.len() implies #[trigger] resolved_at(
                        s,
                        commands@,
                        a,
                        i + 1,
                    ) by {
                        assert(resolved_at(s, before, a, i as int));
                    }
                }
            },
        }
        i += 1;
    }
    if stack.len() != 0 {
        return Err(Error::UnmatchedOpeningBracket);
    }
    proof {
        assert forall|a: int| 0 <= a < s.len() implies match #[trigger] s[a] {
            Command::LOOPSTART { .. } => match commands@[a] {
                Command::LOOPSTART { end } => partners(s, a, end as int),
                _ => false,
            },
            Command::LOOPEND { .. } => match commands@[a] {
                Command::LOOPEND { start } => partners(s, start as int, a),
                _ => false,
            },
            c => commands@[a] == c,
        } by {
            assert(resolved_at(s, commands@, a, n as int));
        }
    }
    Ok(())
}

} // verus!
