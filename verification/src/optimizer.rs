//! The peephole optimizer: adjacent unit steps that undo each other are
//! removed, then runs of one repeated step are merged into a single step
//! with a larger amount.

use vstd::prelude::*;
use crate::command::Command;

verus! {

/// A move of the pointer one cell forward.
pub open spec fn inc_ptr() -> Command {
    Command::INCPTR { amount: 1 }
}

/// A move of the pointer one cell backward.
pub open spec fn dec_ptr() -> Command {
    Command::DECPTR { amount: 1 }
}

/// An increment of the cell by one.
pub open spec fn inc_val() -> Command {
    Command::INCVAL { amount: 1 }
}

/// A decrement of the cell by one.
pub open spec fn dec_val() -> Command {
    Command::DECVAL { amount: 1 }
}

/// `x` followed by `y` is `a` followed by `b`, or `b` followed by `a`.
pub open spec fn cancels(x: Command, y: Command, a: Command, b: Command) -> bool {
    (x == a && y == b) || (x == b && y == a)
}

/// The index of the first adjacent pair made of `a` and `b` at or after
/// `from`, or -1 where there is none.
pub open spec fn first_pair(s: Seq<Command>, a: Command, b: Command, from: int) -> int
    decreases s.len() - from,
{
    if from < 0 || from + 1 >= s.len() {
        -1
    } else if cancels(s[from], s[from + 1], a, b) {
        from
    } else {
        first_pair(s, a, b, from + 1)
    }
}

/// `s` without the two commands at `i` and `i + 1`.
pub open spec fn cut(s: Seq<Command>, i: int) -> Seq<Command> {
    s.subrange(0, i) + s.subrange(i + 2, s.len() as int)
}

/// What is left of `s` when the first adjacent pair made of `a` and `b` is
/// removed, again and again, until there is none.
pub open spec fn without_pairs(s: Seq<Command>, a: Command, b: Command) -> Seq<Command>
    decreases s.len(),
{
    let i = first_pair(s, a, b, 0);
    if 0 <= i && i + 1 < s.len() {
        without_pairs(cut(s, i), a, b)
    } else {
        s
    }
}

/// The result of the first pass: unit pointer moves that undo each other
/// are removed, then unit cell adjustments that undo each other.
pub open spec fn cancelled(s: Seq<Command>) -> Seq<Command> {
    without_pairs(without_pairs(s, inc_ptr(), dec_ptr()), inc_val(), dec_val())
}

/// The command with one more step in its amount, wrapping at the width of
/// the amount. Commands without an amount stay as they are.
pub open spec fn bump(c: Command) -> Command {
    match c {
        Command::INCPTR { amount } => Command::INCPTR {
            amount: if amount == isize::MAX {
                isize::MIN
            } else {
                (amount + 1) as isize
            },
        },
        Command::DECPTR { amount } => Command::DECPTR {
            amount: if amount == isize::MAX {
                isize::MIN
            } else {
                (amount + 1) as isize
            },
        },
        Command::INCVAL { amount } => Command::INCVAL {
            amount: if amount == u8::MAX {
                0u8
            } else {
                (amount + 1) as u8
            },
        },
        Command::DECVAL { amount } => Command::DECVAL {
            amount: if amount == u8::MAX {
                0u8
            } else {
                (amount + 1) as u8
            },
        },
        _ => c,
    }
}

/// The result of the second pass, command by command: one that carries an
/// amount and repeats the command before it adds a step to the command the
/// run began with; any other command is kept.
pub open spec fn coalesced(s: Seq<Command>) -> Seq<Command>
    decreases s.len(),
{
    if s.len() == 0 {
        s
    } else {
        let before = coalesced(s.drop_last());
        let c = s.last();
        if s.len() >= 2 && s[s.len() - 2] == c && c.has_amount() && before.len() > 0 {
            before.drop_last().push(bump(before.last()))
        } else {
            before.push(c)
        }
    }
}

/// The result of both passes.
pub open spec fn optimized(s: Seq<Command>) -> Seq<Command> {
    coalesced(cancelled(s))
}

/// The command with `k` more steps in its amount.
pub open spec fn bump_by(c: Command, k: nat) -> Command
    decreases k,
{
    if k == 0 {
        c
    } else {
        bump(bump_by(c, (k - 1) as nat))
    }
}

/// `n` copies of a command.
pub open spec fn repeated(c: Command, n: nat) -> Seq<Command> {
    Seq::new(n, |i: int| c)
}

/// A run of `n` copies of a command that carries an amount, behind
/// anything that does not end in that command, becomes that command once,
/// with one step added for each repetition.
pub proof fn lemma_coalesced_run(s: Seq<Command>, c: Command, n: nat)
    requires
        c.has_amount(),
        n >= 1,
        s.len() == 0 || s.last() != c,
    ensures
        coalesced(s + repeated(c, n)) == coalesced(s).push(bump_by(c, (n - 1) as nat)),
    decreases n,
{
    let t = s + repeated(c, n);
    if n == 1 {
        assert(t.drop_last() =~= s);
    } else {
        assert(t.drop_last() =~= s + repeated(c, (n - 1) as nat));
        lemma_coalesced_run(s, c, (n - 1) as nat);
        let before = coalesced(t.drop_last());
        assert(t[t.len() - 2] == c);
        assert(before.drop_last() =~= coalesced(s));
    }
}

/// A command that carries no amount is kept, whatever stands before it.
pub proof fn lemma_coalesced_keeps(s: Seq<Command>, c: Command)
    requires
        !c.has_amount(),
    ensures
        coalesced(s.push(c)) == coalesced(s).push(c),
{
    assert(s.push(c).drop_last() =~= s);
}

/// Steps added to a cell adjustment add up modulo 256.
pub proof fn lemma_bump_by_cell(amount: u8, k: nat)
    ensures
        bump_by(Command::INCVAL { amount }, k) == (Command::INCVAL {
            amount: ((amount + k) % 256) as u8,
        }),
        bump_by(Command::DECVAL { amount }, k) == (Command::DECVAL {
            amount: ((amount + k) % 256) as u8,
        }),
    decreases k,
{
    if k > 0 {
        lemma_bump_by_cell(amount, (k - 1) as nat);
    }
}

/// Steps added to a pointer move add up as long as the sum is an address.
pub proof fn lemma_bump_by_pointer(amount: isize, k: nat)
    requires
        amount + k <= isize::MAX,
    ensures
        bump_by(Command::INCPTR { amount }, k) == (Command::INCPTR {
            amount: (amount + k) as isize,
        }),
        bump_by(Command::DECPTR { amount }, k) == (Command::DECPTR {
            amount: (amount + k) as isize,
        }),
    decreases k,
{
    if k > 0 {
        lemma_bump_by_pointer(amount, (k - 1) as nat);
    }
}

/// A scan that has found no pair before `i` has the same first pair as a
/// scan from `i`.
proof fn lemma_first_pair_skip(s: Seq<Command>, a: Command, b: Command, i: int)
    requires
        0 <= i,
        forall|k: int| 0 <= k < i && k + 1 < s.len() ==> !cancels(#[trigger] s[k], s[k + 1], a, b),
    ensures
        first_pair(s, a, b, 0) == first_pair(s, a, b, i),
    decreases i,
{
    if i > 0 {
        lemma_first_pair_skip(s, a, b, i - 1);
        if i < s.len() {
            assert(!cancels(s[i - 1], s[i], a, b));
        }
    }
}

/// Removes the first adjacent pair made of `first` and `second`, in either
/// order, and says whether there was one.
fn remove_pair(program: &mut Vec<Command>, first: Command, second: Command) -> (removed: bool)
    ensures
        removed == (first_pair(old(program)@, first, second, 0) >= 0),
        removed ==> first_pair(old(program)@, first, second, 0) + 1 < old(program)@.len(),
        final(program)@ == if removed {
            cut(old(program)@, first_pair(old(program)@, first, second, 0))
        } else {
            old(program)@
        },
{
    let n = program.len();
    let mut i: usize = 0;
    while i < n && i + 1 < n
        invariant
            n == program@.len(),
            program@ == old(program)@,
            forall|k: int|
                0 <= k < i && k + 1 < n ==> !cancels(
                    #[trigger] program@[k],
                    program@[k + 1],
                    first,
                    second,
                ),
        decreases n - i,
    {
        if (program[i] == first && program[i + 1] == second) || (program[i] == second && program[i
            + 1] == first) {
            proof {
                lemma_first_pair_skip(program@, first, second, i as int);
            }
            program.remove(i + 1);
            program.remove(i);
            assert(program@ =~= cut(old(program)@, i as int));
            return true;
        }
        i += 1;
    }
    proof {
        lemma_first_pair_skip(program@, first, second, i as int);
    }
    false
}

/// Removes adjacent pairs of `first` and `second` until none is left.
fn remove_pairs(program: &mut Vec<Command>, first: Command, second: Command)
    ensures
        final(program)@ == without_pairs(old(program)@, first, second),
{
    let mut more = true;
    while more
        invariant
            without_pairs(program@, first, second) == without_pairs(old(program)@, first, second),
            !more ==> first_pair(program@, first, second, 0) < 0,
        decreases program@.len() + if more { 1int } else { 0int },
    {
        more = remove_pair(program, first, second);
    }
}

/// Removes adjacent unit steps that undo each other: first every pair of
/// opposite pointer moves, then every pair of opposite cell adjustments.
/// After each removal the search starts again at the beginning.
pub fn optimize_cancelling_pairs(program: &mut Vec<Command>)
    ensures
        final(program)@ == cancelled(old(program)@),
{
    remove_pairs(program, Command::INCPTR { amount: 1 }, Command::DECPTR { amount: 1 });
    remove_pairs(program, Command::INCVAL { amount: 1 }, Command::DECVAL { amount: 1 });
}

/// Whether a command carries an amount.
fn carries_amount(c: Command) -> (r: bool)
    ensures
        r == c.has_amount(),
{
    match c {
        Command::INCPTR { .. } => true,
        Command::DECPTR { .. } => true,
        Command::INCVAL { .. } => true,
        Command::DECVAL { .. } => true,
        _ => false,
    }
}

/// The command with one more step in its amount.
fn bumped(c: Command) -> (r: Command)
    ensures
        r == bump(c),
{
    match c {
        Command::INCPTR { amount } => Command::INCPTR { amount: amount.wrapping_add(1) },
        Command::DECPTR { amount } => Command::DECPTR { amount: amount.wrapping_add(1) },
        Command::INCVAL { amount } => Command::INCVAL { amount: amount.wrapping_add(1) },
        Command::DECVAL { amount } => Command::DECVAL { amount: amount.wrapping_add(1) },
        _ => c,
    }
}

/// Merges every run of one repeated pointer move or cell adjustment into
/// the first command of the run, which takes one more step for each
/// command merged into it. Output, input and brackets are never merged.
pub fn optimize_sequences(program: &mut Vec<Command>)
    ensures
        final(program)@ == coalesced(old(program)@),
{
    let n = program.len();
    let mut out: Vec<Command> = Vec::new();
    let mut i: usize = 0;
    while i < n
        invariant
            n == program@.len(),
            program@ == old(program)@,
            i <= n,
            out@ == coalesced(program@.take(i as int)),
            i > 0 ==> out@.len() > 0,
        decreases n - i,
    {
        let c = program[i];
        proof {
            assert(program@.take(i + 1).drop_last() =~= program@.take(i as int));
        }
        if i > 0 && program[i - 1] == c && carries_amount(c) {
            let head = out.pop().unwrap();
            out.push(bumped(head));
        } else {
            out.push(c);
        }
        i += 1;
    }
    assert(program@.take(n as int) =~= program@);
    *program = out;
}

/// Runs both passes: cancelling pairs, then merging runs.
pub fn optimize(program: &mut Vec<Command>)
    ensures
        final(program)@ == optimized(old(program)@),
{
    optimize_cancelling_pairs(program);
    optimize_sequences(program);
}

} // verus!
