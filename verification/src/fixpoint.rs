//! When optimizing a second time changes nothing.
//!
//! On the commands that the tokenizer emits, the second pass leaves no run
//! to merge, and unit cell adjustments that undo each other cannot come to
//! stand side by side. Unit pointer moves can: the first pass looks for
//! them before it removes cell adjustments, and `> + - <` leaves `> <`
//! behind. Such a result is the one case in which a second application
//! still finds work.

use vstd::prelude::*;
use crate::command::Command;
use crate::optimizer::{
    cancelled, cancels, coalesced, cut, dec_ptr, dec_val, first_pair, inc_ptr, inc_val,
    optimized, without_pairs,
};

verus! {

/// A command as the tokenizer emits it: where it carries an amount, the
/// amount is 1.
pub open spec fn is_unit(c: Command) -> bool {
    match c {
        Command::INCPTR { amount } => amount == 1,
        Command::DECPTR { amount } => amount == 1,
        Command::INCVAL { amount } => amount == 1,
        Command::DECVAL { amount } => amount == 1,
        _ => true,
    }
}

/// Every command is as the tokenizer emits it.
pub open spec fn unit_amounts(s: Seq<Command>) -> bool {
    forall|i: int| 0 <= i < s.len() ==> is_unit(#[trigger] s[i])
}

/// Nowhere does a command that carries an amount repeat the command before
/// it.
pub open spec fn no_repeats(s: Seq<Command>) -> bool {
    forall|k: int|
        0 <= k && k + 1 < s.len() ==> !(#[trigger] s[k] == s[k + 1] && s[k + 1].has_amount())
}

/// Neither pass finds anything to do: no unit pointer moves or unit cell
/// adjustments that undo each other side by side, and no run to merge.
pub open spec fn at_rest(s: Seq<Command>) -> bool {
    &&& first_pair(s, inc_ptr(), dec_ptr(), 0) < 0
    &&& first_pair(s, inc_val(), dec_val(), 0) < 0
    &&& no_repeats(s)
}

/// Nowhere does a command of the kind of `a` stand directly before one of
/// the kind of `b`.
spec fn no_adjacent(s: Seq<Command>, a: Command, b: Command) -> bool {
    forall|k: int|
        0 <= k && k + 1 < s.len() ==> !((#[trigger] s[k]).same_kind(a) && s[k + 1].same_kind(b))
}

/// Nowhere does a command that carries an amount follow one of its own
/// kind.
spec fn kinds_alternate(s: Seq<Command>) -> bool {
    forall|k: int|
        0 <= k && k + 1 < s.len() ==> !((#[trigger] s[k]).same_kind(s[k + 1]) && s[k
            + 1].has_amount())
}

/// A search for a pair finds none, or a pair at or after its start.
proof fn lemma_first_pair_found(s: Seq<Command>, a: Command, b: Command, from: int)
    requires
        0 <= from,
    ensures
        ({
            let i = first_pair(s, a, b, from);
            i == -1 || (from <= i && i + 1 < s.len() && cancels(s[i], s[i + 1], a, b))
        }),
        first_pair(s, a, b, from) == -1 ==> forall|k: int|
            from <= k && k + 1 < s.len() ==> !cancels(#[trigger] s[k], s[k + 1], a, b),
    decreases s.len() - from,
{
    if from + 1 < s.len() && !cancels(s[from], s[from + 1], a, b) {
        lemma_first_pair_found(s, a, b, from + 1);
    }
}

/// Where no pair stands, a search finds none.
proof fn lemma_first_pair_none(s: Seq<Command>, a: Command, b: Command, from: int)
    requires
        0 <= from,
        forall|k: int|
            from <= k && k + 1 < s.len() ==> !cancels(#[trigger] s[k], s[k + 1], a, b),
    ensures
        first_pair(s, a, b, from) == -1,
    decreases s.len() - from,
{
    if from + 1 < s.len() {
        lemma_first_pair_none(s, a, b, from + 1);
    }
}

/// Removing pairs leaves no pair, takes nothing but whole pairs away, and
/// keeps unit amounts.
proof fn lemma_without_pairs(s: Seq<Command>, a: Command, b: Command)
    ensures
        first_pair(without_pairs(s, a, b), a, b, 0) == -1,
        without_pairs(s, a, b).len() <= s.len(),
        first_pair(s, a, b, 0) >= 0 ==> without_pairs(s, a, b).len() < s.len(),
        unit_amounts(s) ==> unit_amounts(without_pairs(s, a, b)),
    decreases s.len(),
{
    lemma_first_pair_found(s, a, b, 0);
    let i = first_pair(s, a, b, 0);
    if 0 <= i && i + 1 < s.len() {
        lemma_without_pairs(cut(s, i), a, b);
        if unit_amounts(s) {
            assert forall|k: int| 0 <= k < cut(s, i).len() implies is_unit(
                #[trigger] cut(s, i)[k],
            ) by {
                if k < i {
                    assert(cut(s, i)[k] == s[k]);
                } else {
                    assert(cut(s, i)[k] == s[k + 2]);
                }
            }
        }
    }
}

/// Merging runs never lengthens a sequence, and the result ends with a
/// command of the kind the sequence ends with.
proof fn lemma_coalesced_last(s: Seq<Command>)
    ensures
        coalesced(s).len() <= s.len(),
        s.len() > 0 ==> coalesced(s).len() > 0 && coalesced(s).last().same_kind(s.last()),
    decreases s.len(),
{
    if s.len() > 0 {
        lemma_coalesced_last(s.drop_last());
    }
}

/// Two different kinds that were nowhere side by side are nowhere side by
/// side when the runs have been merged.
proof fn lemma_coalesced_kinds(s: Seq<Command>, a: Command, b: Command)
    requires
        !a.same_kind(b),
        no_adjacent(s, a, b),
    ensures
        no_adjacent(coalesced(s), a, b),
    decreases s.len(),
{
    if s.len() > 0 {
        let front = s.drop_last();
        let p = coalesced(front);
        let c = s.last();
        assert forall|k: int| 0 <= k && k + 1 < front.len() implies !((#[trigger] front[k]).same_kind(
            a,
        ) && front[k + 1].same_kind(b)) by {
            assert(front[k] == s[k]);
            assert(front[k + 1] == s[k + 1]);
        }
        lemma_coalesced_kinds(front, a, b);
        lemma_coalesced_last(front);
        let r = coalesced(s);
        assert forall|k: int| 0 <= k && k + 1 < r.len() implies !((#[trigger] r[k]).same_kind(a)
            && r[k + 1].same_kind(b)) by {
            if k + 1 < p.len() {
                assert(!(p[k].same_kind(a) && p[k + 1].same_kind(b)));
            } else {
                assert(front.last() == s[s.len() - 2]);
                assert(!(s[s.len() - 2].same_kind(a) && s[s.len() - 1].same_kind(b)));
            }
        }
    }
}

/// Merging the runs of unit commands leaves no command with an amount
/// behind one of its own kind.
proof fn lemma_coalesced_alternates(s: Seq<Command>)
    requires
        unit_amounts(s),
    ensures
        kinds_alternate(coalesced(s)),
    decreases s.len(),
{
    if s.len() > 0 {
        let front = s.drop_last();
        let p = coalesced(front);
        assert forall|k: int| 0 <= k < front.len() implies is_unit(#[trigger] front[k]) by {
            assert(front[k] == s[k]);
        }
        lemma_coalesced_alternates(front);
        lemma_coalesced_last(front);
        let r = coalesced(s);
        assert forall|k: int| 0 <= k && k + 1 < r.len() implies !((#[trigger] r[k]).same_kind(
            r[k + 1],
        ) && r[k + 1].has_amount()) by {
            if k + 1 < p.len() {
                assert(!(p[k].same_kind(p[k + 1]) && p[k + 1].has_amount()));
            } else {
                assert(front.last() == s[s.len() - 2]);
                assert(is_unit(s[s.len() - 2]));
                assert(is_unit(s[s.len() - 1]));
            }
        }
    }
}

/// Where no command with an amount repeats the command before it, there
/// is no run to merge.
proof fn lemma_coalesced_fixed(s: Seq<Command>)
    requires
        no_repeats(s),
    ensures
        coalesced(s) == s,
    decreases s.len(),
{
    if s.len() > 0 {
        let front = s.drop_last();
        assert forall|k: int| 0 <= k && k + 1 < front.len() implies !(#[trigger] front[k] == front[k
            + 1] && front[k + 1].has_amount()) by {
            assert(front[k] == s[k]);
            assert(front[k + 1] == s[k + 1]);
        }
        lemma_coalesced_fixed(front);
        if s.len() >= 2 {
            assert(!(s[s.len() - 2] == s[s.len() - 2 + 1] && s[s.len() - 2 + 1].has_amount()));
        }
        assert(front.push(s.last()) =~= s);
    }
}

/// Where a command with an amount repeats the command before it, merging
/// runs shortens the sequence.
proof fn lemma_coalesced_shorter(s: Seq<Command>)
    requires
        !no_repeats(s),
    ensures
        coalesced(s).len() < s.len(),
    decreases s.len(),
{
    let k = choose|k: int|
        0 <= k && k + 1 < s.len() && #[trigger] s[k] == s[k + 1] && s[k + 1].has_amount();
    let front = s.drop_last();
    lemma_coalesced_last(front);
    if k + 1 < s.len() - 1 {
        assert(front[k] == s[k] && front[k + 1] == s[k + 1]);
        lemma_coalesced_shorter(front);
    }
}

/// Unit commands of the kinds of `a` and `b` that never make a pair never
/// stand side by side, in this order.
proof fn lemma_no_pair_no_adjacent(s: Seq<Command>, a: Command, b: Command)
    requires
        unit_amounts(s),
        is_unit(a) && a.has_amount(),
        is_unit(b) && b.has_amount(),
        first_pair(s, a, b, 0) == -1,
    ensures
        no_adjacent(s, a, b),
        no_adjacent(s, b, a),
{
    lemma_first_pair_found(s, a, b, 0);
    assert forall|k: int| 0 <= k && k + 1 < s.len() implies !((#[trigger] s[k]).same_kind(a)
        && s[k + 1].same_kind(b)) && !(s[k].same_kind(b) && s[k + 1].same_kind(a)) by {
        assert(!cancels(s[k], s[k + 1], a, b));
        assert(is_unit(s[k]) && is_unit(s[k + 1]));
    }
}

/// Optimizing a second time changes nothing, for every sequence of unit
/// commands whose optimized form holds no pair of opposite unit pointer
/// moves side by side.
pub proof fn lemma_optimize_twice(s: Seq<Command>)
    requires
        unit_amounts(s),
        first_pair(optimized(s), inc_ptr(), dec_ptr(), 0) < 0,
    ensures
        optimized(optimized(s)) == optimized(s),
{
    let c1 = without_pairs(s, inc_ptr(), dec_ptr());
    let c = cancelled(s);
    let o = optimized(s);
    lemma_without_pairs(s, inc_ptr(), dec_ptr());
    lemma_without_pairs(c1, inc_val(), dec_val());
    lemma_no_pair_no_adjacent(c, inc_val(), dec_val());
    lemma_coalesced_kinds(c, inc_val(), dec_val());
    lemma_coalesced_kinds(c, dec_val(), inc_val());
    assert forall|k: int| 0 <= k && k + 1 < o.len() implies !cancels(
        #[trigger] o[k],
        o[k + 1],
        inc_val(),
        dec_val(),
    ) by {
        assert(!(o[k].same_kind(inc_val()) && o[k + 1].same_kind(dec_val())));
        assert(!(o[k].same_kind(dec_val()) && o[k + 1].same_kind(inc_val())));
    }
    lemma_first_pair_none(o, inc_val(), dec_val(), 0);
    assert(without_pairs(o, inc_ptr(), dec_ptr()) == o);
    assert(without_pairs(o, inc_val(), dec_val()) == o);
    assert(cancelled(o) == o);
    lemma_coalesced_alternates(c);
    assert forall|k: int| 0 <= k && k + 1 < o.len() implies !(#[trigger] o[k] == o[k + 1] && o[k
        + 1].has_amount()) by {
        assert(!(o[k].same_kind(o[k + 1]) && o[k + 1].has_amount()));
    }
    lemma_coalesced_fixed(o);
}

/// The optimizer leaves a sequence as it is exactly where neither pass
/// finds anything to do.
pub proof fn lemma_at_rest(s: Seq<Command>)
    ensures
        optimized(s) == s <==> at_rest(s),
{
    let c1 = without_pairs(s, inc_ptr(), dec_ptr());
    lemma_without_pairs(s, inc_ptr(), dec_ptr());
    lemma_without_pairs(c1, inc_val(), dec_val());
    lemma_coalesced_last(cancelled(s));
    if first_pair(s, inc_ptr(), dec_ptr(), 0) < 0 {
        assert(c1 == s);
        if first_pair(s, inc_val(), dec_val(), 0) < 0 {
            assert(cancelled(s) == s);
            if no_repeats(s) {
                lemma_coalesced_fixed(s);
            } else {
                lemma_coalesced_shorter(s);
            }
        }
    }
}

/// Where the optimized form does hold such a pair, a second application
/// removes it: the result is shorter, so the two differ.
pub proof fn lemma_optimize_twice_differs(s: Seq<Command>)
    requires
        first_pair(optimized(s), inc_ptr(), dec_ptr(), 0) >= 0,
    ensures
        optimized(optimized(s)).len() < optimized(s).len(),
{
    let o = optimized(s);
    let c1 = without_pairs(o, inc_ptr(), dec_ptr());
    lemma_without_pairs(o, inc_ptr(), dec_ptr());
    lemma_without_pairs(c1, inc_val(), dec_val());
    lemma_coalesced_last(cancelled(o));
}

/// For any sequence at all, optimizing twice gives what optimizing once
/// gives exactly where the first result is at rest.
pub proof fn lemma_optimize_twice_exact(s: Seq<Command>)
    ensures
        optimized(optimized(s)) == optimized(s) <==> at_rest(optimized(s)),
{
    lemma_at_rest(optimized(s));
}

} // verus!
