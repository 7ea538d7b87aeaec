//! The peephole optimizer, and the sanitizer that makes a program fit for the
//! code generator.

use crate::assembler::{
    counts_match, instrs, jump_count, lemma_jump_count_remove, lemma_jump_count_update, AsmCommand,
    Instr, LabelId, PietAsm,
};
use crate::assembler::{labels_present, lemma_jump_count_concat};
use crate::bigint::{big_add, big_from_i64, big_lt, big_mul, big_sqrt, big_sub, big_to_u32, big_value};
use num_bigint::BigInt;
use vstd::prelude::*;

verus! {

/// A push of a small number.
pub fn push(val: i32) -> (r: AsmCommand)
    ensures
        r@ == Instr::Push(val as int),
{
    AsmCommand::Push(big_from_i64(val as i64))
}

/// The rewrites of the optimizer, in the order in which they are tried.
pub enum Rewrite {
    /// Drop every label that no jump names.
    DropLabels,
    /// Drop the first jump that stands just before its label.
    DropJump(int),
    /// Turn the second of the last two equal pushes in a row into a
    /// duplicate.
    DupPush(int),
    /// Turn the first three negations in a row into one.
    TripleNot(int),
}

/// Whether the command is a label that no jump names.
pub open spec fn dead_label(c: Instr, counts: Seq<usize>) -> bool {
    match c {
        Instr::Label(id) => id < counts.len() && counts[id as int] == 0,
        _ => false,
    }
}

/// Whether a jump stands at `i` just before its label.
pub open spec fn jump_to_next(s: Seq<Instr>, i: int) -> bool {
    &&& 0 <= i < s.len() - 1
    &&& s[i] is Jump
    &&& s[i + 1] == Instr::Label(s[i]->Jump_0)
}

/// Whether two equal pushes stand at `i` and after it.
pub open spec fn double_push(s: Seq<Instr>, i: int) -> bool {
    &&& 0 <= i < s.len() - 1
    &&& s[i] is Push
    &&& s[i] == s[i + 1]
}

/// Whether three negations stand at `i` and after it.
pub open spec fn triple_not(s: Seq<Instr>, i: int) -> bool {
    &&& 0 <= i < s.len() - 2
    &&& s[i] == Instr::Not
    &&& s[i + 1] == Instr::Not
    &&& s[i + 2] == Instr::Not
}

/// `s` without the labels that no jump names.
pub open spec fn without_dead_labels(s: Seq<Instr>, counts: Seq<usize>) -> Seq<Instr>
    decreases s.len(),
{
    if s.len() == 0 {
        s
    } else if dead_label(s.last(), counts) {
        without_dead_labels(s.drop_last(), counts)
    } else {
        without_dead_labels(s.drop_last(), counts).push(s.last())
    }
}

/// The least index from `i` up to `n` at which `p` holds.
pub open spec fn first_at(p: spec_fn(int) -> bool, i: int, n: int) -> Option<int>
    decreases n - i,
{
    if i >= n {
        None
    } else if p(i) {
        Some(i)
    } else {
        first_at(p, i + 1, n)
    }
}

/// The greatest index below `n`, and not below zero, at which `p` holds.
pub open spec fn last_at(p: spec_fn(int) -> bool, n: int) -> Option<int>
    decreases n,
{
    if n <= 0 {
        None
    } else if p(n - 1) {
        Some(n - 1)
    } else {
        last_at(p, n - 1)
    }
}

/// What `first_at` finds is the least index at which `p` holds.
pub proof fn lemma_first_at(p: spec_fn(int) -> bool, i: int, n: int)
    ensures
        match first_at(p, i, n) {
            Some(k) => i <= k < n && p(k) && forall|j: int| i <= j < k ==> !#[trigger] p(j),
            None => forall|j: int| i <= j < n ==> !#[trigger] p(j),
        },
    decreases n - i,
{
    if i < n && !p(i) {
        lemma_first_at(p, i + 1, n);
    }
}

/// What `last_at` finds is the greatest index at which `p` holds.
pub proof fn lemma_last_at(p: spec_fn(int) -> bool, n: int)
    ensures
        match last_at(p, n) {
            Some(k) => 0 <= k < n && p(k) && forall|j: int| k < j < n ==> !#[trigger] p(j),
            None => forall|j: int| 0 <= j < n ==> !#[trigger] p(j),
        },
    decreases n,
{
    if n > 0 && !p(n - 1) {
        lemma_last_at(p, n - 1);
    }
}

/// The rewrite that applies to a program, if any does: the first in their
/// order. A jump is dropped at the first place where one stands before its
/// label, a push is turned at the last place where two equal ones stand in a
/// row, negations are merged at the first place where three stand in a row.
pub open spec fn rewrite_of(s: Seq<Instr>, counts: Seq<usize>) -> Option<Rewrite> {
    let n = s.len() as int;
    if first_at(dead_at(s, counts), 0, n) is Some {
        Some(Rewrite::DropLabels)
    } else if first_at(jump_at(s), 0, n) is Some {
        Some(Rewrite::DropJump(first_at(jump_at(s), 0, n).unwrap()))
    } else if last_at(double_at(s), n) is Some {
        Some(Rewrite::DupPush(last_at(double_at(s), n).unwrap()))
    } else if first_at(triple_at(s), 0, n) is Some {
        Some(Rewrite::TripleNot(first_at(triple_at(s), 0, n).unwrap()))
    } else {
        None
    }
}

/// Where in `s` a label stands that no jump names.
pub open spec fn dead_at(s: Seq<Instr>, counts: Seq<usize>) -> spec_fn(int) -> bool {
    |i: int| 0 <= i < s.len() && dead_label(s[i], counts)
}

/// Where in `s` a jump stands just before its label.
pub open spec fn jump_at(s: Seq<Instr>) -> spec_fn(int) -> bool {
    |i: int| jump_to_next(s, i)
}

/// Where in `s` two equal pushes stand in a row.
pub open spec fn double_at(s: Seq<Instr>) -> spec_fn(int) -> bool {
    |i: int| double_push(s, i)
}

/// Where in `s` three negations stand in a row.
pub open spec fn triple_at(s: Seq<Instr>) -> spec_fn(int) -> bool {
    |i: int| triple_not(s, i)
}

/// The program after a rewrite.
pub open spec fn rewritten(s: Seq<Instr>, counts: Seq<usize>, rw: Rewrite) -> (Seq<Instr>, Seq<usize>) {
    match rw {
        Rewrite::DropLabels => (without_dead_labels(s, counts), counts),
        Rewrite::DropJump(i) => (
            s.remove(i),
            counts.update(s[i]->Jump_0 as int, (counts[s[i]->Jump_0 as int] - 1) as usize),
        ),
        Rewrite::DupPush(i) => (s.update(i + 1, Instr::Duplicate), counts),
        Rewrite::TripleNot(i) => (s.remove(i).remove(i), counts),
    }
}

/// What a rewrite has to bring down: the length, with a push counting double.
pub open spec fn weight(s: Seq<Instr>) -> nat
    decreases s.len(),
{
    if s.len() == 0 {
        0
    } else {
        weight(s.drop_last()) + if s.last() is Push {
            2nat
        } else {
            1nat
        }
    }
}

/// The weight of one command.
pub open spec fn weight_of(c: Instr) -> nat {
    if c is Push {
        2
    } else {
        1
    }
}

/// Removing a command takes its weight off.
pub proof fn lemma_weight_remove(s: Seq<Instr>, i: int)
    requires
        0 <= i < s.len(),
    ensures
        weight(s.remove(i)) + weight_of(s[i]) == weight(s),
    decreases s.len(),
{
    if i == s.len() - 1 {
        assert(s.remove(i) =~= s.drop_last());
    } else {
        assert(s.remove(i).drop_last() =~= s.drop_last().remove(i));
        assert(s.remove(i).last() == s.last());
        lemma_weight_remove(s.drop_last(), i);
    }
}

/// Replacing a command swaps its weight for that of the new one.
pub proof fn lemma_weight_update(s: Seq<Instr>, i: int, c: Instr)
    requires
        0 <= i < s.len(),
    ensures
        weight(s.update(i, c)) + weight_of(s[i]) == weight(s) + weight_of(c),
    decreases s.len(),
{
    if i == s.len() - 1 {
        assert(s.update(i, c).drop_last() =~= s.drop_last());
    } else {
        assert(s.update(i, c).drop_last() =~= s.drop_last().update(i, c));
        lemma_weight_update(s.drop_last(), i, c);
    }
}

/// Dropping the labels that no jump names makes a program no longer and no
/// heavier, and shorter and lighter if there is such a label.
pub proof fn lemma_without_dead_labels(s: Seq<Instr>, counts: Seq<usize>)
    ensures
        without_dead_labels(s, counts).len() <= s.len(),
        weight(without_dead_labels(s, counts)) <= weight(s),
        (exists|i: int| 0 <= i < s.len() && dead_label(#[trigger] s[i], counts)) ==> {
            &&& without_dead_labels(s, counts).len() < s.len()
            &&& weight(without_dead_labels(s, counts)) < weight(s)
        },
        forall|i: int|
            0 <= i < without_dead_labels(s, counts).len() ==> !dead_label(
                #[trigger] without_dead_labels(s, counts)[i],
                counts,
            ),
    decreases s.len(),
{
    if s.len() > 0 {
        let rest = s.drop_last();
        lemma_without_dead_labels(rest, counts);
        if exists|i: int| 0 <= i < s.len() && dead_label(#[trigger] s[i], counts) {
            let i = choose|i: int| 0 <= i < s.len() && dead_label(#[trigger] s[i], counts);
            if i < s.len() - 1 {
                assert(dead_label(rest[i], counts));
            }
        }
        if !dead_label(s.last(), counts) {
            let out = without_dead_labels(s, counts);
            assert(out.drop_last() =~= without_dead_labels(rest, counts));
        }
    }
}

/// Every rewrite makes a program lighter and no longer; dropping a jump
/// makes it shorter by one.
pub proof fn lemma_rewrite_shrinks(s: Seq<Instr>, counts: Seq<usize>)
    requires
        rewrite_of(s, counts) is Some,
    ensures
        ({
            let rw = rewrite_of(s, counts).unwrap();
            let next = rewritten(s, counts, rw).0;
            &&& weight(next) < weight(s)
            &&& next.len() <= s.len()
            &&& rw is DropJump ==> next.len() == s.len() - 1
            &&& rw is DropLabels ==> next.len() < s.len()
            &&& rw is DupPush ==> next.len() == s.len()
            &&& rw is TripleNot ==> next.len() == s.len() - 2
        }),
{
    let n = s.len() as int;
    lemma_first_at(dead_at(s, counts), 0, n);
    lemma_first_at(jump_at(s), 0, n);
    lemma_last_at(double_at(s), n);
    lemma_first_at(triple_at(s), 0, n);
    match rewrite_of(s, counts).unwrap() {
        Rewrite::DropLabels => {
            let k = first_at(dead_at(s, counts), 0, n).unwrap();
            assert(dead_at(s, counts)(k));
            assert(dead_label(s[k], counts));
            lemma_without_dead_labels(s, counts);
        },
        Rewrite::DropJump(i) => {
            assert(jump_at(s)(i));
            lemma_weight_remove(s, i);
        },
        Rewrite::DupPush(i) => {
            assert(double_at(s)(i));
            lemma_weight_update(s, i + 1, Instr::Duplicate);
        },
        Rewrite::TripleNot(i) => {
            assert(triple_at(s)(i));
            lemma_weight_remove(s, i);
            lemma_weight_remove(s.remove(i), i);
        },
    }
}

/// The program that the rewrites lead to when each is applied as long as any
/// applies.
pub open spec fn optimized(s: Seq<Instr>, counts: Seq<usize>) -> (Seq<Instr>, Seq<usize>)
    decreases weight(s),
    via optimized_decreases
{
    match rewrite_of(s, counts) {
        None => (s, counts),
        Some(rw) => optimized(rewritten(s, counts, rw).0, rewritten(s, counts, rw).1),
    }
}

#[via_fn]
proof fn optimized_decreases(s: Seq<Instr>, counts: Seq<usize>) {
    if rewrite_of(s, counts) is Some {
        lemma_rewrite_shrinks(s, counts);
    }
}

/// The optimizer comes to an end, with a program to which no rewrite applies
/// and which is no longer than the one it began with.
pub proof fn lemma_optimized_settled(s: Seq<Instr>, counts: Seq<usize>)
    ensures
        rewrite_of(optimized(s, counts).0, optimized(s, counts).1) is None,
        optimized(s, counts).0.len() <= s.len(),
    decreases weight(s),
{
    if rewrite_of(s, counts) is Some {
        lemma_rewrite_shrinks(s, counts);
        let rw = rewrite_of(s, counts).unwrap();
        lemma_optimized_settled(rewritten(s, counts, rw).0, rewritten(s, counts, rw).1);
    }
}

/// Dropping labels leaves the jumps as they are, and names no label that was
/// not named before.
pub proof fn lemma_without_dead_labels_jumps(s: Seq<Instr>, counts: Seq<usize>, id: LabelId)
    ensures
        jump_count(without_dead_labels(s, counts), id) == jump_count(s, id),
        forall|j: int|
            0 <= j < without_dead_labels(s, counts).len() ==> s.contains(
                #[trigger] without_dead_labels(s, counts)[j],
            ),
    decreases s.len(),
{
    if s.len() > 0 {
        let rest = s.drop_last();
        let out = without_dead_labels(s, counts);
        lemma_without_dead_labels_jumps(rest, counts, id);
        if !dead_label(s.last(), counts) {
            assert(out.drop_last() =~= without_dead_labels(rest, counts));
        }
        assert forall|j: int| 0 <= j < out.len() implies s.contains(#[trigger] out[j]) by {
            if j < without_dead_labels(rest, counts).len() {
                let c = without_dead_labels(rest, counts)[j];
                assert(rest.contains(c));
                let i = choose|i: int| 0 <= i < rest.len() && rest[i] == c;
                assert(s[i] == c);
            } else {
                assert(s[s.len() - 1] == out[j]);
            }
        }
    }
}

/// A list with a jump to `id` in it counts at least one.
pub proof fn lemma_jump_counted(s: Seq<Instr>, i: int, id: LabelId)
    requires
        0 <= i < s.len(),
        s[i].jumps_to(id),
    ensures
        jump_count(s, id) >= 1,
{
    lemma_jump_count_remove(s, i, id);
}

/// A rewrite keeps the jump counts right.
pub proof fn lemma_rewrite_keeps_counts(s: Seq<Instr>, counts: Seq<usize>)
    requires
        counts_match(s, counts),
        rewrite_of(s, counts) is Some,
    ensures
        ({
            let rw = rewrite_of(s, counts).unwrap();
            &&& counts_match(rewritten(s, counts, rw).0, rewritten(s, counts, rw).1)
            &&& rw is DropJump ==> {
                let i = rw->DropJump_0;
                &&& jump_to_next(s, i)
                &&& s[i]->Jump_0 < counts.len()
                &&& counts[s[i]->Jump_0 as int] >= 1
            }
            &&& rw is DupPush ==> double_push(s, rw->DupPush_0)
            &&& rw is TripleNot ==> triple_not(s, rw->TripleNot_0)
        }),
{
    let n = s.len() as int;
    lemma_first_at(dead_at(s, counts), 0, n);
    lemma_first_at(jump_at(s), 0, n);
    lemma_last_at(double_at(s), n);
    lemma_first_at(triple_at(s), 0, n);
    let rw = rewrite_of(s, counts).unwrap();
    let next = rewritten(s, counts, rw).0;
    let next_counts = rewritten(s, counts, rw).1;
    match rw {
        Rewrite::DropLabels => {
            assert forall|id: LabelId| id < next_counts.len() implies #[trigger] next_counts[id as int]
                == jump_count(next, id) by {
                lemma_without_dead_labels_jumps(s, counts, id);
            }
            lemma_without_dead_labels_jumps(s, counts, 0);
            assert forall|j: int|
                0 <= j < next.len() && (#[trigger] next[j]).target().is_some() implies next[j].target().unwrap()
                < next_counts.len() by {
                assert(s.contains(next[j]));
                let i = choose|i: int| 0 <= i < s.len() && s[i] == next[j];
                assert(s[i].target().is_some());
            }
        },
        Rewrite::DropJump(i) => {
            assert(jump_at(s)(i));
            let target = s[i]->Jump_0;
            assert(s[i].target() == Some(target));
            lemma_jump_counted(s, i, target);
            assert forall|id: LabelId| id < next_counts.len() implies #[trigger] next_counts[id as int]
                == jump_count(next, id) by {
                lemma_jump_count_remove(s, i, id);
            }
            assert forall|j: int|
                0 <= j < next.len() && (#[trigger] next[j]).target().is_some() implies next[j].target().unwrap()
                < next_counts.len() by {
                if j < i {
                    assert(next[j] == s[j]);
                } else {
                    assert(next[j] == s[j + 1]);
                }
            }
        },
        Rewrite::DupPush(i) => {
            assert(double_at(s)(i));
            assert forall|id: LabelId| id < next_counts.len() implies #[trigger] next_counts[id as int]
                == jump_count(next, id) by {
                lemma_jump_count_update(s, i + 1, Instr::Duplicate, id);
            }
            assert forall|j: int|
                0 <= j < next.len() && (#[trigger] next[j]).target().is_some() implies next[j].target().unwrap()
                < next_counts.len() by {
                if j != i + 1 {
                    assert(next[j] == s[j]);
                }
            }
        },
        Rewrite::TripleNot(i) => {
            assert(triple_at(s)(i));
            assert forall|id: LabelId| id < next_counts.len() implies #[trigger] next_counts[id as int]
                == jump_count(next, id) by {
                lemma_jump_count_remove(s, i, id);
                lemma_jump_count_remove(s.remove(i), i, id);
            }
            assert forall|j: int|
                0 <= j < next.len() && (#[trigger] next[j]).target().is_some() implies next[j].target().unwrap()
                < next_counts.len() by {
                if j < i {
                    assert(next[j] == s[j]);
                } else {
                    assert(next[j] == s[j + 2]);
                }
            }
        },
    }
}

/// Removing a command removes what it stands for.
pub proof fn lemma_instrs_remove(cmds: Seq<AsmCommand>, i: int)
    requires
        0 <= i < cmds.len(),
    ensures
        instrs(cmds.remove(i)) == instrs(cmds).remove(i),
{
    assert(instrs(cmds.remove(i)) =~= instrs(cmds).remove(i));
}

/// Replacing a command replaces what it stands for.
pub proof fn lemma_instrs_update(cmds: Seq<AsmCommand>, i: int, c: AsmCommand)
    requires
        0 <= i < cmds.len(),
    ensures
        instrs(cmds.update(i, c)) == instrs(cmds).update(i, c@),
{
    assert(instrs(cmds.update(i, c)) =~= instrs(cmds).update(i, c@));
}

/// Adding a command adds what it stands for.
pub proof fn lemma_instrs_push(cmds: Seq<AsmCommand>, c: AsmCommand)
    ensures
        instrs(cmds.push(c)) == instrs(cmds).push(c@),
{
    assert(instrs(cmds.push(c)) =~= instrs(cmds).push(c@));
}

/// The first place where a label stands that no jump names.
fn find_dead_label(cmds: &Vec<AsmCommand>, counts: &Vec<usize>) -> (r: Option<usize>)
    requires
        counts_match(instrs(cmds@), counts@),
    ensures
        match r {
            Some(i) => first_at(dead_at(instrs(cmds@), counts@), 0, cmds@.len() as int) == Some(
                i as int,
            ),
            None => first_at(dead_at(instrs(cmds@), counts@), 0, cmds@.len() as int) is None,
        },
{
    let ghost p = dead_at(instrs(cmds@), counts@);
    let ghost n = cmds@.len() as int;
    let mut i: usize = 0;
    while i < cmds.len()
        invariant
            i <= cmds.len(),
            n == cmds@.len(),
            p == dead_at(instrs(cmds@), counts@),
            counts_match(instrs(cmds@), counts@),
            first_at(p, 0, n) == first_at(p, i as int, n),
        decreases cmds.len() - i,
    {
        assert(instrs(cmds@)[i as int] == cmds@[i as int]@);
        let dead = match &cmds[i] {
            AsmCommand::Label(id) => {
                assert(instrs(cmds@)[i as int].target() == Some(*id));
                counts[*id] == 0
            },
            _ => false,
        };
        assert(dead == p(i as int));
        if dead {
            return Some(i);
        }
        i += 1;
    }
    None
}

/// The first place where a jump stands just before its label.
fn find_jump_to_next(cmds: &Vec<AsmCommand>) -> (r: Option<usize>)
    ensures
        match r {
            Some(i) => first_at(jump_at(instrs(cmds@)), 0, cmds@.len() as int) == Some(i as int),
            None => first_at(jump_at(instrs(cmds@)), 0, cmds@.len() as int) is None,
        },
{
    let ghost p = jump_at(instrs(cmds@));
    let ghost n = cmds@.len() as int;
    let mut i: usize = 0;
    while i < cmds.len()
        invariant
            i <= cmds.len(),
            n == cmds@.len(),
            p == jump_at(instrs(cmds@)),
            first_at(p, 0, n) == first_at(p, i as int, n),
        decreases cmds.len() - i,
    {
        assert(instrs(cmds@)[i as int] == cmds@[i as int]@);
        let hit = if i + 1 < cmds.len() {
            assert(instrs(cmds@)[i + 1] == cmds@[i + 1]@);
            match (&cmds[i], &cmds[i + 1]) {
                (AsmCommand::Jump(a), AsmCommand::Label(b)) => *a == *b,
                _ => false,
            }
        } else {
            false
        };
        assert(hit == p(i as int));
        if hit {
            return Some(i);
        }
        i += 1;
    }
    None
}

/// The last place where two equal pushes stand in a row.
fn find_double_push(cmds: &Vec<AsmCommand>) -> (r: Option<usize>)
    ensures
        match r {
            Some(i) => last_at(double_at(instrs(cmds@)), cmds@.len() as int) == Some(i as int),
            None => last_at(double_at(instrs(cmds@)), cmds@.len() as int) is None,
        },
{
    let ghost p = double_at(instrs(cmds@));
    let ghost n = cmds@.len() as int;
    let mut k: usize = cmds.len();
    while k > 0
        invariant
            k <= cmds.len(),
            n == cmds@.len(),
            p == double_at(instrs(cmds@)),
            last_at(p, n) == last_at(p, k as int),
        decreases k,
    {
        let i = k - 1;
        assert(instrs(cmds@)[i as int] == cmds@[i as int]@);
        let hit = if i + 1 < cmds.len() {
            assert(instrs(cmds@)[i + 1] == cmds@[i + 1]@);
            cmds[i].same_push(&cmds[i + 1])
        } else {
            false
        };
        assert(hit == p(i as int));
        if hit {
            return Some(i);
        }
        k -= 1;
    }
    None
}

/// Whether the command is a negation.
fn is_not(c: &AsmCommand) -> (r: bool)
    ensures
        r == (c@ == Instr::Not),
{
    match c {
        AsmCommand::Not => true,
        _ => false,
    }
}

/// The first place where three negations stand in a row.
fn find_triple_not(cmds: &Vec<AsmCommand>) -> (r: Option<usize>)
    ensures
        match r {
            Some(i) => first_at(triple_at(instrs(cmds@)), 0, cmds@.len() as int) == Some(i as int),
            None => first_at(triple_at(instrs(cmds@)), 0, cmds@.len() as int) is None,
        },
{
    let ghost p = triple_at(instrs(cmds@));
    let ghost n = cmds@.len() as int;
    let mut i: usize = 0;
    while i < cmds.len()
        invariant
            i <= cmds.len(),
            n == cmds@.len(),
            p == triple_at(instrs(cmds@)),
            first_at(p, 0, n) == first_at(p, i as int, n),
        decreases cmds.len() - i,
    {
        assert(instrs(cmds@)[i as int] == cmds@[i as int]@);
        let hit = if cmds.len() - i >= 3 {
            assert(instrs(cmds@)[i + 1] == cmds@[i + 1]@);
            assert(instrs(cmds@)[i + 2] == cmds@[i + 2]@);
            is_not(&cmds[i]) && is_not(&cmds[i + 1]) && is_not(&cmds[i + 2])
        } else {
            false
        };
        assert(hit == p(i as int));
        if hit {
            return Some(i);
        }
        i += 1;
    }
    None
}

/// The commands without the labels that no jump names.
fn drop_dead_labels(cmds: &Vec<AsmCommand>, counts: &Vec<usize>) -> (r: Vec<AsmCommand>)
    requires
        counts_match(instrs(cmds@), counts@),
    ensures
        instrs(r@) == without_dead_labels(instrs(cmds@), counts@),
{
    let mut out: Vec<AsmCommand> = Vec::new();
    let mut i: usize = 0;
    assert(instrs(cmds@).take(0) =~= Seq::<Instr>::empty());
    assert(instrs(out@) =~= Seq::<Instr>::empty());
    while i < cmds.len()
        invariant
            i <= cmds.len(),
            counts_match(instrs(cmds@), counts@),
            instrs(out@) == without_dead_labels(instrs(cmds@).take(i as int), counts@),
        decreases cmds.len() - i,
    {
        assert(instrs(cmds@)[i as int] == cmds@[i as int]@);
        let dead = match &cmds[i] {
            AsmCommand::Label(id) => {
                assert(instrs(cmds@)[i as int].target() == Some(*id));
                counts[*id] == 0
            },
            _ => false,
        };
        proof {
            let next = instrs(cmds@).take(i + 1);
            assert(next.drop_last() =~= instrs(cmds@).take(i as int));
            assert(next.last() == instrs(cmds@)[i as int]);
        }
        if !dead {
            let c = cmds[i].copy();
            proof {
                lemma_instrs_push(out@, c);
            }
            out.push(c);
        }
        i += 1;
    }
    proof {
        assert(instrs(cmds@).take(cmds@.len() as int) =~= instrs(cmds@));
    }
    out
}

/// Applies the rewrites of the optimizer as long as any applies: labels that
/// no jump names are dropped, a jump just before its label is dropped, the
/// second of two equal pushes in a row becomes a duplicate, and three
/// negations in a row become one. The jump counts must be those of the
/// commands, and stay so.
pub fn optimize(input: PietAsm) -> (r: PietAsm)
    requires
        input.wf(),
    ensures
        (r.instrs(), r.jump_counts@) == optimized(input.instrs(), input.jump_counts@),
        r.wf(),
        rewrite_of(r.instrs(), r.jump_counts@) is None,
        r.cmds@.len() <= input.cmds@.len(),
        input.linked() ==> r.linked(),
{
    let ghost start = input;
    let mut program = input;
    proof {
        lemma_optimized_settled(start.instrs(), start.jump_counts@);
        if input.linked() {
            lemma_optimized_linked(start.instrs(), start.jump_counts@);
        }
    }
    loop
        invariant
            start == input,
            program.wf(),
            optimized(program.instrs(), program.jump_counts@) == optimized(
                start.instrs(),
                start.jump_counts@,
            ),
            rewrite_of(
                optimized(start.instrs(), start.jump_counts@).0,
                optimized(start.instrs(), start.jump_counts@).1,
            ) is None,
            optimized(start.instrs(), start.jump_counts@).0.len() <= start.cmds@.len(),
            input.linked() ==> labels_present(optimized(start.instrs(), start.jump_counts@).0),
        decreases weight(program.instrs()),
    {
        let ghost s = program.instrs();
        let ghost counts = program.jump_counts@;
        assert(s.len() == program.cmds@.len());
        let len = program.cmds.len();
        let dead = find_dead_label(&program.cmds, &program.jump_counts);
        let jump = if dead.is_none() {
            find_jump_to_next(&program.cmds)
        } else {
            None
        };
        let double = if dead.is_none() && jump.is_none() {
            find_double_push(&program.cmds)
        } else {
            None
        };
        let triple = if dead.is_none() && jump.is_none() && double.is_none() {
            find_triple_not(&program.cmds)
        } else {
            None
        };
        if dead.is_none() && jump.is_none() && double.is_none() && triple.is_none() {
            assert(rewrite_of(s, counts) is None);
            assert(optimized(s, counts) == (s, counts));
            return program;
        }
        proof {
            lemma_rewrite_shrinks(s, counts);
            lemma_rewrite_keeps_counts(s, counts);
        }
        if dead.is_some() {
            assert(rewrite_of(s, counts) == Some(Rewrite::DropLabels));
            let kept = drop_dead_labels(&program.cmds, &program.jump_counts);
            program.cmds = kept;
        } else if let Some(i) = jump {
            assert(rewrite_of(s, counts) == Some(Rewrite::DropJump(i as int)));
            assert(s[i as int] == program.cmds@[i as int]@);
            let id = match &program.cmds[i] {
                AsmCommand::Jump(id) => *id,
                _ => 0,
            };
            proof {
                lemma_instrs_remove(program.cmds@, i as int);
            }
            program.cmds.remove(i);
            let count = program.jump_counts[id];
            program.jump_counts.set(id, count - 1);
        } else if let Some(i) = double {
            assert(rewrite_of(s, counts) == Some(Rewrite::DupPush(i as int)));
            proof {
                lemma_instrs_update(program.cmds@, i + 1, AsmCommand::Duplicate);
            }
            program.cmds.set(i + 1, AsmCommand::Duplicate);
        } else if let Some(i) = triple {
            assert(rewrite_of(s, counts) == Some(Rewrite::TripleNot(i as int)));
            proof {
                lemma_instrs_remove(program.cmds@, i as int);
                lemma_instrs_remove(program.cmds@.remove(i as int), i as int);
            }
            program.cmds.remove(i);
            program.cmds.remove(i);
        }
    }
}

/// The least number that the sanitizer takes apart.
pub const BIG_NUMBER: u32 = 100;

/// Whether `r` is the whole part of the square root of `n`.
pub open spec fn is_sqrt(n: int, r: int) -> bool {
    r >= 0 && r * r <= n < (r + 1) * (r + 1)
}

/// The whole part of the square root of `n`.
pub open spec fn isqrt(n: int) -> int {
    choose|r: int| is_sqrt(n, r)
}

/// Every number that is not negative has a whole square root.
pub proof fn lemma_sqrt_exists(n: int)
    requires
        n >= 0,
    ensures
        is_sqrt(n, isqrt(n)),
    decreases n,
{
    if n == 0 {
        assert(is_sqrt(0, 0));
    } else {
        lemma_sqrt_exists(n - 1);
        let r = isqrt(n - 1);
        if (r + 1) * (r + 1) <= n {
            assert((r + 2) * (r + 2) > (r + 1) * (r + 1)) by (nonlinear_arith)
                requires
                    r >= 0,
            ;
            assert(is_sqrt(n, r + 1));
        } else {
            assert(is_sqrt(n, r));
        }
    }
}

/// A number has one whole square root only.
pub proof fn lemma_sqrt_unique(n: int, r: int, q: int)
    requires
        is_sqrt(n, r),
        is_sqrt(n, q),
    ensures
        r == q,
{
    if r < q {
        assert((r + 1) * (r + 1) <= q * q) by (nonlinear_arith)
            requires
                0 <= r,
                r + 1 <= q,
        ;
    } else if q < r {
        assert((q + 1) * (q + 1) <= r * r) by (nonlinear_arith)
            requires
                0 <= q,
                q + 1 <= r,
        ;
    }
}

/// The square root of a big number, and what is left over its square, are
/// smaller than the number and not negative; the root is positive.
pub proof fn lemma_sqrt_smaller(n: int)
    requires
        n >= BIG_NUMBER,
    ensures
        0 < isqrt(n) < n,
        0 <= n - isqrt(n) * isqrt(n) < n,
{
    lemma_sqrt_exists(n);
    let r = isqrt(n);
    assert(r >= 10) by (nonlinear_arith)
        requires
            r >= 0,
            (r + 1) * (r + 1) > n,
            n >= 100,
    ;
    assert(r < r * r) by (nonlinear_arith)
        requires
            r >= 10,
    ;
}

/// `n` copies of `c`.
pub open spec fn repeated(c: Instr, n: nat) -> Seq<Instr> {
    Seq::new(n, |i: int| c)
}

/// What stands for a push of `n`, which is zero or negative: one is pushed
/// once more than `n` is below zero, negated to zero, and taken from one as
/// often as `n` is below zero.
pub open spec fn expand_nonpositive(n: int) -> Seq<Instr> {
    repeated(Instr::Push(1), (1 - n) as nat) + seq![Instr::Not] + repeated(
        Instr::Subtract,
        (-n) as nat,
    )
}

/// What stands for a push of `n`, which is positive: the push itself when `n`
/// is small; else what stands for its square root, squared, and where
/// something is left over, what stands for that, added.
pub open spec fn factored(n: int) -> Seq<Instr>
    decreases n,
    via factored_decreases
{
    if n < BIG_NUMBER {
        seq![Instr::Push(n)]
    } else {
        let r = isqrt(n);
        let d = n - r * r;
        factored(r) + seq![Instr::Duplicate, Instr::Multiply] + if d != 0 {
            factored(d) + seq![Instr::Add]
        } else {
            Seq::<Instr>::empty()
        }
    }
}

#[via_fn]
proof fn factored_decreases(n: int) {
    if n >= BIG_NUMBER {
        lemma_sqrt_smaller(n);
    }
}

/// What stands for a command once its number is made fit for the generator.
pub open spec fn legal(c: Instr) -> Seq<Instr> {
    match c {
        Instr::Push(n) => if n <= 0 {
            expand_nonpositive(n)
        } else {
            factored(n)
        },
        _ => seq![c],
    }
}

/// `s` with every command made fit for the generator.
pub open spec fn legalized(s: Seq<Instr>) -> Seq<Instr>
    decreases s.len(),
{
    if s.len() == 0 {
        s
    } else {
        legalized(s.drop_last()) + legal(s.last())
    }
}

/// Whether `s` ends with a stop or a jump.
pub open spec fn ends_program(s: Seq<Instr>) -> bool {
    s.len() > 0 && (s.last() is Stop || s.last() is Jump)
}

/// `s` made fit for the generator: every number pushed is positive and
/// small, and the last command is a stop or a jump.
pub open spec fn sanitized(s: Seq<Instr>) -> Seq<Instr> {
    let l = legalized(s);
    if ends_program(l) {
        l
    } else {
        l.push(Instr::Stop)
    }
}

/// Whether the command is fit for the generator: no push of a number that is
/// not positive or not small.
pub open spec fn fit(c: Instr) -> bool {
    c is Push ==> 1 <= c->Push_0 < BIG_NUMBER
}

/// Whether every command of `s` is fit, and `s` names no label and holds no
/// jump.
pub open spec fn plain_and_fit(s: Seq<Instr>) -> bool {
    forall|i: int| 0 <= i < s.len() ==> fit(#[trigger] s[i]) && s[i].target().is_none()
}

/// What stands for a positive number is fit and holds no label or jump.
pub proof fn lemma_factored_fit(n: int)
    requires
        n > 0,
    ensures
        plain_and_fit(factored(n)),
    decreases n,
{
    if n >= BIG_NUMBER {
        lemma_sqrt_smaller(n);
        let r = isqrt(n);
        let d = n - r * r;
        lemma_factored_fit(r);
        if d != 0 {
            lemma_factored_fit(d);
        }
    }
}

/// What stands for a command is fit; it is the command itself where that is
/// a label or a jump, and holds none otherwise.
pub proof fn lemma_legal_fit(c: Instr)
    ensures
        forall|i: int| 0 <= i < legal(c).len() ==> fit(#[trigger] legal(c)[i]),
        c.target().is_some() ==> legal(c) == seq![c],
        c.target().is_none() ==> forall|i: int|
            0 <= i < legal(c).len() ==> (#[trigger] legal(c)[i]).target().is_none(),
{
    match c {
        Instr::Push(n) => {
            if n > 0 {
                lemma_factored_fit(n);
            }
        },
        _ => {},
    }
}

/// A list without jumps counts none.
pub proof fn lemma_no_jumps(s: Seq<Instr>, id: LabelId)
    requires
        forall|i: int| 0 <= i < s.len() ==> (#[trigger] s[i]).target().is_none(),
    ensures
        jump_count(s, id) == 0,
    decreases s.len(),
{
    if s.len() > 0 {
        assert(s.last() == s[s.len() - 1]);
        assert forall|i: int| 0 <= i < s.drop_last().len() implies (#[trigger] s.drop_last()[i]).target().is_none() by {
            assert(s.drop_last()[i] == s[i]);
        }
        lemma_no_jumps(s.drop_last(), id);
    }
}

/// Making commands fit keeps the jumps and the labels named, and leaves
/// every command fit.
pub proof fn lemma_legalized(s: Seq<Instr>, counts: Seq<usize>)
    ensures
        forall|i: int| 0 <= i < legalized(s).len() ==> fit(#[trigger] legalized(s)[i]),
        forall|id: LabelId| jump_count(legalized(s), id) == jump_count(s, id),
        forall|i: int|
            0 <= i < legalized(s).len() && (#[trigger] legalized(s)[i]).target().is_some()
                ==> s.contains(legalized(s)[i]),
    decreases s.len(),
{
    if s.len() > 0 {
        let rest = s.drop_last();
        let c = s.last();
        lemma_legalized(rest, counts);
        lemma_legal_fit(c);
        let out = legalized(s);
        let head = legalized(rest);
        assert forall|id: LabelId| jump_count(out, id) == jump_count(s, id) by {
            lemma_jump_count_concat(head, legal(c), id);
            assert(out == head + legal(c));
            assert(jump_count(head, id) == jump_count(rest, id));
            assert(jump_count(s, id) == jump_count(rest, id) + crate::assembler::jump_weight(c, id));
            if c.target().is_some() {
                let one = legal(c);
                assert(one.len() == 1 && one.last() == c);
                assert(one.drop_last().len() == 0);
                assert(jump_count(one.drop_last(), id) == 0);
                assert(jump_count(one, id) == crate::assembler::jump_weight(c, id));
            } else {
                lemma_no_jumps(legal(c), id);
                assert(crate::assembler::jump_weight(c, id) == 0);
            }
        }
        assert forall|i: int|
            0 <= i < out.len() && (#[trigger] out[i]).target().is_some() implies s.contains(
            out[i],
        ) by {
            if i < head.len() {
                assert(out[i] == head[i]);
                assert(rest.contains(head[i]));
                let k = choose|k: int| 0 <= k < rest.len() && rest[k] == head[i];
                assert(s[k] == out[i]);
            } else {
                assert(out[i] == legal(c)[i - head.len()]);
                assert(s[s.len() - 1] == c);
            }
        }
        assert forall|i: int| 0 <= i < out.len() implies fit(#[trigger] out[i]) by {
            if i < head.len() {
                assert(out[i] == head[i]);
            } else {
                assert(out[i] == legal(c)[i - head.len()]);
            }
        }
    }
}

/// A sanitized program pushes only positive small numbers, ends with a stop
/// or a jump, and has the jumps that it had: jump counts that were right stay
/// right.
pub proof fn lemma_sanitized(s: Seq<Instr>, counts: Seq<usize>)
    ensures
        forall|i: int| 0 <= i < sanitized(s).len() ==> fit(#[trigger] sanitized(s)[i]),
        ends_program(sanitized(s)),
        forall|id: LabelId| jump_count(sanitized(s), id) == jump_count(s, id),
        counts_match(s, counts) ==> counts_match(sanitized(s), counts),
{
    lemma_legalized(s, counts);
    let l = legalized(s);
    let out = sanitized(s);
    if !ends_program(l) {
        assert(out.drop_last() =~= l);
    }
    assert forall|i: int| 0 <= i < out.len() implies fit(#[trigger] out[i]) by {
        if i < l.len() {
            assert(out[i] == l[i]);
        }
    }
    if counts_match(s, counts) {
        assert forall|i: int|
            0 <= i < out.len() && (#[trigger] out[i]).target().is_some() implies out[i].target().unwrap()
            < counts.len() by {
            assert(out[i] == l[i]);
            assert(s.contains(l[i]));
            let k = choose|k: int| 0 <= k < s.len() && s[k] == l[i];
            assert(s[k].target().is_some());
        }
    }
}

/// What one number that is too big is taken apart into.
pub open spec fn factor_step(n: int) -> Seq<Instr> {
    let r = isqrt(n);
    let d = n - r * r;
    seq![Instr::Push(r), Instr::Duplicate, Instr::Multiply] + if d != 0 {
        seq![Instr::Push(d), Instr::Add]
    } else {
        Seq::<Instr>::empty()
    }
}

/// Takes a number apart when it is too big for the generator: into its
/// square root, squared, and what is left over, added. `None` for a small
/// number. The number must not be negative.
pub fn factor_big_number(num: &BigInt) -> (r: Option<Vec<AsmCommand>>)
    requires
        big_value(*num) >= 0,
    ensures
        r.is_some() == (big_value(*num) >= BIG_NUMBER),
        r.is_some() ==> instrs(r.unwrap()@) == factor_step(big_value(*num)),
{
    let small = match big_to_u32(num) {
        Some(n) => n < BIG_NUMBER,
        None => false,
    };
    if small {
        return None;
    }
    let sqrt = big_sqrt(num);
    let square = big_mul(&sqrt, &sqrt);
    let diff = big_sub(num, &square);
    let zero = big_from_i64(0);
    let exact = !big_lt(&zero, &diff) && !big_lt(&diff, &zero);
    proof {
        lemma_sqrt_exists(big_value(*num));
        lemma_sqrt_unique(big_value(*num), big_value(sqrt), isqrt(big_value(*num)));
    }
    let mut result: Vec<AsmCommand> = Vec::new();
    result.push(AsmCommand::Push(sqrt));
    result.push(AsmCommand::Duplicate);
    result.push(AsmCommand::Multiply);
    if !exact {
        result.push(AsmCommand::Push(diff));
        result.push(AsmCommand::Add);
    }
    proof {
        assert(instrs(result@) =~= factor_step(big_value(*num)));
    }
    Some(result)
}

/// Appends what stands for a push of the positive number `n`.
fn emit_positive(n: BigInt, out: &mut Vec<AsmCommand>)
    requires
        big_value(n) > 0,
    ensures
        instrs(final(out)@) == instrs(old(out)@) + factored(big_value(n)),
    decreases big_value(n),
{
    let ghost v = big_value(n);
    match factor_big_number(&n) {
        None => {
            proof {
                lemma_instrs_push(out@, AsmCommand::Push(n));
                assert(instrs(out@).push(Instr::Push(v)) =~= instrs(out@) + factored(v));
            }
            out.push(AsmCommand::Push(n));
        },
        Some(parts) => {
            proof {
                lemma_sqrt_smaller(v);
            }
            let ghost start = instrs(out@);
            let ghost r = isqrt(v);
            let ghost d = v - r * r;
            let ghost step = factor_step(v);
            assert(instrs(parts@).len() == parts@.len());
            assert(step.len() == if d != 0 {
                5int
            } else {
                3int
            });
            assert(step[0] == Instr::Push(r));
            assert(d != 0 ==> step[3] == Instr::Push(d));
            assert(instrs(parts@)[0] == parts@[0]@);
            match &parts[0] {
                AsmCommand::Push(root) => {
                    emit_positive(root.clone(), out);
                },
                _ => {},
            }
            proof {
                lemma_instrs_push(out@, AsmCommand::Duplicate);
                lemma_instrs_push(out@.push(AsmCommand::Duplicate), AsmCommand::Multiply);
            }
            out.push(AsmCommand::Duplicate);
            out.push(AsmCommand::Multiply);
            assert(instrs(out@) =~= start + factored(r) + seq![Instr::Duplicate, Instr::Multiply]);
            if parts.len() > 3 {
                assert(instrs(parts@)[3] == parts@[3]@);
                match &parts[3] {
                    AsmCommand::Push(rest) => {
                        emit_positive(rest.clone(), out);
                    },
                    _ => {},
                }
                proof {
                    lemma_instrs_push(out@, AsmCommand::Add);
                }
                out.push(AsmCommand::Add);
                assert(instrs(out@) =~= start + factored(v));
            } else {
                assert(instrs(out@) =~= start + factored(v));
            }
        },
    }
}

/// Appends `count` copies of a push of one, or of a subtraction.
fn emit_repeated(subtract: bool, count: &BigInt, out: &mut Vec<AsmCommand>)
    requires
        big_value(*count) >= 0,
    ensures
        instrs(final(out)@) == instrs(old(out)@) + repeated(
            if subtract {
                Instr::Subtract
            } else {
                Instr::Push(1)
            },
            big_value(*count) as nat,
        ),
{
    let ghost c = if subtract {
        Instr::Subtract
    } else {
        Instr::Push(1)
    };
    let ghost start = instrs(out@);
    let one = big_from_i64(1);
    let mut done = big_from_i64(0);
    assert(instrs(out@) =~= start + repeated(c, 0));
    while big_lt(&done, count)
        invariant
            0 <= big_value(done) <= big_value(*count),
            big_value(one) == 1,
            c == if subtract {
                Instr::Subtract
            } else {
                Instr::Push(1)
            },
            instrs(out@) == start + repeated(c, big_value(done) as nat),
        decreases big_value(*count) - big_value(done),
    {
        let cmd = if subtract {
            AsmCommand::Subtract
        } else {
            push(1)
        };
        proof {
            lemma_instrs_push(out@, cmd);
        }
        out.push(cmd);
        let next = big_add(&done, &one);
        assert(instrs(out@) =~= start + repeated(c, big_value(next) as nat));
        done = next;
    }
}

/// Appends what stands for a push of `n`, which is zero or negative.
fn emit_nonpositive(n: &BigInt, out: &mut Vec<AsmCommand>)
    requires
        big_value(*n) <= 0,
    ensures
        instrs(final(out)@) == instrs(old(out)@) + expand_nonpositive(big_value(*n)),
{
    let ghost start = instrs(out@);
    let zero = big_from_i64(0);
    let one = big_from_i64(1);
    let below = big_sub(&zero, n);
    let ones = big_add(&below, &one);
    emit_repeated(false, &ones, out);
    proof {
        lemma_instrs_push(out@, AsmCommand::Not);
    }
    out.push(AsmCommand::Not);
    emit_repeated(true, &below, out);
    assert(instrs(out@) =~= start + expand_nonpositive(big_value(*n)));
}

/// Makes a program fit for the generator: a push of a number that is zero or
/// negative, or too big, gives way to commands that compute the number from
/// small positive ones, and a program that does not end with a stop or a
/// jump gets a stop. Jump counts that were right stay right.
pub fn sanitize(input: PietAsm) -> (r: PietAsm)
    ensures
        r.instrs() == sanitized(input.instrs()),
        r.jump_counts@ == input.jump_counts@,
        forall|i: int| 0 <= i < r.instrs().len() ==> fit(#[trigger] r.instrs()[i]),
        ends_program(r.instrs()),
        input.wf() ==> r.wf(),
        input.linked() ==> r.linked(),
{
    let PietAsm { cmds, jump_counts } = input;
    let mut out: Vec<AsmCommand> = Vec::new();
    let zero = big_from_i64(0);
    let mut i: usize = 0;
    assert(instrs(cmds@).take(0) =~= Seq::<Instr>::empty());
    assert(instrs(out@) =~= Seq::<Instr>::empty());
    while i < cmds.len()
        invariant
            i <= cmds.len(),
            big_value(zero) == 0,
            instrs(out@) == legalized(instrs(cmds@).take(i as int)),
        decreases cmds.len() - i,
    {
        proof {
            let next = instrs(cmds@).take(i + 1);
            assert(next.drop_last() =~= instrs(cmds@).take(i as int));
            assert(next.last() == cmds@[i as int]@);
        }
        match &cmds[i] {
            AsmCommand::Push(n) => {
                if big_lt(&zero, n) {
                    emit_positive(n.clone(), &mut out);
                } else {
                    emit_nonpositive(n, &mut out);
                }
            },
            other => {
                let c = other.copy();
                proof {
                    lemma_instrs_push(out@, c);
                    assert(instrs(out@).push(c@) =~= instrs(out@) + seq![c@]);
                }
                out.push(c);
            },
        }
        i += 1;
    }
    proof {
        assert(instrs(cmds@).take(cmds@.len() as int) =~= instrs(cmds@));
        lemma_sanitized(instrs(cmds@), jump_counts@);
        if input.linked() {
            lemma_sanitized_linked(instrs(cmds@));
        }
    }
    let ends = if out.len() > 0 {
        assert(instrs(out@).last() == out@[out@.len() - 1]@);
        match &out[out.len() - 1] {
            AsmCommand::Stop => true,
            AsmCommand::Jump(_) => true,
            _ => false,
        }
    } else {
        false
    };
    if !ends {
        proof {
            lemma_instrs_push(out@, AsmCommand::Stop);
        }
        out.push(AsmCommand::Stop);
    }
    PietAsm { cmds: out, jump_counts }
}

/// Dropping the labels that no jump names keeps every other command.
pub proof fn lemma_without_dead_labels_keeps(s: Seq<Instr>, counts: Seq<usize>, c: Instr)
    requires
        s.contains(c),
        !dead_label(c, counts),
    ensures
        without_dead_labels(s, counts).contains(c),
    decreases s.len(),
{
    let i = choose|i: int| 0 <= i < s.len() && s[i] == c;
    let rest = s.drop_last();
    let out = without_dead_labels(s, counts);
    if i == s.len() - 1 {
        assert(out == without_dead_labels(rest, counts).push(c));
        assert(out[out.len() - 1] == c);
    } else {
        assert(rest[i] == c);
        lemma_without_dead_labels_keeps(rest, counts, c);
        let head = without_dead_labels(rest, counts);
        let k = choose|k: int| 0 <= k < head.len() && head[k] == c;
        if !dead_label(s.last(), counts) {
            assert(out[k] == c);
        }
    }
}

/// A rewrite keeps every jump going to a label that the program defines.
pub proof fn lemma_rewrite_keeps_labels(s: Seq<Instr>, counts: Seq<usize>)
    requires
        counts_match(s, counts),
        labels_present(s),
        rewrite_of(s, counts) is Some,
    ensures
        labels_present(rewritten(s, counts, rewrite_of(s, counts).unwrap()).0),
{
    let n = s.len() as int;
    lemma_first_at(dead_at(s, counts), 0, n);
    lemma_first_at(jump_at(s), 0, n);
    lemma_last_at(double_at(s), n);
    lemma_first_at(triple_at(s), 0, n);
    let rw = rewrite_of(s, counts).unwrap();
    let next = rewritten(s, counts, rw).0;
    assert forall|i: int|
        0 <= i < next.len() && ((#[trigger] next[i]) is Jump || next[i] is JumpIf) implies next.contains(
        Instr::Label(next[i].target().unwrap()),
    ) by {
        let c = next[i];
        let id = c.target().unwrap();
        let label = Instr::Label(id);
        match rw {
            Rewrite::DropLabels => {
                lemma_without_dead_labels_jumps(s, counts, id);
                assert(s.contains(c));
                let k = choose|k: int| 0 <= k < s.len() && s[k] == c;
                assert(s[k] is Jump || s[k] is JumpIf);
                assert(s.contains(label));
                assert(s[k].target().is_some());
                lemma_jump_counted(s, k, id);
                lemma_without_dead_labels_keeps(s, counts, label);
            },
            Rewrite::DropJump(at) => {
                assert(jump_at(s)(at));
                let k = if i < at {
                    i
                } else {
                    i + 1
                };
                assert(next[i] == s[k]);
                assert(s.contains(label));
                let j = choose|j: int| 0 <= j < s.len() && s[j] == label;
                if j < at {
                    assert(next[j] == label);
                } else {
                    assert(j != at);
                    assert(next[j - 1] == label);
                }
            },
            Rewrite::DupPush(at) => {
                assert(double_at(s)(at));
                assert(i != at + 1);
                assert(next[i] == s[i]);
                assert(s.contains(label));
                let j = choose|j: int| 0 <= j < s.len() && s[j] == label;
                assert(j != at + 1);
                assert(next[j] == label);
            },
            Rewrite::TripleNot(at) => {
                assert(triple_at(s)(at));
                let k = if i < at {
                    i
                } else {
                    i + 2
                };
                assert(next[i] == s[k]);
                assert(s.contains(label));
                let j = choose|j: int| 0 <= j < s.len() && s[j] == label;
                if j < at {
                    assert(next[j] == label);
                } else {
                    assert(j != at && j != at + 1);
                    assert(next[j - 2] == label);
                }
            },
        }
    }
}

/// The optimizer keeps the jump counts right and every jump going to a label
/// that the program defines.
pub proof fn lemma_optimized_linked(s: Seq<Instr>, counts: Seq<usize>)
    requires
        counts_match(s, counts),
        labels_present(s),
    ensures
        labels_present(optimized(s, counts).0),
    decreases weight(s),
{
    if rewrite_of(s, counts) is Some {
        lemma_rewrite_shrinks(s, counts);
        lemma_rewrite_keeps_counts(s, counts);
        lemma_rewrite_keeps_labels(s, counts);
        let rw = rewrite_of(s, counts).unwrap();
        lemma_optimized_linked(rewritten(s, counts, rw).0, rewritten(s, counts, rw).1);
    }
}

/// Making commands fit keeps every label and every jump.
pub proof fn lemma_legalized_keeps(s: Seq<Instr>, c: Instr)
    requires
        s.contains(c),
        c.target().is_some(),
    ensures
        legalized(s).contains(c),
    decreases s.len(),
{
    let i = choose|i: int| 0 <= i < s.len() && s[i] == c;
    let rest = s.drop_last();
    let head = legalized(rest);
    let out = legalized(s);
    if i == s.len() - 1 {
        assert(legal(c) == seq![c]);
        assert(out[head.len() as int] == c);
    } else {
        assert(rest[i] == c);
        lemma_legalized_keeps(rest, c);
        let k = choose|k: int| 0 <= k < head.len() && head[k] == c;
        assert(out[k] == c);
    }
}

/// The sanitizer keeps every jump going to a label that the program
/// defines.
pub proof fn lemma_sanitized_linked(s: Seq<Instr>)
    requires
        labels_present(s),
    ensures
        labels_present(sanitized(s)),
{
    let l = legalized(s);
    let out = sanitized(s);
    lemma_legalized(s, Seq::<usize>::empty());
    assert forall|i: int|
        0 <= i < out.len() && ((#[trigger] out[i]) is Jump || out[i] is JumpIf) implies out.contains(
        Instr::Label(out[i].target().unwrap()),
    ) by {
        let c = out[i];
        let label = Instr::Label(c.target().unwrap());
        assert(i < l.len());
        assert(out[i] == l[i]);
        assert(l[i].target().is_some());
        assert(s.contains(l[i]));
        let k = choose|k: int| 0 <= k < s.len() && s[k] == c;
        assert(s[k] is Jump || s[k] is JumpIf);
        assert(s.contains(label));
        lemma_legalized_keeps(s, label);
        let j = choose|j: int| 0 <= j < l.len() && l[j] == label;
        assert(out[j] == label);
    }
}

} // verus!
