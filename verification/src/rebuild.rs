//! Putting the clauses back where they were taken out.
//!
//! Segmentation loses nothing of a sentence whose parentheses are well
//! nested, as long as every clause is recorded: the sentence can be rebuilt
//! from what was kept and the clauses with their offsets.

use crate::paren::{
    definition_flags, lemma_result_is_own, lemma_scan_bounds, scan, scan_step, segment, select,
};
use crate::pattern::is_definitional;
use crate::text::{CLOSE_PAREN, OPEN_PAREN};
use vstd::prelude::*;

verus! {

/// `text` with `clause`, in its parentheses, put in before the character at `offset`.
pub open spec fn insert_clause(text: Seq<char>, offset: nat, clause: Seq<char>) -> Seq<char> {
    text.subrange(0, offset as int) + seq![OPEN_PAREN] + clause + seq![CLOSE_PAREN]
        + text.subrange(offset as int, text.len() as int)
}

/// `text` with every clause of `clauses` put back at its offset. The last
/// clause goes in first, so that the offsets of the others still hold.
pub open spec fn reinsert(text: Seq<char>, clauses: Seq<(nat, Seq<char>)>) -> Seq<char>
    decreases clauses.len(),
{
    if clauses.len() == 0 {
        text
    } else {
        reinsert(
            insert_clause(text, clauses.last().0, clauses.last().1),
            clauses.drop_last(),
        )
    }
}

/// The depth never falls below zero while `text` is read.
pub open spec fn never_closes_unopened(text: Seq<char>) -> bool {
    forall|n: int| 0 <= n <= text.len() ==> (#[trigger] scan(text.take(n))).depth >= 0
}

/// The parentheses of `text` are well nested: none closes what was not
/// opened, and none stays open at the end.
pub open spec fn is_well_nested(text: Seq<char>) -> bool {
    never_closes_unopened(text) && scan(text).depth == 0
}

/// Every top-level clause of `text` has the shape of a definition.
pub open spec fn all_clauses_definitional(text: Seq<char>) -> bool {
    forall|k: int|
        0 <= k < scan(text).clauses.len() ==> is_definitional((#[trigger] scan(text).clauses[k]).1)
}

/// What is appended behind every offset stays behind the clauses put back.
proof fn lemma_reinsert_before_tail(text: Seq<char>, tail: Seq<char>, clauses: Seq<(nat, Seq<char>)>)
    requires
        forall|k: int| 0 <= k < clauses.len() ==> (#[trigger] clauses[k]).0 <= text.len(),
    ensures
        reinsert(text + tail, clauses) == reinsert(text, clauses) + tail,
    decreases clauses.len(),
{
    if clauses.len() > 0 {
        let last = clauses.last();
        let rest = clauses.drop_last();
        let grown = insert_clause(text, last.0, last.1);
        assert(insert_clause(text + tail, last.0, last.1) =~= grown + tail);
        assert forall|k: int| 0 <= k < rest.len() implies (#[trigger] rest[k]).0 <= grown.len() by {
            assert(rest[k] == clauses[k]);
        }
        lemma_reinsert_before_tail(grown, tail, rest);
    }
}

/// What has been read so far is rebuilt from the state: from what was kept
/// and the closed clauses, and, inside a parenthetical, the parenthesis
/// that opened it and the buffer.
proof fn lemma_rebuild_prefix(text: Seq<char>)
    requires
        never_closes_unopened(text),
    ensures
        scan(text).depth == 0 ==> scan(text).buffer == Seq::<char>::empty() && reinsert(
            scan(text).kept,
            scan(text).clauses,
        ) == text,
        scan(text).depth > 0 ==> reinsert(scan(text).kept, scan(text).clauses) + seq![OPEN_PAREN]
            + scan(text).buffer == text,
    decreases text.len(),
{
    assert(text.take(text.len() as int) == text);
    if text.len() == 0 {
        assert(text =~= Seq::<char>::empty());
    } else {
        let shorter = text.drop_last();
        let c = text.last();
        assert forall|n: int| 0 <= n <= shorter.len() implies (#[trigger] scan(
            shorter.take(n),
        )).depth >= 0 by {
            assert(shorter.take(n) == text.take(n));
        }
        lemma_rebuild_prefix(shorter);
        lemma_scan_bounds(shorter);
        let before = scan(shorter);
        let after = scan(text);
        assert(after == scan_step(before, c));
        assert(shorter == text.take(text.len() - 1));
        assert(before.depth >= 0);
        assert(text =~= shorter.push(c));
        let rebuilt = reinsert(before.kept, before.clauses);
        if c == OPEN_PAREN {
            if before.depth == 0 {
                assert(rebuilt + seq![OPEN_PAREN] + after.buffer =~= text);
            } else {
                assert(rebuilt + seq![OPEN_PAREN] + after.buffer =~= text);
            }
        } else if c == CLOSE_PAREN {
            if before.depth == 1 {
                let closed = (before.kept.len(), before.buffer);
                assert(after.clauses.last() == closed);
                assert(after.clauses.drop_last() =~= before.clauses);
                let tail = seq![OPEN_PAREN] + before.buffer + seq![CLOSE_PAREN];
                assert(insert_clause(before.kept, closed.0, closed.1) =~= before.kept + tail);
                lemma_reinsert_before_tail(before.kept, tail, before.clauses);
                assert(rebuilt + tail =~= text);
            } else {
                assert(rebuilt + seq![OPEN_PAREN] + after.buffer =~= text);
            }
        } else if before.depth == 0 {
            lemma_reinsert_before_tail(before.kept, seq![c], before.clauses);
            assert(before.kept + seq![c] =~= after.kept);
            assert(rebuilt + seq![c] =~= text);
        } else {
            assert(rebuilt + seq![OPEN_PAREN] + after.buffer =~= text);
        }
    }
}

/// A well-nested text is rebuilt from what segmentation keeps of it and all
/// of its top-level clauses.
pub proof fn lemma_rebuild_from_all_clauses(text: Seq<char>)
    requires
        is_well_nested(text),
    ensures
        reinsert(scan(text).kept, scan(text).clauses) == text,
{
    lemma_rebuild_prefix(text);
}

/// Where every clause is selected, the selection is the whole list.
proof fn lemma_select_all(clauses: Seq<(nat, Seq<char>)>, flags: Seq<bool>)
    requires
        flags.len() >= clauses.len(),
        forall|k: int| 0 <= k < clauses.len() ==> flags[k],
    ensures
        select(clauses, flags) == clauses,
    decreases clauses.len(),
{
    if clauses.len() > 0 {
        lemma_select_all(clauses.drop_last(), flags);
        assert(clauses.drop_last().push(clauses.last()) =~= clauses);
    } else {
        assert(clauses =~= Seq::empty());
    }
}

/// Putting the recorded clauses of a result back into what it keeps gives
/// its text again, provided that the parentheses of the text are well
/// nested and each of its top-level clauses has the shape of a
/// definition. (A clause of another shape is taken out without being
/// recorded, and what follows an unclosed parenthesis is lost.)
pub proof fn lemma_round_trip(text: Seq<char>, j: int)
    requires
        0 <= j < segment(text).len(),
        is_well_nested(segment(text)[j].raw_text),
        all_clauses_definitional(segment(text)[j].raw_text),
    ensures
        reinsert(segment(text)[j].remove_paren_text, segment(text)[j].paren) == segment(
            text,
        )[j].raw_text,
{
    let result = segment(text)[j];
    let raw = result.raw_text;
    lemma_result_is_own(text, j);
    lemma_select_all(scan(raw).clauses, definition_flags(scan(raw).clauses));
    lemma_rebuild_from_all_clauses(raw);
}

} // verus!
