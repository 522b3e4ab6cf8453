//! Segmentation of a sentence by its parenthetical remarks.
//!
//! The sentence is read once from left to right. What stands outside every
//! parenthesis is kept; what stands inside a pair of full-width parentheses
//! is taken out as a clause, together with the place where it stood. A clause
//! that has the shape of a definition is segmented in turn.

use crate::pattern::{is_definitional, matches_definition};
use crate::text::{clauses_view, to_chars, CLOSE_PAREN, OPEN_PAREN};
use vstd::prelude::*;

verus! {

/// A sentence without its parentheticals, and the definitional clauses that
/// were taken out of it, each with its offset in `remove_paren_text`.
#[derive(Debug, Clone, PartialEq, Eq, Hash, PartialOrd, Ord)]
pub struct TextInfo {
    pub raw_text: String,
    pub remove_paren_text: String,
    pub paren: Vec<(usize, String)>,
}

/// Mathematical value of a [`TextInfo`].
pub struct TextInfoView {
    pub raw_text: Seq<char>,
    pub remove_paren_text: Seq<char>,
    pub paren: Seq<(nat, Seq<char>)>,
}

impl View for TextInfo {
    type V = TextInfoView;

    open spec fn view(&self) -> TextInfoView {
        TextInfoView {
            raw_text: self.raw_text@,
            remove_paren_text: self.remove_paren_text@,
            paren: clauses_view(self.paren@),
        }
    }
}

/// Mathematical value of a list of results.
pub open spec fn results_view(results: Seq<TextInfo>) -> Seq<TextInfoView> {
    results.map_values(|result: TextInfo| result@)
}

/// Mathematical value of an optional result.
pub open spec fn result_view(result: Option<TextInfo>) -> Option<TextInfoView> {
    match result {
        Some(r) => Some(r@),
        None => None,
    }
}

/// What the reader of a sentence knows after some of its characters.
pub struct ScanState {
    /// Opening minus closing parentheses read so far.
    pub depth: int,
    /// The characters read at depth zero.
    pub kept: Seq<char>,
    /// The characters read since the last clause was closed that were not kept.
    pub buffer: Seq<char>,
    /// The clauses closed so far, each with the number of characters kept before it.
    pub clauses: Seq<(nat, Seq<char>)>,
}

/// The state before anything is read.
pub open spec fn scan_start() -> ScanState {
    ScanState { depth: 0, kept: Seq::empty(), buffer: Seq::empty(), clauses: Seq::empty() }
}

/// The state after one more character.
///
/// An opening parenthesis raises the depth and is buffered unless it opens a
/// clause at depth zero. A closing parenthesis lowers the depth; where that
/// brings the depth to zero the buffer becomes a clause, else the
/// parenthesis is buffered. Any other character is kept at depth zero and
/// buffered elsewhere.
pub open spec fn scan_step(state: ScanState, c: char) -> ScanState {
    if c == OPEN_PAREN {
        ScanState {
            depth: state.depth + 1,
            buffer: if state.depth == 0 {
                state.buffer
            } else {
                state.buffer.push(c)
            },
            ..state
        }
    } else if c == CLOSE_PAREN {
        if state.depth == 1 {
            ScanState {
                depth: 0,
                buffer: Seq::empty(),
                clauses: state.clauses.push((state.kept.len(), state.buffer)),
                ..state
            }
        } else {
            ScanState { depth: state.depth - 1, buffer: state.buffer.push(c), ..state }
        }
    } else if state.depth == 0 {
        ScanState { kept: state.kept.push(c), ..state }
    } else {
        ScanState { buffer: state.buffer.push(c), ..state }
    }
}

/// The state after the whole of `text`.
pub open spec fn scan(text: Seq<char>) -> ScanState
    decreases text.len(),
{
    if text.len() == 0 {
        scan_start()
    } else {
        scan_step(scan(text.drop_last()), text.last())
    }
}

/// The clauses among `clauses` whose flag is `true`, in their order. A
/// clause without a flag is dropped.
pub open spec fn select(clauses: Seq<(nat, Seq<char>)>, flags: Seq<bool>) -> Seq<
    (nat, Seq<char>),
>
    decreases clauses.len(),
{
    if clauses.len() == 0 {
        Seq::empty()
    } else {
        let earlier = select(clauses.drop_last(), flags);
        let last = clauses.len() - 1;
        if last < flags.len() && flags[last] {
            earlier.push(clauses.last())
        } else {
            earlier
        }
    }
}

/// For each clause, whether it has the shape of a definition.
pub open spec fn definition_flags(clauses: Seq<(nat, Seq<char>)>) -> Seq<bool> {
    Seq::new(clauses.len(), |i: int| is_definitional(clauses[i].1))
}

/// The result for `text` itself, given the flags on its top-level
/// clauses: there is one when something was taken out of the text and at
/// least one clause is selected.
pub open spec fn own_result(text: Seq<char>, flags: Seq<bool>) -> Option<TextInfoView> {
    let state = scan(text);
    let selected = select(state.clauses, flags);
    if state.kept != text && selected.len() > 0 {
        Some(TextInfoView { raw_text: text, remove_paren_text: state.kept, paren: selected })
    } else {
        None
    }
}

/// The results for the definitional clauses among the first `n` top-level
/// clauses of `text`, in the order of the clauses.
pub open spec fn nested_results(text: Seq<char>, n: nat) -> Seq<TextInfoView>
    decreases text.len(), n,
    via nested_results_decreases
{
    let clauses = scan(text).clauses;
    if n == 0 || n > clauses.len() {
        Seq::empty()
    } else {
        let earlier = nested_results(text, (n - 1) as nat);
        let clause = clauses[n - 1].1;
        if is_definitional(clause) {
            earlier + segment(clause)
        } else {
            earlier
        }
    }
}

/// The results for `text`: first those for its definitional top-level
/// clauses, each segmented in turn, then the result for the text itself,
/// where there is one. The results for a clause are taken over as they
/// are: each of them has taken something out of its own text.
pub open spec fn segment(text: Seq<char>) -> Seq<TextInfoView>
    decreases text.len(), scan(text).clauses.len() + 1,
{
    let nested = nested_results(text, scan(text).clauses.len());
    match own_result(text, definition_flags(scan(text).clauses)) {
        Some(own) => nested.push(own),
        None => nested,
    }
}

/// Segmentation goes on with clauses only, and a clause is shorter than its text.
#[via_fn]
proof fn nested_results_decreases(text: Seq<char>, n: nat) {
    lemma_scan_bounds(text);
}

/// No more is kept or buffered than was read, the depth is bounded by the
/// number of characters read, and every clause is shorter than the text
/// and stands at an offset within what is kept.
pub proof fn lemma_scan_bounds(text: Seq<char>)
    ensures
        scan(text).kept.len() <= text.len(),
        scan(text).buffer.len() <= text.len(),
        -text.len() <= scan(text).depth <= text.len(),
        forall|k: int|
            0 <= k < scan(text).clauses.len() ==> (#[trigger] scan(text).clauses[k]).1.len()
                < text.len(),
        forall|k: int|
            0 <= k < scan(text).clauses.len() ==> (#[trigger] scan(text).clauses[k]).0 <= scan(
                text,
            ).kept.len(),
    decreases text.len(),
{
    if text.len() > 0 {
        lemma_scan_bounds(text.drop_last());
        let before = scan(text.drop_last());
        let after = scan(text);
        assert(after == scan_step(before, text.last()));
        assert forall|k: int| 0 <= k < after.clauses.len() implies (#[trigger] after.clauses[k]).1.len()
            < text.len() && after.clauses[k].0 <= after.kept.len() by {
            if k < before.clauses.len() {
                assert(after.clauses[k] == before.clauses[k]);
            }
        }
    }
}

/// A text without any full-width parenthesis.
pub open spec fn has_no_parens(text: Seq<char>) -> bool {
    forall|i: int| 0 <= i < text.len() ==> text[i] != OPEN_PAREN && text[i] != CLOSE_PAREN
}

/// Reading a text without parentheses keeps all of it and closes no clause.
pub proof fn lemma_scan_without_parens(text: Seq<char>)
    requires
        has_no_parens(text),
    ensures
        scan(text).depth == 0,
        scan(text).kept == text,
        scan(text).buffer == Seq::<char>::empty(),
        scan(text).clauses == Seq::<(nat, Seq<char>)>::empty(),
    decreases text.len(),
{
    if text.len() > 0 {
        let shorter = text.drop_last();
        assert forall|i: int| 0 <= i < shorter.len() implies shorter[i] != OPEN_PAREN && shorter[i]
            != CLOSE_PAREN by {
            assert(shorter[i] == text[i]);
        }
        lemma_scan_without_parens(shorter);
        assert(text.last() == text[text.len() - 1]);
        assert(shorter.push(text.last()) == text);
    } else {
        assert(text == Seq::<char>::empty());
    }
}

/// A text without a top-level parenthetical has no results.
pub proof fn lemma_no_clauses_no_results(text: Seq<char>)
    requires
        scan(text).clauses.len() == 0,
    ensures
        segment(text) == Seq::<TextInfoView>::empty(),
{
    assert(nested_results(text, 0) == Seq::<TextInfoView>::empty());
    assert(select(scan(text).clauses, definition_flags(scan(text).clauses)).len() == 0);
}

/// A text without parentheses has no results.
pub proof fn lemma_no_parens_no_results(text: Seq<char>)
    requires
        has_no_parens(text),
    ensures
        segment(text) == Seq::<TextInfoView>::empty(),
{
    lemma_scan_without_parens(text);
    lemma_no_clauses_no_results(text);
}

/// Where the `j`-th of the results for the first `n` clauses of `text`
/// comes from: returns a clause of `text` and the place where the results
/// for that clause begin; they stand there as a block that holds the `j`-th.
proof fn lemma_nested_block(text: Seq<char>, n: nat, j: int) -> (found: (int, Seq<char>))
    requires
        n <= scan(text).clauses.len(),
        0 <= j < nested_results(text, n).len(),
    ensures
        0 <= found.0 <= j < found.0 + segment(found.1).len() <= nested_results(text, n).len(),
        found.1.len() < text.len(),
        nested_results(text, n).subrange(found.0, found.0 + segment(found.1).len()) == segment(
            found.1,
        ),
    decreases n,
{
    lemma_scan_bounds(text);
    let earlier = nested_results(text, (n - 1) as nat);
    let clause = scan(text).clauses[n - 1].1;
    if j < earlier.len() {
        let found = lemma_nested_block(text, (n - 1) as nat, j);
        assert(nested_results(text, n).subrange(found.0, found.0 + segment(found.1).len())
            =~= earlier.subrange(found.0, found.0 + segment(found.1).len()));
        found
    } else {
        assert(is_definitional(clause));
        assert(nested_results(text, n) == earlier + segment(clause));
        assert(nested_results(text, n).subrange(
            earlier.len() as int,
            (earlier.len() + segment(clause).len()) as int,
        ) =~= segment(clause));
        (earlier.len() as int, clause)
    }
}

/// Where the results for the text of the `j`-th result begin: they end with
/// the `j`-th result, which is that text's own.
proof fn lemma_segment_window(text: Seq<char>, j: int) -> (start: int)
    requires
        0 <= j < segment(text).len(),
    ensures
        0 <= start <= j,
        segment(text).subrange(start, j + 1) == segment(segment(text)[j].raw_text),
        own_result(
            segment(text)[j].raw_text,
            definition_flags(scan(segment(text)[j].raw_text).clauses),
        ) == Some(segment(text)[j]),
    decreases text.len(),
{
    let nested = nested_results(text, scan(text).clauses.len());
    if j < nested.len() {
        let found = lemma_nested_block(text, scan(text).clauses.len(), j);
        let inner = segment(found.1);
        assert(nested.subrange(found.0, found.0 + inner.len())[j - found.0] == nested[j]);
        assert(segment(text)[j] == inner[j - found.0]);
        let within = lemma_segment_window(found.1, j - found.0);
        let window = segment(text).subrange(found.0 + within, j + 1);
        let inner_window = inner.subrange(within, j - found.0 + 1);
        assert forall|k: int| 0 <= k < window.len() implies #[trigger] window[k]
            == inner_window[k] by {
            assert(nested.subrange(found.0, found.0 + inner.len())[within + k] == nested[found.0
                + within + k]);
        }
        assert(window =~= inner_window);
        found.0 + within
    } else {
        assert(segment(text).subrange(0, j + 1) =~= segment(text));
        0
    }
}

/// Nested results come before the result that encloses them: the results
/// for the text of any result end with that very result, and they stand
/// together right before and up to it.
pub proof fn lemma_nested_before_enclosing(text: Seq<char>, j: int)
    requires
        0 <= j < segment(text).len(),
    ensures
        exists|start: int|
            0 <= start <= j && #[trigger] segment(text).subrange(start, j + 1) == segment(
                segment(text)[j].raw_text,
            ),
        segment(segment(text)[j].raw_text).last() == segment(text)[j],
{
    let start = lemma_segment_window(text, j);
    assert(segment(text).subrange(start, j + 1).last() == segment(text)[j]);
}

/// Every result is the one that its own text has for itself: what it keeps
/// is that text without its top-level parentheticals, its clauses are the
/// definitional ones among those, and something was taken out.
pub proof fn lemma_result_is_own(text: Seq<char>, j: int)
    requires
        0 <= j < segment(text).len(),
    ensures
        own_result(
            segment(text)[j].raw_text,
            definition_flags(scan(segment(text)[j].raw_text).clauses),
        ) == Some(segment(text)[j]),
        segment(text)[j].remove_paren_text == scan(segment(text)[j].raw_text).kept,
        segment(text)[j].remove_paren_text != segment(text)[j].raw_text,
        segment(text)[j].paren.len() > 0,
{
    let start = lemma_segment_window(text, j);
}

/// What is kept of a text holds no parenthesis.
pub proof fn lemma_kept_has_no_parens(text: Seq<char>)
    ensures
        has_no_parens(scan(text).kept),
    decreases text.len(),
{
    if text.len() > 0 {
        lemma_kept_has_no_parens(text.drop_last());
        let before = scan(text.drop_last()).kept;
        let after = scan(text).kept;
        assert forall|i: int| 0 <= i < after.len() implies after[i] != OPEN_PAREN && after[i]
            != CLOSE_PAREN by {
            if i < before.len() {
                assert(after[i] == before[i]);
            }
        }
    }
}

/// Every selected clause is one of the clauses, and its flag is `true`.
proof fn lemma_selected_is_flagged(clauses: Seq<(nat, Seq<char>)>, flags: Seq<bool>, k: int) -> (i:
    int)
    requires
        0 <= k < select(clauses, flags).len(),
    ensures
        0 <= i < clauses.len(),
        i < flags.len(),
        flags[i],
        clauses[i] == select(clauses, flags)[k],
    decreases clauses.len(),
{
    let earlier = select(clauses.drop_last(), flags);
    if k < earlier.len() {
        let i = lemma_selected_is_flagged(clauses.drop_last(), flags, k);
        assert(clauses.drop_last()[i] == clauses[i]);
        i
    } else {
        clauses.len() - 1
    }
}

/// Every clause that a result records has the shape of a definition and
/// stands at an offset within what the result keeps, and what the result
/// keeps holds no parenthesis.
pub proof fn lemma_result_clauses(text: Seq<char>, j: int, k: int)
    requires
        0 <= j < segment(text).len(),
        0 <= k < segment(text)[j].paren.len(),
    ensures
        is_definitional(segment(text)[j].paren[k].1),
        segment(text)[j].paren[k].0 <= segment(text)[j].remove_paren_text.len(),
        segment(text)[j].paren[k].1.len() < segment(text)[j].raw_text.len(),
        has_no_parens(segment(text)[j].remove_paren_text),
{
    let raw = segment(text)[j].raw_text;
    lemma_result_is_own(text, j);
    lemma_scan_bounds(raw);
    lemma_kept_has_no_parens(raw);
    let clauses = scan(raw).clauses;
    let i = lemma_selected_is_flagged(clauses, definition_flags(clauses), k);
}

/// Takes the top-level parentheticals out of `text`: returns what is left
/// and the clauses, each with the number of characters that are left before it.
pub fn split_top_level(text: &str) -> (parts: (String, Vec<(usize, String)>))
    ensures
        parts.0@ == scan(text@).kept,
        clauses_view(parts.1@) == scan(text@).clauses,
{
    let chars = to_chars(text);
    let mut depth: i128 = 0;
    let mut kept = String::new();
    let mut offset: usize = 0;
    let mut buffer = String::new();
    let mut clauses: Vec<(usize, String)> = Vec::new();
    let mut i: usize = 0;
    assert(clauses_view(clauses@) =~= Seq::empty());
    while i < chars.len()
        invariant
            i <= chars.len(),
            chars@ == text@,
            depth == scan(chars@.take(i as int)).depth,
            kept@ == scan(chars@.take(i as int)).kept,
            buffer@ == scan(chars@.take(i as int)).buffer,
            clauses_view(clauses@) == scan(chars@.take(i as int)).clauses,
            offset == kept@.len(),
        decreases chars.len() - i,
    {
        let c = chars[i];
        proof {
            assert(chars@.take(i + 1).drop_last() == chars@.take(i as int));
            lemma_scan_bounds(chars@.take(i as int));
            lemma_scan_bounds(chars@.take(i + 1));
        }
        if c == OPEN_PAREN {
            if depth != 0 {
                buffer.push(c);
            }
            depth = depth + 1;
        } else if c == CLOSE_PAREN {
            depth = depth - 1;
            if depth == 0 {
                let ghost before = clauses@;
                let ghost closed = buffer@;
                clauses.push((offset, buffer));
                buffer = String::new();
                assert(clauses_view(clauses@) =~= clauses_view(before).push((offset as nat, closed)));
            } else {
                buffer.push(c);
            }
        } else if depth == 0 {
            kept.push(c);
            offset = offset + 1;
        } else {
            buffer.push(c);
        }
        i = i + 1;
    }
    assert(chars@.take(i as int) == chars@);
    (kept, clauses)
}

/// Keeps the clauses whose flag is `true`.
fn select_clauses(clauses: Vec<(usize, String)>, flags: &Vec<bool>) -> (selected: Vec<
    (usize, String),
>)
    ensures
        clauses_view(selected@) == select(clauses_view(clauses@), flags@),
{
    let mut selected: Vec<(usize, String)> = Vec::new();
    let ghost all = clauses_view(clauses@);
    let mut i: usize = 0;
    assert(clauses_view(selected@) =~= Seq::empty());
    assert(all.take(0) =~= Seq::empty());
    while i < clauses.len()
        invariant
            i <= clauses.len(),
            all == clauses_view(clauses@),
            clauses_view(selected@) == select(all.take(i as int), flags@),
        decreases clauses.len() - i,
    {
        proof {
            assert(all.take(i + 1).drop_last() == all.take(i as int));
        }
        if i < flags.len() && flags[i] {
            let ghost before = selected@;
            selected.push((clauses[i].0, clauses[i].1.clone()));
            assert(clauses_view(selected@) =~= clauses_view(before).push(all[i as int]));
        }
        i = i + 1;
    }
    assert(all.take(i as int) == all);
    selected
}

fn build_text_info(
    text: &str,
    removed: String,
    clauses: Vec<(usize, String)>,
    flags: &Vec<bool>,
) -> (result: Option<TextInfo>)
    requires
        removed@ == scan(text@).kept,
        clauses_view(clauses@) == scan(text@).clauses,
    ensures
        result_view(result) == own_result(text@, flags@),
{
    let selected = select_clauses(clauses, flags);
    let raw = text.to_owned();
    if raw != removed && selected.len() > 0 {
        Some(TextInfo { raw_text: raw, remove_paren_text: removed, paren: selected })
    } else {
        None
    }
}

/// Makes the result for `text` itself from the flags on its top-level
/// clauses, the first flag for the first clause.
pub fn text_info(text: &str, flags: &Vec<bool>) -> (result: Option<TextInfo>)
    ensures
        result_view(result) == own_result(text@, flags@),
{
    let (removed, clauses) = split_top_level(text);
    build_text_info(text, removed, clauses, flags)
}

/// Segments `text` by its parenthetical remarks. The results for the
/// definitional clauses nested in the text come first, in the order of the
/// clauses; the result for the text itself comes last.
pub fn remove_paren(text: &str) -> (results: Vec<TextInfo>)
    ensures
        results_view(results@) == segment(text@),
        has_no_parens(text@) || scan(text@).clauses.len() == 0 ==> results@.len() == 0,
    decreases text@.len(),
{
    let (removed, clauses) = split_top_level(text);
    let mut results: Vec<TextInfo> = Vec::new();
    let mut flags: Vec<bool> = Vec::new();
    let mut i: usize = 0;
    let ghost all = scan(text@).clauses;
    assert(results_view(results@) =~= Seq::empty());
    while i < clauses.len()
        invariant
            i <= clauses.len(),
            all == scan(text@).clauses,
            clauses_view(clauses@) == all,
            flags@ == definition_flags(all).take(i as int),
            results_view(results@) == nested_results(text@, i as nat),
        decreases text@.len(), clauses.len() - i,
    {
        let clause = clauses[i].1.as_str();
        assert(all[i as int].1 == clause@);
        let keep = matches_definition(clause);
        if keep {
            proof {
                lemma_scan_bounds(text@);
            }
            let ghost before = results@;
            let mut nested = remove_paren(clause);
            let ghost added = nested@;
            results.append(&mut nested);
            assert(results_view(results@) =~= results_view(before) + results_view(added));
        }
        flags.push(keep);
        assert(flags@ =~= definition_flags(all).take(i + 1));
        i = i + 1;
    }
    assert(flags@ == definition_flags(all));
    match build_text_info(text, removed, clauses, &flags) {
        Some(own) => {
            let ghost before = results@;
            results.push(own);
            assert(results_view(results@) =~= results_view(before).push(own@));
        },
        None => {},
    }
    proof {
        if has_no_parens(text@) {
            lemma_no_parens_no_results(text@);
        }
        if scan(text@).clauses.len() == 0 {
            lemma_no_clauses_no_results(text@);
        }
    }
    results
}

} // verus!
