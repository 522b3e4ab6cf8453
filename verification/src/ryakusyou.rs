//! Assembly of abbreviation pairs.
//!
//! A definitional clause and the span resolved for it make a pair of an
//! abbreviation and the formal term it stands for. The pairs found in one
//! sentence are reported together with the law and the place in it where
//! the sentence stands.

use crate::dependency::{
    resolve, resolved_spans, select_span, selected_span, JapaneseDependency, TokenMap,
};
use crate::pattern::{classify, clause_kind, ClauseKind, ClauseKindView};
use crate::text::{check_paren, clauses_view, is_balanced};
use std::collections::HashMap;
use vstd::prelude::*;

verus! {

/// Place of a sentence within a law.
#[derive(Debug, Clone, PartialEq, Eq, Hash, PartialOrd, Ord)]
pub struct Chapter {
    pub article: String,
    pub paragraph: Option<String>,
    pub item: Option<String>,
    pub sub_item: Option<String>,
    pub suppl_provision_title: Option<String>,
}

/// An abbreviation and the formal term it stands for.
#[derive(Debug, Clone, PartialEq, Eq, Hash, PartialOrd, Ord)]
pub struct Ryakusyou {
    /// The abbreviation.
    pub ryakusyou: String,
    /// The formal term.
    pub seishiki: String,
}

/// Mathematical value of a [`Ryakusyou`].
pub struct RyakusyouView {
    pub ryakusyou: Seq<char>,
    pub seishiki: Seq<char>,
}

impl View for Ryakusyou {
    type V = RyakusyouView;

    open spec fn view(&self) -> RyakusyouView {
        RyakusyouView { ryakusyou: self.ryakusyou@, seishiki: self.seishiki@ }
    }
}

/// The pairs found in one sentence of a law.
#[derive(Debug, Clone, PartialEq, Eq, Hash, PartialOrd, Ord)]
pub struct RyakusyouInfo {
    /// Number of the law.
    pub num: String,
    /// Place of the sentence in the law.
    pub chapter: Chapter,
    /// The pairs, in the order of their clauses.
    pub ryakusyou_lst: Vec<Ryakusyou>,
}

/// A segmented sentence of a law, ready for resolution.
#[derive(Debug, Clone)]
pub struct ParseRyakusyouInfo {
    pub raw_text: String,
    pub remove_paren_text: String,
    pub paren: Vec<(usize, String)>,
    pub num: String,
    pub chapter: Chapter,
}

/// The pair that a clause of kind `kind` makes with the span resolved for
/// it. An alias-quote clause names the abbreviation and takes the span as
/// formal term; a formal-term clause names the formal term and takes the
/// span as abbreviation. A span whose parentheses are not balanced makes no
/// pair, and neither does a clause that defines nothing.
pub open spec fn assembled(kind: ClauseKindView, span: Seq<char>) -> Option<RyakusyouView> {
    if !is_balanced(span) {
        None
    } else {
        match kind {
            ClauseKindView::AliasQuote { alias } => Some(
                RyakusyouView { ryakusyou: alias, seishiki: span },
            ),
            ClauseKindView::FormalTerm { prefix } => Some(
                RyakusyouView { ryakusyou: span, seishiki: prefix },
            ),
            ClauseKindView::NoMatch => None,
        }
    }
}

/// The pair found for the clause `clause` taken out of `text` at `offset`.
pub open spec fn pair_for(tokens: TokenMap, text: Seq<char>, offset: nat, clause: Seq<char>)
    -> Option<RyakusyouView> {
    match resolved_spans(tokens, text, offset) {
        Some((superset, subset)) => assembled(
            clause_kind(clause),
            selected_span(superset, subset),
        ),
        None => None,
    }
}

/// The pairs found for `clauses`, in their order; a clause without a pair is passed over.
pub open spec fn pairs_for(tokens: TokenMap, text: Seq<char>, clauses: Seq<(nat, Seq<char>)>)
    -> Seq<RyakusyouView>
    decreases clauses.len(),
{
    if clauses.len() == 0 {
        Seq::empty()
    } else {
        let earlier = pairs_for(tokens, text, clauses.drop_last());
        match pair_for(tokens, text, clauses.last().0, clauses.last().1) {
            Some(pair) => earlier.push(pair),
            None => earlier,
        }
    }
}

/// Mathematical value of a list of pairs.
pub open spec fn pairs_view(pairs: Seq<Ryakusyou>) -> Seq<RyakusyouView> {
    pairs.map_values(|pair: Ryakusyou| pair@)
}

/// Mathematical value of an optional pair.
pub open spec fn pair_view(pair: Option<Ryakusyou>) -> Option<RyakusyouView> {
    match pair {
        Some(p) => Some(p@),
        None => None,
    }
}

/// The field of `pair` that holds the resolved span of a clause of kind
/// `kind`: the formal term for an alias-quote clause, the abbreviation for
/// a formal-term clause.
pub open spec fn span_field(kind: ClauseKindView, pair: RyakusyouView) -> Option<Seq<char>> {
    match kind {
        ClauseKindView::AliasQuote { alias } => Some(pair.seishiki),
        ClauseKindView::FormalTerm { prefix } => Some(pair.ryakusyou),
        ClauseKindView::NoMatch => None,
    }
}

/// No pair is made from an unbalanced span: the field of a pair that holds
/// the resolved span is that span, and its parentheses are balanced.
pub proof fn lemma_assembled_span_is_balanced(kind: ClauseKindView, span: Seq<char>)
    ensures
        match assembled(kind, span) {
            Some(pair) => span_field(kind, pair) == Some(span) && is_balanced(span),
            None => !is_balanced(span) || kind is NoMatch,
        },
{
}

/// Every pair found for a list of clauses is the pair of one of the clauses.
proof fn lemma_pair_has_clause(
    tokens: TokenMap,
    text: Seq<char>,
    clauses: Seq<(nat, Seq<char>)>,
    i: int,
) -> (k: int)
    requires
        0 <= i < pairs_for(tokens, text, clauses).len(),
    ensures
        0 <= k < clauses.len(),
        pair_for(tokens, text, clauses[k].0, clauses[k].1) == Some(
            pairs_for(tokens, text, clauses)[i],
        ),
    decreases clauses.len(),
{
    let earlier = pairs_for(tokens, text, clauses.drop_last());
    if i < earlier.len() {
        let k = lemma_pair_has_clause(tokens, text, clauses.drop_last(), i);
        assert(clauses.drop_last()[k] == clauses[k]);
        k
    } else {
        clauses.len() - 1
    }
}

/// In every pair found for a list of clauses, the field that holds the
/// resolved span has balanced parentheses.
pub proof fn lemma_pairs_hold_balanced_spans(
    tokens: TokenMap,
    text: Seq<char>,
    clauses: Seq<(nat, Seq<char>)>,
    i: int,
)
    requires
        0 <= i < pairs_for(tokens, text, clauses).len(),
    ensures
        exists|k: int|
            0 <= k < clauses.len() && pair_for(tokens, text, clauses[k].0, clauses[k].1) == Some(
                pairs_for(tokens, text, clauses)[i],
            ) && match span_field(
                clause_kind((#[trigger] clauses[k]).1),
                pairs_for(tokens, text, clauses)[i],
            ) {
                Some(span) => is_balanced(span),
                None => false,
            },
{
    let k = lemma_pair_has_clause(tokens, text, clauses, i);
    let spans = resolved_spans(tokens, text, clauses[k].0).unwrap();
    lemma_assembled_span_is_balanced(clause_kind(clauses[k].1), selected_span(spans.0, spans.1));
}

/// Makes the pair of a classified clause and the span resolved for it.
pub fn assemble_classified(kind: ClauseKind, resolved_span: String) -> (pair: Option<Ryakusyou>)
    ensures
        pair_view(pair) == assembled(kind@, resolved_span@),
{
    if !check_paren(resolved_span.as_str()) {
        return None;
    }
    match kind {
        ClauseKind::AliasQuote { alias } => Some(
            Ryakusyou { ryakusyou: alias, seishiki: resolved_span },
        ),
        ClauseKind::FormalTerm { prefix } => Some(
            Ryakusyou { ryakusyou: resolved_span, seishiki: prefix },
        ),
        ClauseKind::NoMatch => None,
    }
}

/// Makes the pair of the clause `clause` and the span resolved for it.
pub fn assemble(clause: &str, resolved_span: String) -> (pair: Option<Ryakusyou>)
    ensures
        pair_view(pair) == assembled(clause_kind(clause@), resolved_span@),
{
    assemble_classified(classify(clause), resolved_span)
}

fn copy_optional(s: &Option<String>) -> (copy: Option<String>)
    ensures
        copy == *s,
{
    match s {
        Some(t) => Some(t.clone()),
        None => None,
    }
}

impl Chapter {
    /// Makes a copy of this place.
    pub fn duplicate(&self) -> (copy: Chapter)
        ensures
            copy == *self,
    {
        Chapter {
            article: self.article.clone(),
            paragraph: copy_optional(&self.paragraph),
            item: copy_optional(&self.item),
            sub_item: copy_optional(&self.sub_item),
            suppl_provision_title: copy_optional(&self.suppl_provision_title),
        }
    }
}

impl RyakusyouInfo {
    /// Tells whether any pair was found. A sentence without pairs is not reported.
    pub fn has_pairs(&self) -> (yes: bool)
        ensures
            yes == (self.ryakusyou_lst@.len() > 0),
    {
        self.ryakusyou_lst.len() > 0
    }
}

/// Finds the abbreviation pairs of one segmented sentence: for each of its
/// clauses, in order, the pair of the clause and the span that the tokens
/// resolve for it, where there is one.
pub fn find_ryakusyou(
    japanese_dependency_lst: &HashMap<usize, JapaneseDependency>,
    parse_ryakusyou_info: &ParseRyakusyouInfo,
) -> (info: RyakusyouInfo)
    ensures
        info.num@ == parse_ryakusyou_info.num@,
        info.chapter == parse_ryakusyou_info.chapter,
        pairs_view(info.ryakusyou_lst@) == pairs_for(
            japanese_dependency_lst@,
            parse_ryakusyou_info.remove_paren_text@,
            clauses_view(parse_ryakusyou_info.paren@),
        ),
{
    let mut pairs: Vec<Ryakusyou> = Vec::new();
    let ghost tokens = japanese_dependency_lst@;
    let ghost text = parse_ryakusyou_info.remove_paren_text@;
    let ghost clauses = clauses_view(parse_ryakusyou_info.paren@);
    let mut i: usize = 0;
    assert(clauses.take(0) =~= Seq::empty());
    assert(pairs_view(pairs@) =~= Seq::empty());
    while i < parse_ryakusyou_info.paren.len()
        invariant
            i <= parse_ryakusyou_info.paren.len(),
            tokens == japanese_dependency_lst@,
            text == parse_ryakusyou_info.remove_paren_text@,
            clauses == clauses_view(parse_ryakusyou_info.paren@),
            pairs_view(pairs@) == pairs_for(tokens, text, clauses.take(i as int)),
        decreases parse_ryakusyou_info.paren.len() - i,
    {
        let offset = parse_ryakusyou_info.paren[i].0;
        let clause = parse_ryakusyou_info.paren[i].1.as_str();
        let ghost before = pairs@;
        proof {
            let upto = clauses.take(i + 1);
            assert(upto.drop_last() == clauses.take(i as int));
            assert(upto.last() == (offset as nat, clause@));
        }
        match resolve(japanese_dependency_lst, parse_ryakusyou_info.remove_paren_text.as_str(), offset) {
            Some((superset, subset)) => {
                match assemble(clause, select_span(superset, subset)) {
                    Some(pair) => {
                        pairs.push(pair);
                        assert(pairs_view(pairs@) =~= pairs_view(before).push(pair@));
                    },
                    None => {},
                }
            },
            None => {},
        }
        i = i + 1;
    }
    assert(clauses.take(i as int) == clauses);
    RyakusyouInfo {
        num: parse_ryakusyou_info.num.clone(),
        chapter: parse_ryakusyou_info.chapter.duplicate(),
        ryakusyou_lst: pairs,
    }
}

} // verus!
