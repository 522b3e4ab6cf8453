//! Recognition of definitional clauses.
//!
//! A parenthetical remark defines an abbreviation when it reads either
//! "... 「alias」という。..." or "... formal term をいう。...". Both shapes are
//! written down as regular expressions, and the matching itself is left to
//! the `regex` crate.

use regex::Regex;
use vstd::prelude::*;

verus! {

/// Shape that a parenthetical must have for the segmenter to keep it.
pub const DEFINITION_PATTERN: &'static str = "([^「（]+「.+」という。.*)|(.+をいう。.*)";

/// Shape from which the assembler reads the quoted alias or the formal-term phrase.
pub const CAPTURE_PATTERN: &'static str =
    "([^「（]+「(?P<ryakusyou>[^」]+)」という。.*)|((?P<seishiki>.+)をいう。.*)";

/// Name of the capture group that holds the quoted alias.
pub const ALIAS_GROUP: &'static str = "ryakusyou";

/// Name of the capture group that holds the formal-term phrase.
pub const FORMAL_TERM_GROUP: &'static str = "seishiki";

/// Outcome of searching `haystack` for `pattern` with the `regex` crate:
/// `None` when `pattern` is not a regular expression the crate accepts,
/// otherwise whether a match exists anywhere in `haystack`.
pub uninterp spec fn regex_is_match(pattern: Seq<char>, haystack: Seq<char>) -> Option<bool>;

/// Text that the capture group called `group` holds in the leftmost match of
/// `pattern` in `haystack`, as the `regex` crate reports it: `None` when
/// `pattern` is not accepted, when nothing matches, when the pattern has no
/// such group, or when the group took no part in the match.
pub uninterp spec fn regex_named_capture(
    pattern: Seq<char>,
    group: Seq<char>,
    haystack: Seq<char>,
) -> Option<Seq<char>>;

/// Mathematical value of an optional string.
pub open spec fn option_view(s: Option<String>) -> Option<Seq<char>> {
    match s {
        Some(t) => Some(t@),
        None => None,
    }
}

/// Compiles `pattern` with `regex::Regex::new` and asks `Regex::is_match`
/// whether it occurs in `haystack`. The contract only gives the outcome its
/// name; a pattern that does not compile yields `None` instead of a panic.
#[verifier::external_body]
fn search(pattern: &str, haystack: &str) -> (found: Option<bool>)
    ensures
        found == regex_is_match(pattern@, haystack@),
{
    match Regex::new(pattern) {
        Ok(re) => Some(re.is_match(haystack)),
        Err(_) => None,
    }
}

/// Compiles `pattern` with `regex::Regex::new`, runs `Regex::captures` on
/// `haystack` and reads the group `group` with `Captures::name`. The
/// contract only gives the captured text its name; where any of the three
/// steps has nothing to give, the result is `None`.
#[verifier::external_body]
fn capture(pattern: &str, group: &str, haystack: &str) -> (text: Option<String>)
    ensures
        option_view(text) == regex_named_capture(pattern@, group@, haystack@),
{
    let re = Regex::new(pattern).ok()?;
    let caps = re.captures(haystack)?;
    let found = caps.name(group)?;
    Some(found.as_str().to_string())
}

/// What a clause was recognised as.
#[derive(Debug, Clone, PartialEq, Eq)]
pub enum ClauseKind {
    /// "... 「alias」という。...": the clause introduces `alias`.
    AliasQuote { alias: String },
    /// "... prefix をいう。...": the clause explains a term by `prefix`.
    FormalTerm { prefix: String },
    /// The clause defines nothing.
    NoMatch,
}

/// Mathematical value of a [`ClauseKind`].
pub enum ClauseKindView {
    AliasQuote { alias: Seq<char> },
    FormalTerm { prefix: Seq<char> },
    NoMatch,
}

impl View for ClauseKind {
    type V = ClauseKindView;

    open spec fn view(&self) -> ClauseKindView {
        match self {
            ClauseKind::AliasQuote { alias } => ClauseKindView::AliasQuote { alias: alias@ },
            ClauseKind::FormalTerm { prefix } => ClauseKindView::FormalTerm { prefix: prefix@ },
            ClauseKind::NoMatch => ClauseKindView::NoMatch,
        }
    }
}

/// A search has found the pattern only where the pattern was accepted and
/// a match exists.
pub open spec fn is_found(outcome: Option<bool>) -> bool {
    outcome == Some(true)
}

/// A clause has the shape of a definition when the definition pattern is found in it.
pub open spec fn is_definitional(clause: Seq<char>) -> bool {
    is_found(regex_is_match(DEFINITION_PATTERN@, clause))
}

/// Kind of a clause, given what the two named groups captured. The alias
/// group is looked at first; the formal-term group only counts without it.
pub open spec fn kind_of_captures(
    alias: Option<Seq<char>>,
    prefix: Option<Seq<char>>,
) -> ClauseKindView {
    match alias {
        Some(a) => ClauseKindView::AliasQuote { alias: a },
        None => match prefix {
            Some(p) => ClauseKindView::FormalTerm { prefix: p },
            None => ClauseKindView::NoMatch,
        },
    }
}

/// Kind of a clause according to the capture pattern.
pub open spec fn clause_kind(clause: Seq<char>) -> ClauseKindView {
    kind_of_captures(
        regex_named_capture(CAPTURE_PATTERN@, ALIAS_GROUP@, clause),
        regex_named_capture(CAPTURE_PATTERN@, FORMAL_TERM_GROUP@, clause),
    )
}

/// Tells from the outcome of a search whether the pattern was found.
pub fn found_match(outcome: Option<bool>) -> (found: bool)
    ensures
        found == is_found(outcome),
{
    match outcome {
        Some(found) => found,
        None => false,
    }
}

/// Tells whether `clause` has the shape of a definition.
pub fn matches_definition(clause: &str) -> (keep: bool)
    ensures
        keep == is_definitional(clause@),
{
    found_match(search(DEFINITION_PATTERN, clause))
}

/// Builds the kind of a clause from what the two named groups captured.
pub fn classify_captures(alias: Option<String>, prefix: Option<String>) -> (kind: ClauseKind)
    ensures
        kind@ == kind_of_captures(option_view(alias), option_view(prefix)),
{
    match alias {
        Some(a) => ClauseKind::AliasQuote { alias: a },
        None => match prefix {
            Some(p) => ClauseKind::FormalTerm { prefix: p },
            None => ClauseKind::NoMatch,
        },
    }
}

/// Classifies `clause` as an alias-quote clause, a formal-term clause or neither.
pub fn classify(clause: &str) -> (kind: ClauseKind)
    ensures
        kind@ == clause_kind(clause@),
{
    let alias = capture(CAPTURE_PATTERN, ALIAS_GROUP, clause);
    let prefix = if alias.is_none() {
        capture(CAPTURE_PATTERN, FORMAL_TERM_GROUP, clause)
    } else {
        None
    };
    classify_captures(alias, prefix)
}

} // verus!
