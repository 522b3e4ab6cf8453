//! Resolution of the span a definitional clause refers to.
//!
//! The sentence from which the parentheticals were taken out comes with its
//! dependency tokens. The token that reaches the place where a clause stood
//! is the anchor; the tokens that depend on it, directly or through others,
//! mark how far to the left the term reaches that the clause speaks of. Two
//! spans are resolved, both ending where the clause stood: a wide one that
//! is sure to hold the term, and a narrow one that the term is sure to hold.
//!
//! Nothing is asked of the tokens: spans may overlap or lie outside the
//! sentence, and a head may point at no token.

use crate::text::{contains_char, slice_chars, span, to_chars};
use std::collections::HashMap;
use vstd::prelude::*;
use vstd::std_specs::hash::*;
use vstd::std_specs::iter::IteratorSpec;

verus! {

broadcast use vstd::std_specs::hash::group_hash_axioms;

/// The full stop that ends a sentence.
pub const FULL_STOP: char = '。';

/// The comma that separates the parts of a sentence.
pub const COMMA: char = '、';

/// One token of a parsed sentence: the characters `start..end` of the
/// sentence without its parentheticals, and, where the token depends on
/// another one, the span `head_start..head_end` of that head.
#[derive(Debug, Clone, PartialEq, Eq, Hash, PartialOrd, Ord)]
pub struct JapaneseDependency {
    pub start: usize,
    pub end: usize,
    pub head_start: Option<usize>,
    pub head_end: Option<usize>,
    pub text: String,
}

/// Tokens of one sentence by their ids.
pub type TokenMap = Map<usize, JapaneseDependency>;

/// Least member of a set of ids.
pub open spec fn least(ids: Set<usize>) -> usize {
    choose|m: usize| ids.contains(m) && forall|x: usize| ids.contains(x) ==> m <= x
}

/// Greatest member of a set of ids.
pub open spec fn greatest(ids: Set<usize>) -> usize {
    choose|m: usize| ids.contains(m) && forall|x: usize| ids.contains(x) ==> x <= m
}

/// A token is an anchor for `offset` when it starts before the offset and
/// does not end before it.
pub open spec fn is_anchor(token: JapaneseDependency, offset: nat) -> bool {
    token.start < offset <= token.end
}

/// Ids of the tokens that are anchors for `offset`.
pub open spec fn anchors(tokens: TokenMap, offset: nat) -> Set<usize> {
    Set::new(|id: usize| tokens.contains_key(id) && is_anchor(tokens[id], offset))
}

/// The anchor of a clause taken out at `offset`: among the tokens that are
/// anchors for it, the one with the least id.
pub open spec fn first_anchor(tokens: TokenMap, offset: nat) -> Option<usize> {
    if exists|id: usize| anchors(tokens, offset).contains(id) {
        Some(least(anchors(tokens, offset)))
    } else {
        None
    }
}

/// A token depends on `id` when both ends of its head span are known and
/// the span holds `id`. The head span counts characters, yet it is the id
/// that is held against it, not a position: that is the rule as it stands.
pub open spec fn depends_on(token: JapaneseDependency, id: usize) -> bool {
    match (token.head_start, token.head_end) {
        (Some(s), Some(e)) => s <= id < e,
        _ => false,
    }
}

/// In a chain every id but the first is a token that depends on the id before it.
pub open spec fn is_chain(tokens: TokenMap, chain: Seq<usize>) -> bool {
    forall|k: int|
        0 < k < chain.len() ==> tokens.contains_key(#[trigger] chain[k]) && depends_on(
            tokens[chain[k]],
            chain[k - 1],
        )
}

/// `to` is reached from `from` when a chain leads from the one to the other.
pub open spec fn reaches(tokens: TokenMap, from: usize, to: usize) -> bool {
    exists|chain: Seq<usize>|
        chain.len() > 0 && chain.first() == from && chain.last() == to && is_chain(tokens, chain)
}

/// The dependency closure of `anchor`: the anchor itself and every token
/// that depends on a member of the closure.
pub open spec fn closure(tokens: TokenMap, anchor: usize) -> Set<usize> {
    Set::new(|id: usize| reaches(tokens, anchor, id))
}

/// A set of ids is closed when it holds every token that depends on one of its members.
pub open spec fn is_closed(tokens: TokenMap, ids: Set<usize>) -> bool {
    forall|member: usize, id: usize|
        ids.contains(member) && tokens.contains_key(id) && depends_on(tokens[id], member)
            ==> ids.contains(id)
}

/// A token crosses the anchor when its head starts behind the anchor's id.
/// Here too the start of the head is held against an id.
pub open spec fn crosses(token: JapaneseDependency, anchor: usize) -> bool {
    match token.head_start {
        Some(s) => anchor < s,
        None => false,
    }
}

/// Ids below the anchor's whose tokens cross the anchor.
pub open spec fn crossing_ids(tokens: TokenMap, anchor: usize) -> Set<usize> {
    Set::new(|id: usize| tokens.contains_key(id) && id < anchor && crosses(tokens[id], anchor))
}

/// Left boundary of the superset span: the end of the last token before the
/// anchor that crosses it, or the start of the sentence where there is none.
pub open spec fn superset_left(tokens: TokenMap, anchor: usize) -> usize {
    if exists|id: usize| crossing_ids(tokens, anchor).contains(id) {
        tokens[greatest(crossing_ids(tokens, anchor))].end
    } else {
        0
    }
}

/// Left boundary of the subset span: the start of the token with the least
/// id in the closure of the anchor.
pub open spec fn subset_left(tokens: TokenMap, anchor: usize) -> usize {
    tokens[least(closure(tokens, anchor))].start
}

/// The two spans resolved for a clause taken out at `offset`, the superset
/// span first: both end at the offset. Without an anchor there is no result.
pub open spec fn resolved_spans(tokens: TokenMap, text: Seq<char>, offset: nat) -> Option<
    (Seq<char>, Seq<char>),
> {
    match first_anchor(tokens, offset) {
        Some(anchor) => Some(
            (
                span(text, superset_left(tokens, anchor) as int, offset as int),
                span(text, subset_left(tokens, anchor) as int, offset as int),
            ),
        ),
        None => None,
    }
}

/// A span is broken when it holds a full stop or a comma.
pub open spec fn is_broken(span: Seq<char>) -> bool {
    span.contains(FULL_STOP) || span.contains(COMMA)
}

/// The span to go by: the superset span unless it is broken.
pub open spec fn selected_span(superset: Seq<char>, subset: Seq<char>) -> Seq<char> {
    if is_broken(superset) {
        subset
    } else {
        superset
    }
}

/// Ids in strictly ascending order.
pub open spec fn is_ascending(ids: Seq<usize>) -> bool {
    forall|i: int, j: int| 0 <= i < j < ids.len() ==> ids[i] < ids[j]
}

/// A member that no member is below is the least.
pub proof fn lemma_least_is(ids: Set<usize>, m: usize)
    requires
        ids.contains(m),
        forall|x: usize| ids.contains(x) ==> m <= x,
    ensures
        least(ids) == m,
{
    let l = least(ids);
    assert(ids.contains(l) && forall|x: usize| ids.contains(x) ==> l <= x);
}

/// A member that no member is above is the greatest.
pub proof fn lemma_greatest_is(ids: Set<usize>, m: usize)
    requires
        ids.contains(m),
        forall|x: usize| ids.contains(x) ==> x <= m,
    ensures
        greatest(ids) == m,
{
    let g = greatest(ids);
    assert(ids.contains(g) && forall|x: usize| ids.contains(x) ==> x <= g);
}

/// A set of ids that is not empty has a least member.
pub proof fn lemma_has_least(ids: Set<usize>, member: usize)
    requires
        ids.contains(member),
    ensures
        ids.contains(least(ids)),
        forall|x: usize| ids.contains(x) ==> least(ids) <= x,
    decreases member,
{
    if forall|x: usize| ids.contains(x) ==> member <= x {
        lemma_least_is(ids, member);
    } else {
        let smaller = choose|x: usize| ids.contains(x) && x < member;
        lemma_has_least(ids, smaller);
    }
}

/// Where there is an anchor, it is a token of the sentence, it is an anchor
/// for the offset, and no anchor for the offset has a lesser id.
pub proof fn lemma_first_anchor(tokens: TokenMap, offset: nat)
    ensures
        match first_anchor(tokens, offset) {
            Some(anchor) => {
                &&& tokens.contains_key(anchor)
                &&& is_anchor(tokens[anchor], offset)
                &&& forall|id: usize|
                    tokens.contains_key(id) && is_anchor(tokens[id], offset) ==> anchor <= id
            },
            None => forall|id: usize|
                tokens.contains_key(id) ==> !is_anchor(tokens[id], offset),
        },
{
    if exists|id: usize| anchors(tokens, offset).contains(id) {
        let witness = choose|id: usize| anchors(tokens, offset).contains(id);
        lemma_has_least(anchors(tokens, offset), witness);
        let anchor = least(anchors(tokens, offset));
        assert forall|id: usize|
            tokens.contains_key(id) && is_anchor(tokens[id], offset) implies anchor <= id by {
            assert(anchors(tokens, offset).contains(id));
        }
    } else {
        assert forall|id: usize| tokens.contains_key(id) implies !is_anchor(
            tokens[id],
            offset,
        ) by {
            assert(!anchors(tokens, offset).contains(id));
        }
    }
}

/// The anchor belongs to its own closure.
pub proof fn lemma_closure_holds_anchor(tokens: TokenMap, anchor: usize)
    ensures
        closure(tokens, anchor).contains(anchor),
{
    let chain = seq![anchor];
    assert(chain.first() == anchor && chain.last() == anchor);
    assert(is_chain(tokens, chain));
}

/// A token that depends on a member of the closure belongs to the closure.
pub proof fn lemma_closure_is_closed(tokens: TokenMap, anchor: usize)
    ensures
        is_closed(tokens, closure(tokens, anchor)),
{
    assert forall|member: usize, id: usize|
        closure(tokens, anchor).contains(member) && tokens.contains_key(id) && depends_on(
            tokens[id],
            member,
        ) implies closure(tokens, anchor).contains(id) by {
        let chain = choose|chain: Seq<usize>|
            chain.len() > 0 && chain.first() == anchor && chain.last() == member && is_chain(
                tokens,
                chain,
            );
        let longer = chain.push(id);
        assert forall|k: int| 0 < k < longer.len() implies tokens.contains_key(
            #[trigger] longer[k],
        ) && depends_on(tokens[longer[k]], longer[k - 1]) by {
            if k < chain.len() {
                assert(longer[k] == chain[k]);
                assert(longer[k - 1] == chain[k - 1]);
            }
        }
        assert(longer.first() == anchor && longer.last() == id);
        assert(reaches(tokens, anchor, id));
    }
}

proof fn lemma_chain_stays_inside(tokens: TokenMap, ids: Set<usize>, chain: Seq<usize>)
    requires
        chain.len() > 0,
        is_chain(tokens, chain),
        ids.contains(chain.first()),
        is_closed(tokens, ids),
    ensures
        ids.contains(chain.last()),
    decreases chain.len(),
{
    if chain.len() > 1 {
        let shorter = chain.drop_last();
        assert forall|k: int| 0 < k < shorter.len() implies tokens.contains_key(
            #[trigger] shorter[k],
        ) && depends_on(tokens[shorter[k]], shorter[k - 1]) by {
            assert(shorter[k] == chain[k]);
            assert(shorter[k - 1] == chain[k - 1]);
        }
        lemma_chain_stays_inside(tokens, ids, shorter);
        let last = chain.len() - 1;
        assert(tokens.contains_key(chain[last]) && depends_on(tokens[chain[last]], chain[last - 1]));
        assert(shorter.last() == chain[last - 1]);
    }
}

/// The closure is the least closed set that holds the anchor: every closed
/// set with the anchor in it holds the whole closure.
pub proof fn lemma_closure_is_least(tokens: TokenMap, anchor: usize, ids: Set<usize>)
    requires
        ids.contains(anchor),
        is_closed(tokens, ids),
    ensures
        closure(tokens, anchor).subset_of(ids),
{
    assert forall|id: usize| closure(tokens, anchor).contains(id) implies ids.contains(id) by {
        let chain = choose|chain: Seq<usize>|
            chain.len() > 0 && chain.first() == anchor && chain.last() == id && is_chain(
                tokens,
                chain,
            );
        lemma_chain_stays_inside(tokens, ids, chain);
    }
}

/// Every member of the closure but the anchor is a token of the sentence.
pub proof fn lemma_closure_within_tokens(tokens: TokenMap, anchor: usize)
    ensures
        closure(tokens, anchor).subset_of(tokens.dom().insert(anchor)),
{
    let ids = tokens.dom().insert(anchor);
    assert(is_closed(tokens, ids));
    lemma_closure_is_least(tokens, anchor, ids);
}

/// The closure of an anchor among finitely many tokens is finite: it
/// holds at most one id more than there are tokens.
pub proof fn lemma_closure_is_finite(tokens: TokenMap, anchor: usize)
    requires
        tokens.dom().finite(),
    ensures
        closure(tokens, anchor).finite(),
        closure(tokens, anchor).len() <= tokens.dom().len() + 1,
{
    lemma_closure_within_tokens(tokens, anchor);
    vstd::set_lib::lemma_len_subset(closure(tokens, anchor), tokens.dom().insert(anchor));
}

/// Lists the ids of `tokens`, each once, in no particular order.
pub fn token_ids(tokens: &HashMap<usize, JapaneseDependency>) -> (ids: Vec<usize>)
    ensures
        ids@.no_duplicates(),
        ids@.to_set() == tokens@.dom(),
{
    let mut ids: Vec<usize> = Vec::new();
    let ghost keys = spec_keys_iter(tokens).remaining().unref();
    for id in it: tokens.keys()
        invariant
            it.seq().unref() == keys,
            ids@ == keys.take(it.index()),
    {
        ids.push(*id);
    }
    assert(ids@ == keys);
    ids
}

fn find_anchor_among(
    tokens: &HashMap<usize, JapaneseDependency>,
    ids: &Vec<usize>,
    offset: usize,
) -> (anchor: Option<usize>)
    requires
        ids@.to_set() == tokens@.dom(),
    ensures
        anchor == first_anchor(tokens@, offset as nat),
{
    let mut best: Option<usize> = None;
    let mut i: usize = 0;
    while i < ids.len()
        invariant
            i <= ids.len(),
            match best {
                Some(b) => anchors(tokens@, offset as nat).contains(b) && forall|k: int|
                    0 <= k < i && anchors(tokens@, offset as nat).contains(#[trigger] ids@[k]) ==> b
                        <= ids@[k],
                None => forall|k: int|
                    0 <= k < i ==> !anchors(tokens@, offset as nat).contains(#[trigger] ids@[k]),
            },
        decreases ids.len() - i,
    {
        let id = ids[i];
        match tokens.get(&id) {
            Some(token) => {
                if token.start < offset && offset <= token.end {
                    match best {
                        Some(b) => {
                            if id < b {
                                best = Some(id);
                            }
                        },
                        None => {
                            best = Some(id);
                        },
                    }
                }
            },
            None => {},
        }
        i = i + 1;
    }
    proof {
        assert forall|x: usize| anchors(tokens@, offset as nat).contains(x) implies ids@.contains(x) by {
            assert(tokens@.dom().contains(x));
            assert(ids@.to_set().contains(x));
        }
        match best {
            Some(b) => {
                assert forall|x: usize| anchors(tokens@, offset as nat).contains(x) implies b <= x by {
                    let k = choose|k: int| 0 <= k < ids@.len() && ids@[k] == x;
                    assert(anchors(tokens@, offset as nat).contains(ids@[k]));
                }
                lemma_least_is(anchors(tokens@, offset as nat), b);
            },
            None => {
                assert forall|x: usize| !anchors(tokens@, offset as nat).contains(x) by {
                    if anchors(tokens@, offset as nat).contains(x) {
                        let k = choose|k: int| 0 <= k < ids@.len() && ids@[k] == x;
                        assert(!anchors(tokens@, offset as nat).contains(ids@[k]));
                    }
                }
            },
        }
    }
    best
}

/// Finds the anchor of a clause taken out at `offset`.
pub fn find_anchor(tokens: &HashMap<usize, JapaneseDependency>, offset: usize) -> (anchor: Option<
    usize,
>)
    ensures
        anchor == first_anchor(tokens@, offset as nat),
{
    let ids = token_ids(tokens);
    find_anchor_among(tokens, &ids, offset)
}

fn superset_start_among(
    tokens: &HashMap<usize, JapaneseDependency>,
    ids: &Vec<usize>,
    anchor: usize,
) -> (left: usize)
    requires
        ids@.to_set() == tokens@.dom(),
    ensures
        left == superset_left(tokens@, anchor),
{
    let mut last: Option<usize> = None;
    let mut left: usize = 0;
    let mut i: usize = 0;
    while i < ids.len()
        invariant
            i <= ids.len(),
            match last {
                Some(b) => crossing_ids(tokens@, anchor).contains(b) && left == tokens@[b].end
                    && forall|k: int|
                    0 <= k < i && crossing_ids(tokens@, anchor).contains(#[trigger] ids@[k])
                        ==> ids@[k] <= b,
                None => left == 0 && forall|k: int|
                    0 <= k < i ==> !crossing_ids(tokens@, anchor).contains(#[trigger] ids@[k]),
            },
        decreases ids.len() - i,
    {
        let id = ids[i];
        if id < anchor {
            match tokens.get(&id) {
                Some(token) => {
                    let crossing = match token.head_start {
                        Some(s) => anchor < s,
                        None => false,
                    };
                    let later = match last {
                        Some(b) => b < id,
                        None => true,
                    };
                    if crossing && later {
                        last = Some(id);
                        left = token.end;
                    }
                },
                None => {},
            }
        }
        i = i + 1;
    }
    proof {
        assert forall|x: usize| crossing_ids(tokens@, anchor).contains(x) implies ids@.contains(
            x,
        ) by {
            assert(tokens@.dom().contains(x));
            assert(ids@.to_set().contains(x));
        }
        match last {
            Some(b) => {
                assert forall|x: usize| crossing_ids(tokens@, anchor).contains(x) implies x
                    <= b by {
                    let k = choose|k: int| 0 <= k < ids@.len() && ids@[k] == x;
                    assert(crossing_ids(tokens@, anchor).contains(ids@[k]));
                }
                lemma_greatest_is(crossing_ids(tokens@, anchor), b);
            },
            None => {
                assert forall|x: usize| !crossing_ids(tokens@, anchor).contains(x) by {
                    if crossing_ids(tokens@, anchor).contains(x) {
                        let k = choose|k: int| 0 <= k < ids@.len() && ids@[k] == x;
                        assert(!crossing_ids(tokens@, anchor).contains(ids@[k]));
                    }
                }
            },
        }
    }
    left
}

/// Finds the left boundary of the superset span for the anchor `anchor`.
pub fn superset_start(tokens: &HashMap<usize, JapaneseDependency>, anchor: usize) -> (left: usize)
    ensures
        left == superset_left(tokens@, anchor),
{
    let ids = token_ids(tokens);
    superset_start_among(tokens, &ids, anchor)
}

/// Tells whether `token` depends on the token with the id `id`.
pub fn points_at(token: &JapaneseDependency, id: usize) -> (yes: bool)
    ensures
        yes == depends_on(*token, id),
{
    match (token.head_start, token.head_end) {
        (Some(s), Some(e)) => s <= id && id < e,
        _ => false,
    }
}

fn holds_id(ids: &Vec<usize>, id: usize) -> (found: bool)
    ensures
        found == ids@.contains(id),
{
    let mut i: usize = 0;
    while i < ids.len()
        invariant
            i <= ids.len(),
            forall|k: int| 0 <= k < i ==> ids@[k] != id,
        decreases ids.len() - i,
    {
        if ids[i] == id {
            return true;
        }
        i = i + 1;
    }
    false
}

proof fn lemma_found_fits(tokens: TokenMap, ids: Seq<usize>, found: Seq<usize>)
    requires
        ids.no_duplicates(),
        ids.to_set() == tokens.dom(),
        found.len() > 0,
        found.no_duplicates(),
        forall|k: int| 0 < k < found.len() ==> tokens.contains_key(#[trigger] found[k]),
    ensures
        found.len() <= ids.len() + 1,
{
    let rest = found.drop_first();
    assert forall|i: int, j: int| 0 <= i < j < rest.len() implies rest[i] != rest[j] by {
        assert(rest[i] == found[i + 1] && rest[j] == found[j + 1]);
    }
    rest.unique_seq_to_set();
    ids.unique_seq_to_set();
    assert forall|x: usize| rest.to_set().contains(x) implies ids.to_set().contains(x) by {
        let k = choose|k: int| 0 <= k < rest.len() && rest[k] == x;
        assert(rest[k] == found[k + 1]);
    }
    vstd::set_lib::lemma_len_subset(rest.to_set(), ids.to_set());
}

/// What the search for the closure has found so far: the anchor first, no
/// id twice, and nothing but members of the closure.
spec fn is_partial_closure(tokens: TokenMap, anchor: usize, found: Seq<usize>) -> bool {
    &&& found.len() > 0
    &&& found[0] == anchor
    &&& found.no_duplicates()
    &&& forall|k: int| 0 < k < found.len() ==> tokens.contains_key(#[trigger] found[k])
    &&& forall|k: int| 0 <= k < found.len() ==> closure(tokens, anchor).contains(#[trigger] found[k])
}

/// Every token that depends on `member` has been found.
spec fn dependents_held(tokens: TokenMap, found: Seq<usize>, member: usize) -> bool {
    forall|id: usize|
        tokens.contains_key(id) && depends_on(tokens[id], member) ==> found.contains(id)
}

proof fn lemma_dependents_stay_held(
    tokens: TokenMap,
    before: Seq<usize>,
    after: Seq<usize>,
    member: usize,
)
    requires
        before.is_prefix_of(after),
        dependents_held(tokens, before, member),
    ensures
        dependents_held(tokens, after, member),
{
    assert forall|id: usize|
        tokens.contains_key(id) && depends_on(tokens[id], member) implies after.contains(id) by {
        assert(before.contains(id));
        let k = choose|k: int| 0 <= k < before.len() && before[k] == id;
        assert(after.subrange(0, before.len() as int)[k] == after[k]);
    }
}

proof fn lemma_partial_closure_grows(
    tokens: TokenMap,
    anchor: usize,
    found: Seq<usize>,
    at: int,
    id: usize,
)
    requires
        is_partial_closure(tokens, anchor, found),
        0 <= at < found.len(),
        tokens.contains_key(id),
        depends_on(tokens[id], found[at]),
        !found.contains(id),
    ensures
        is_partial_closure(tokens, anchor, found.push(id)),
{
    let grown = found.push(id);
    lemma_closure_is_closed(tokens, anchor);
    assert(closure(tokens, anchor).contains(found[at]));
    assert(closure(tokens, anchor).contains(id));
    assert forall|i: int, j: int| 0 <= i < j < grown.len() implies grown[i] != grown[j] by {
        if j < found.len() {
            assert(grown[i] == found[i] && grown[j] == found[j]);
        } else {
            assert(grown[i] == found[i]);
            assert(found.contains(found[i]));
        }
    }
    assert forall|k: int| 0 < k < grown.len() implies tokens.contains_key(#[trigger] grown[k]) by {
        if k < found.len() {
            assert(grown[k] == found[k]);
        }
    }
    assert forall|k: int| 0 <= k < grown.len() implies closure(tokens, anchor).contains(
        #[trigger] grown[k],
    ) by {
        if k < found.len() {
            assert(grown[k] == found[k]);
        }
    }
}

/// Appends to `found` the tokens that depend on its member at `at` and are
/// not among `found` yet.
fn add_dependents(
    tokens: &HashMap<usize, JapaneseDependency>,
    ids: &Vec<usize>,
    found: &mut Vec<usize>,
    at: usize,
    Ghost(anchor): Ghost<usize>,
)
    requires
        ids@.no_duplicates(),
        ids@.to_set() == tokens@.dom(),
        is_partial_closure(tokens@, anchor, old(found)@),
        at < old(found)@.len(),
    ensures
        is_partial_closure(tokens@, anchor, final(found)@),
        old(found)@.is_prefix_of(final(found)@),
        dependents_held(tokens@, final(found)@, old(found)@[at as int]),
{
    let current = found[at];
    let ghost start = found@;
    let mut j: usize = 0;
    while j < ids.len()
        invariant
            j <= ids.len(),
            start.is_prefix_of(found@),
            at < start.len(),
            current == start[at as int],
            is_partial_closure(tokens@, anchor, found@),
            forall|q: int|
                0 <= q < j && tokens@.contains_key(#[trigger] ids@[q]) && depends_on(
                    tokens@[ids@[q]],
                    current,
                ) ==> found@.contains(ids@[q]),
        decreases ids.len() - j,
    {
        let id = ids[j];
        match tokens.get(&id) {
            Some(token) => {
                if points_at(token, current) && !holds_id(found, id) {
                    let ghost before = found@;
                    proof {
                        assert(before[at as int] == start[at as int]);
                        lemma_partial_closure_grows(tokens@, anchor, before, at as int, id);
                    }
                    found.push(id);
                    proof {
                        assert(before.is_prefix_of(found@));
                        assert(found@[before.len() as int] == id);
                        assert forall|q: int|
                            0 <= q < j && tokens@.contains_key(#[trigger] ids@[q]) && depends_on(
                                tokens@[ids@[q]],
                                current,
                            ) implies found@.contains(ids@[q]) by {
                            let k = choose|k: int| 0 <= k < before.len() && before[k] == ids@[q];
                            assert(found@[k] == before[k]);
                        }
                    }
                }
            },
            None => {},
        }
        j = j + 1;
    }
    proof {
        assert forall|id: usize|
            tokens@.contains_key(id) && depends_on(tokens@[id], current) implies found@.contains(
                id,
            ) by {
            assert(ids@.to_set().contains(id));
            let q = choose|q: int| 0 <= q < ids@.len() && ids@[q] == id;
            assert(tokens@.contains_key(ids@[q]));
        }
    }
}

fn closure_among(
    tokens: &HashMap<usize, JapaneseDependency>,
    ids: &Vec<usize>,
    anchor: usize,
) -> (found: Vec<usize>)
    requires
        ids@.no_duplicates(),
        ids@.to_set() == tokens@.dom(),
    ensures
        found@.no_duplicates(),
        found@.to_set() == closure(tokens@, anchor),
{
    let mut found: Vec<usize> = Vec::new();
    found.push(anchor);
    let mut next: usize = 0;
    proof {
        lemma_closure_holds_anchor(tokens@, anchor);
        lemma_found_fits(tokens@, ids@, found@);
    }
    while next < found.len()
        invariant
            ids@.no_duplicates(),
            ids@.to_set() == tokens@.dom(),
            next <= found.len() <= ids.len() + 1,
            is_partial_closure(tokens@, anchor, found@),
            forall|p: int| 0 <= p < next ==> dependents_held(tokens@, found@, #[trigger] found@[p]),
        decreases ids.len() + 1 - next,
    {
        let ghost before = found@;
        add_dependents(tokens, ids, &mut found, next, Ghost(anchor));
        proof {
            lemma_found_fits(tokens@, ids@, found@);
            assert forall|p: int| 0 <= p < next + 1 implies dependents_held(
                tokens@,
                found@,
                #[trigger] found@[p],
            ) by {
                assert(found@[p] == before[p]);
                if p < next {
                    lemma_dependents_stay_held(tokens@, before, found@, before[p]);
                }
            }
        }
        next = next + 1;
    }
    proof {
        let held = found@.to_set();
        assert(held.contains(found@[0]));
        assert forall|member: usize, id: usize|
            held.contains(member) && tokens@.contains_key(id) && depends_on(
                tokens@[id],
                member,
            ) implies held.contains(id) by {
            let p = choose|p: int| 0 <= p < found@.len() && found@[p] == member;
            assert(dependents_held(tokens@, found@, found@[p]));
        }
        lemma_closure_is_least(tokens@, anchor, held);
        assert forall|x: usize| held.contains(x) implies closure(tokens@, anchor).contains(x) by {
            let k = choose|k: int| 0 <= k < found@.len() && found@[k] == x;
            assert(closure(tokens@, anchor).contains(found@[k]));
        }
        assert(held =~= closure(tokens@, anchor));
    }
    found
}

/// Puts `id` at its place in the ascending list `sorted`, unless the list holds it already.
fn insert_ascending(sorted: &mut Vec<usize>, id: usize)
    requires
        is_ascending(old(sorted)@),
    ensures
        is_ascending(final(sorted)@),
        final(sorted)@.to_set() == old(sorted)@.to_set().insert(id),
{
    let mut at: usize = 0;
    while at < sorted.len() && sorted[at] < id
        invariant
            at <= sorted.len(),
            sorted@ == old(sorted)@,
            forall|k: int| 0 <= k < at ==> sorted@[k] < id,
        decreases sorted.len() - at,
    {
        at = at + 1;
    }
    let ghost before = sorted@;
    if at < sorted.len() && sorted[at] == id {
        proof {
            assert(before.to_set().contains(before[at as int]));
            assert(before.to_set().insert(id) =~= before.to_set());
        }
        return ;
    }
    sorted.insert(at, id);
    proof {
        let after = sorted@;
        assert(after.len() == before.len() + 1);
        assert(after[at as int] == id);
        assert forall|k: int| 0 <= k < at implies after[k] == before[k] by {}
        assert forall|k: int| at < k < after.len() implies after[k] == before[k - 1] by {}
        assert forall|i: int, j: int| 0 <= i < j < after.len() implies after[i] < after[j] by {
            if j < at {
            } else if j == at {
            } else if i < at {
                assert(before[i] < before[j - 1]) by {
                    if i < j - 1 {
                    }
                }
            } else if i == at {
                assert(before[at as int] <= before[j - 1]);
            } else {
            }
        }
        assert forall|x: usize| after.to_set().contains(x) <==> before.to_set().insert(
            id,
        ).contains(x) by {
            if after.to_set().contains(x) {
                let k = choose|k: int| 0 <= k < after.len() && after[k] == x;
                if k < at {
                    assert(before[k] == x);
                    assert(before.contains(x));
                } else if k > at {
                    assert(before[k - 1] == x);
                    assert(before.contains(x));
                }
            }
            if before.to_set().contains(x) {
                let k = choose|k: int| 0 <= k < before.len() && before[k] == x;
                if k < at {
                    assert(after[k] == x);
                } else {
                    assert(after[k + 1] == x);
                }
            }
        }
        assert(after.to_set() =~= before.to_set().insert(id));
    }
}

/// Lists the ids of `ids` in ascending order, each once.
pub fn ascending_ids(ids: &Vec<usize>) -> (sorted: Vec<usize>)
    ensures
        is_ascending(sorted@),
        sorted@.to_set() == ids@.to_set(),
{
    let mut sorted: Vec<usize> = Vec::new();
    let mut i: usize = 0;
    assert(sorted@.to_set() =~= ids@.take(0).to_set());
    while i < ids.len()
        invariant
            i <= ids.len(),
            is_ascending(sorted@),
            sorted@.to_set() == ids@.take(i as int).to_set(),
        decreases ids.len() - i,
    {
        insert_ascending(&mut sorted, ids[i]);
        proof {
            let longer = ids@.take(i + 1);
            assert(longer == ids@.take(i as int).push(ids@[i as int]));
            ids@.take(i as int).lemma_push_to_set_commute(ids@[i as int]);
        }
        i = i + 1;
    }
    assert(ids@.take(i as int) == ids@);
    sorted
}

/// Computes the dependency closure of `anchor`, in ascending order of id.
pub fn dependency_closure(tokens: &HashMap<usize, JapaneseDependency>, anchor: usize) -> (members:
    Vec<usize>)
    ensures
        is_ascending(members@),
        members@.to_set() == closure(tokens@, anchor),
{
    let ids = token_ids(tokens);
    let found = closure_among(tokens, &ids, anchor);
    ascending_ids(&found)
}

/// The first id of an ascending list is the least of the ids it holds.
pub proof fn lemma_first_is_least(members: Seq<usize>)
    requires
        is_ascending(members),
        members.len() > 0,
    ensures
        least(members.to_set()) == members[0],
{
    assert(members.to_set().contains(members[0]));
    assert forall|x: usize| members.to_set().contains(x) implies members[0] <= x by {
        let k = choose|k: int| 0 <= k < members.len() && members[k] == x;
        if k > 0 {
            assert(members[0] < members[k]);
        }
    }
    lemma_least_is(members.to_set(), members[0]);
}

fn subset_start_among(
    tokens: &HashMap<usize, JapaneseDependency>,
    ids: &Vec<usize>,
    anchor: usize,
) -> (left: usize)
    requires
        ids@.no_duplicates(),
        ids@.to_set() == tokens@.dom(),
        tokens@.contains_key(anchor),
    ensures
        left == subset_left(tokens@, anchor),
{
    let found = closure_among(tokens, ids, anchor);
    let members = ascending_ids(&found);
    proof {
        lemma_closure_holds_anchor(tokens@, anchor);
        lemma_closure_within_tokens(tokens@, anchor);
        assert(members@.to_set().contains(anchor));
        lemma_first_is_least(members@);
        assert(members@.to_set().contains(members@[0]));
        assert(tokens@.dom().insert(anchor).contains(members@[0]));
    }
    match tokens.get(&members[0]) {
        Some(head) => head.start,
        None => 0,
    }
}

/// Finds the left boundary of the subset span for the anchor `anchor`.
/// There is none where the anchor is not a token of the sentence.
pub fn subset_start(tokens: &HashMap<usize, JapaneseDependency>, anchor: usize) -> (left: Option<
    usize,
>)
    ensures
        left == if tokens@.contains_key(anchor) {
            Some(subset_left(tokens@, anchor))
        } else {
            None
        },
{
    if tokens.contains_key(&anchor) {
        let ids = token_ids(tokens);
        Some(subset_start_among(tokens, &ids, anchor))
    } else {
        None
    }
}

/// Resolves the spans a clause taken out of `removed_text` at `offset`
/// refers to: the superset span first, then the subset span. There is no
/// result exactly when no token is an anchor for the offset.
pub fn resolve(
    tokens: &HashMap<usize, JapaneseDependency>,
    removed_text: &str,
    offset: usize,
) -> (spans: Option<(String, String)>)
    ensures
        match spans {
            Some((superset, subset)) => resolved_spans(tokens@, removed_text@, offset as nat) == Some(
                (superset@, subset@),
            ),
            None => resolved_spans(tokens@, removed_text@, offset as nat) is None,
        },
{
    let ids = token_ids(tokens);
    match find_anchor_among(tokens, &ids, offset) {
        Some(anchor) => {
            proof {
                lemma_first_anchor(tokens@, offset as nat);
            }
            let superset_from = superset_start_among(tokens, &ids, anchor);
            let subset_from = subset_start_among(tokens, &ids, anchor);
            let chars = to_chars(removed_text);
            let superset = slice_chars(&chars, superset_from, offset);
            let subset = slice_chars(&chars, subset_from, offset);
            Some((superset, subset))
        },
        None => None,
    }
}

/// Chooses between the two resolved spans: the superset span unless a full
/// stop or a comma breaks it, else the subset span.
pub fn select_span(superset: String, subset: String) -> (chosen: String)
    ensures
        chosen@ == selected_span(superset@, subset@),
{
    let chars = to_chars(superset.as_str());
    if contains_char(&chars, FULL_STOP) || contains_char(&chars, COMMA) {
        subset
    } else {
        superset
    }
}

/// The least id of the closure is never above the anchor's. Where every
/// token up to the anchor starts no later than the anchor does, the subset
/// span therefore starts before the offset of the clause.
pub proof fn lemma_subset_span_starts_before_offset(tokens: TokenMap, offset: nat)
    requires
        first_anchor(tokens, offset) is Some,
        forall|id: usize|
            tokens.contains_key(id) && id <= first_anchor(tokens, offset).unwrap()
                ==> tokens[id].start <= tokens[first_anchor(tokens, offset).unwrap()].start,
    ensures
        least(closure(tokens, first_anchor(tokens, offset).unwrap())) <= first_anchor(
            tokens,
            offset,
        ).unwrap(),
        subset_left(tokens, first_anchor(tokens, offset).unwrap()) < offset,
{
    let anchor = first_anchor(tokens, offset).unwrap();
    lemma_first_anchor(tokens, offset);
    lemma_closure_least_exists(tokens, anchor);
    lemma_closure_within_tokens(tokens, anchor);
    let head = least(closure(tokens, anchor));
    assert(tokens.dom().insert(anchor).contains(head));
}

/// The closure has a least member, and it is at most the anchor.
pub proof fn lemma_closure_least_exists(tokens: TokenMap, anchor: usize)
    ensures
        closure(tokens, anchor).contains(least(closure(tokens, anchor))),
        forall|x: usize|
            closure(tokens, anchor).contains(x) ==> least(closure(tokens, anchor)) <= x,
        least(closure(tokens, anchor)) <= anchor,
{
    lemma_closure_holds_anchor(tokens, anchor);
    lemma_has_least(closure(tokens, anchor), anchor);
}

} // verus!
