//! Character-level helpers shared by the segmenter, the resolver and the assembler.

use vstd::prelude::*;

verus! {

/// The full-width opening parenthesis that starts a parenthetical remark.
pub const OPEN_PAREN: char = '（';

/// The full-width closing parenthesis that ends a parenthetical remark.
pub const CLOSE_PAREN: char = '）';

/// Number of occurrences of `c` in `s`.
pub open spec fn count_char(s: Seq<char>, c: char) -> nat
    decreases s.len(),
{
    if s.len() == 0 {
        0
    } else {
        count_char(s.drop_last(), c) + if s.last() == c { 1nat } else { 0nat }
    }
}

/// A text is balanced when it holds as many opening as closing full-width parentheses.
pub open spec fn is_balanced(s: Seq<char>) -> bool {
    count_char(s, OPEN_PAREN) == count_char(s, CLOSE_PAREN)
}

/// A character occurs in a text at most as often as the text is long.
pub proof fn lemma_count_char_bound(s: Seq<char>, c: char)
    ensures
        count_char(s, c) <= s.len(),
    decreases s.len(),
{
    if s.len() > 0 {
        lemma_count_char_bound(s.drop_last(), c);
    }
}

/// `String::push` appends one character at the end of the string and leaves
/// the characters before it as they were.
pub assume_specification[ String::push ](s: &mut String, ch: char)
    ensures
        final(s)@ == old(s)@.push(ch),
;

/// The characters of `text` at the positions `left <= i < right`. Positions
/// beyond the end of the text hold nothing, and so does an empty range.
pub open spec fn span(text: Seq<char>, left: int, right: int) -> Seq<char> {
    let hi = if right < text.len() { right } else { text.len() as int };
    let lo = if left < 0 { 0 } else { left };
    if lo < hi {
        text.subrange(lo, hi)
    } else {
        Seq::empty()
    }
}

/// Mathematical value of a list of clauses: each with the offset at which
/// it was taken out and with its characters.
pub open spec fn clauses_view(clauses: Seq<(usize, String)>) -> Seq<(nat, Seq<char>)> {
    clauses.map_values(|clause: (usize, String)| (clause.0 as nat, clause.1@))
}

/// Copies the characters of `s` into a vector, so that they can be reached by position.
pub fn to_chars(s: &str) -> (chars: Vec<char>)
    ensures
        chars@ == s@,
{
    let mut chars: Vec<char> = Vec::new();
    for c in it: s.chars()
        invariant
            it.seq() == s@,
            chars@ == s@.take(it.index()),
    {
        chars.push(c);
    }
    chars
}

/// Tells whether the full-width parentheses of `s` are balanced in number.
pub fn check_paren(s: &str) -> (balanced: bool)
    ensures
        balanced == is_balanced(s@),
{
    let chars = to_chars(s);
    let mut opens: usize = 0;
    let mut closes: usize = 0;
    let mut i: usize = 0;
    while i < chars.len()
        invariant
            i <= chars.len(),
            opens == count_char(chars@.take(i as int), OPEN_PAREN),
            closes == count_char(chars@.take(i as int), CLOSE_PAREN),
        decreases chars.len() - i,
    {
        proof {
            let next = chars@.take(i + 1);
            assert(next.drop_last() == chars@.take(i as int));
            lemma_count_char_bound(next, OPEN_PAREN);
            lemma_count_char_bound(next, CLOSE_PAREN);
        }
        if chars[i] == OPEN_PAREN {
            opens = opens + 1;
        } else if chars[i] == CLOSE_PAREN {
            closes = closes + 1;
        }
        i = i + 1;
    }
    assert(chars@.take(i as int) == chars@);
    opens == closes
}

/// Builds the string that holds the characters of `chars` from position
/// `left` up to, but not including, position `right`.
pub fn slice_chars(chars: &Vec<char>, left: usize, right: usize) -> (piece: String)
    ensures
        piece@ == span(chars@, left as int, right as int),
{
    let hi = if right < chars.len() { right } else { chars.len() };
    let mut piece = String::new();
    let mut i: usize = left;
    while i < hi
        invariant
            hi <= chars.len(),
            hi == if right < chars.len() { right } else { chars.len() },
            left <= i,
            left < hi ==> i <= hi,
            left < hi ==> piece@ == chars@.subrange(left as int, i as int),
            left >= hi ==> piece@ == Seq::<char>::empty(),
        decreases hi - i,
    {
        piece.push(chars[i]);
        i = i + 1;
    }
    piece
}

/// Tells whether `needle` occurs among `chars`.
pub fn contains_char(chars: &Vec<char>, needle: char) -> (found: bool)
    ensures
        found == chars@.contains(needle),
{
    let mut i: usize = 0;
    while i < chars.len()
        invariant
            i <= chars.len(),
            forall|k: int| 0 <= k < i ==> chars@[k] != needle,
        decreases chars.len() - i,
    {
        if chars[i] == needle {
            return true;
        }
        i = i + 1;
    }
    false
}

} // verus!
