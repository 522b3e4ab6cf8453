use analysis_ryakusyou::pattern::{classify, classify_captures, matches_definition, found_match, ClauseKind};
use analysis_ryakusyou::ryakusyou::{assemble, assemble_classified};
use analysis_ryakusyou::text::{contains_char, slice_chars, to_chars};
use analysis_ryakusyou::{
    check_paren, find_ryakusyou, Chapter, JapaneseDependency, ParseRyakusyouInfo, Ryakusyou,
    RyakusyouInfo,
};
use std::collections::HashMap;

fn token(start: usize, end: usize, head: Option<(usize, usize)>) -> JapaneseDependency {
    JapaneseDependency {
        start,
        end,
        head_start: head.map(|h| h.0),
        head_end: head.map(|h| h.1),
        text: String::new(),
    }
}

fn place() -> Chapter {
    Chapter {
        article: "2".to_string(),
        paragraph: Some("1".to_string()),
        item: None,
        sub_item: None,
        suppl_provision_title: None,
    }
}

fn pair(ryakusyou: &str, seishiki: &str) -> Ryakusyou {
    Ryakusyou { ryakusyou: ryakusyou.to_string(), seishiki: seishiki.to_string() }
}

#[test]
fn check_paren_counts_both_parens() {
    assert!(check_paren(""));
    assert!(check_paren("甲乙丙"));
    assert!(check_paren("甲（乙）丙"));
    assert!(check_paren("）甲（"));
    assert!(check_paren("（（甲）（乙））"));
    assert!(!check_paren("甲（乙"));
    assert!(!check_paren("甲）"));
    assert!(!check_paren("（（甲）"));
    // Half-width parentheses do not count.
    assert!(check_paren("(甲"));
}

#[test]
fn to_chars_reads_each_character() {
    assert_eq!(to_chars("甲（a）"), vec!['甲', '（', 'a', '）']);
    assert_eq!(to_chars(""), Vec::<char>::new());
}

#[test]
fn slice_chars_goes_by_character_positions() {
    let chars = to_chars("あいうえお");
    assert_eq!(slice_chars(&chars, 1, 3), "いう");
    assert_eq!(slice_chars(&chars, 0, 5), "あいうえお");
    assert_eq!(slice_chars(&chars, 3, 9), "えお");
    assert_eq!(slice_chars(&chars, 3, 3), "");
    assert_eq!(slice_chars(&chars, 4, 2), "");
    assert_eq!(slice_chars(&chars, 7, 9), "");
}

#[test]
fn contains_char_finds_a_character() {
    let chars = to_chars("甲、乙。");
    assert!(contains_char(&chars, '、'));
    assert!(contains_char(&chars, '。'));
    assert!(!contains_char(&chars, '丙'));
    assert!(!contains_char(&Vec::new(), '甲'));
}

#[test]
fn found_match_wants_a_match() {
    assert!(found_match(Some(true)));
    assert!(!found_match(Some(false)));
    assert!(!found_match(None));
}

#[test]
fn definition_shapes_are_recognised() {
    assert!(matches_definition("以下単に「ほげ」という。"));
    assert!(matches_definition("以下「甲」という。以下同じ。"));
    assert!(matches_definition("ふがほげぴよとなっているものをいう。"));
    assert!(matches_definition("乙であるものをいう。以下同じ。"));
    assert!(!matches_definition("テスト"));
    assert!(!matches_definition("テスト（テスト）テスト"));
    assert!(!matches_definition("をいう。"));
    assert!(!matches_definition("「甲」という。"));
    assert!(!matches_definition(""));
}

#[test]
fn classify_reads_the_quoted_alias() {
    assert_eq!(
        classify("以下単に「ほげ」という。"),
        ClauseKind::AliasQuote { alias: "ほげ".to_string() }
    );
    assert_eq!(
        classify("以下「甲」という。以下同じ。"),
        ClauseKind::AliasQuote { alias: "甲".to_string() }
    );
}

#[test]
fn classify_reads_the_formal_term_phrase() {
    assert_eq!(
        classify("ふがほげぴよとなっているものをいう。"),
        ClauseKind::FormalTerm { prefix: "ふがほげぴよとなっているもの".to_string() }
    );
    assert_eq!(
        classify("乙であるものをいう。以下同じ。"),
        ClauseKind::FormalTerm { prefix: "乙であるもの".to_string() }
    );
}

#[test]
fn classify_finds_nothing_in_other_clauses() {
    assert_eq!(classify("テスト"), ClauseKind::NoMatch);
    assert_eq!(classify(""), ClauseKind::NoMatch);
    assert_eq!(classify("をいう。"), ClauseKind::NoMatch);
}

#[test]
fn classify_captures_looks_at_the_alias_first() {
    assert_eq!(
        classify_captures(Some("甲".to_string()), Some("乙".to_string())),
        ClauseKind::AliasQuote { alias: "甲".to_string() }
    );
    assert_eq!(
        classify_captures(Some("甲".to_string()), None),
        ClauseKind::AliasQuote { alias: "甲".to_string() }
    );
    assert_eq!(
        classify_captures(None, Some("乙".to_string())),
        ClauseKind::FormalTerm { prefix: "乙".to_string() }
    );
    assert_eq!(classify_captures(None, None), ClauseKind::NoMatch);
}

#[test]
fn alias_quote_clause_takes_the_span_as_formal_term() {
    assert_eq!(
        assemble_classified(ClauseKind::AliasQuote { alias: "甲".to_string() }, "乙丙".to_string()),
        Some(pair("甲", "乙丙"))
    );
    assert_eq!(assemble("以下単に「ほげ」という。", "テスト".to_string()), Some(pair("ほげ", "テスト")));
}

#[test]
fn formal_term_clause_takes_the_span_as_abbreviation() {
    assert_eq!(
        assemble_classified(ClauseKind::FormalTerm { prefix: "甲".to_string() }, "乙丙".to_string()),
        Some(pair("乙丙", "甲"))
    );
    assert_eq!(
        assemble("乙であるものをいう。", "甲".to_string()),
        Some(pair("甲", "乙であるもの"))
    );
}

#[test]
fn unbalanced_span_makes_no_pair() {
    assert_eq!(
        assemble_classified(ClauseKind::AliasQuote { alias: "甲".to_string() }, "乙（丙".to_string()),
        None
    );
    assert_eq!(
        assemble_classified(ClauseKind::FormalTerm { prefix: "甲".to_string() }, "乙）".to_string()),
        None
    );
    assert_eq!(assemble("以下「甲」という。", "乙（丙".to_string()), None);
    // Balanced parentheses in the span are accepted.
    assert_eq!(
        assemble_classified(ClauseKind::AliasQuote { alias: "甲".to_string() }, "乙（丙）".to_string()),
        Some(pair("甲", "乙（丙）"))
    );
}

#[test]
fn clause_that_defines_nothing_makes_no_pair() {
    assert_eq!(assemble_classified(ClauseKind::NoMatch, "乙".to_string()), None);
    assert_eq!(assemble("テスト", "乙".to_string()), None);
}

#[test]
fn chapter_duplicate_is_equal() {
    let full = Chapter {
        article: "3".to_string(),
        paragraph: Some("2".to_string()),
        item: Some("1".to_string()),
        sub_item: Some("イ".to_string()),
        suppl_provision_title: Some("附則".to_string()),
    };
    assert_eq!(full.duplicate(), full);
    assert_eq!(place().duplicate(), place());
}

#[test]
fn find_ryakusyou_pairs_each_clause_with_its_span() {
    let tokens: HashMap<usize, JapaneseDependency> = vec![
        (0, token(0, 3, Some((3, 6)))),
        (1, token(3, 6, None)),
    ]
    .into_iter()
    .collect();
    let parsed = ParseRyakusyouInfo {
        raw_text: "テスト（以下単に「ほげ」という。）テスト（ふがをいう。）".to_string(),
        remove_paren_text: "テストテスト".to_string(),
        paren: vec![
            (3, "以下単に「ほげ」という。".to_string()),
            (6, "ふがをいう。".to_string()),
        ],
        num: "平成十年法律第一号".to_string(),
        chapter: place(),
    };
    let info = find_ryakusyou(&tokens, &parsed);
    assert_eq!(
        info,
        RyakusyouInfo {
            num: "平成十年法律第一号".to_string(),
            chapter: place(),
            ryakusyou_lst: vec![pair("ほげ", "テスト"), pair("テスト", "ふが")],
        }
    );
    assert!(info.has_pairs());
}

#[test]
fn find_ryakusyou_passes_over_clauses_without_a_pair() {
    let tokens: HashMap<usize, JapaneseDependency> = vec![
        (0, token(0, 3, None)),
        (1, token(3, 6, None)),
    ]
    .into_iter()
    .collect();
    let parsed = ParseRyakusyouInfo {
        raw_text: String::new(),
        remove_paren_text: "甲、乙丙丁戊".to_string(),
        paren: vec![
            // No token reaches offset 9.
            (9, "以下「己」という。".to_string()),
            // Not a definition.
            (3, "庚".to_string()),
            // The superset span holds a comma, so the subset span is used.
            (3, "以下「辛」という。".to_string()),
            (6, "以下「壬」という。".to_string()),
        ],
        num: "1".to_string(),
        chapter: place(),
    };
    let info = find_ryakusyou(&tokens, &parsed);
    assert_eq!(info.num, "1");
    assert_eq!(info.chapter, place());
    assert_eq!(info.ryakusyou_lst, vec![pair("辛", "甲、乙"), pair("壬", "丙丁戊")]);
}

#[test]
fn find_ryakusyou_without_clauses_has_no_pairs() {
    let parsed = ParseRyakusyouInfo {
        raw_text: "甲".to_string(),
        remove_paren_text: "甲".to_string(),
        paren: Vec::new(),
        num: "1".to_string(),
        chapter: place(),
    };
    let info = find_ryakusyou(&HashMap::new(), &parsed);
    assert_eq!(info.ryakusyou_lst, Vec::new());
    assert!(!info.has_pairs());
}

#[test]
fn superset_with_a_full_stop_gives_way_to_a_shorter_subset() {
    let tokens: HashMap<usize, JapaneseDependency> = vec![
        (0, token(0, 2, None)),
        (1, token(2, 5, None)),
    ]
    .into_iter()
    .collect();
    let parsed = ParseRyakusyouInfo {
        raw_text: "甲。乙丙丁（以下「戊」という。）".to_string(),
        remove_paren_text: "甲。乙丙丁".to_string(),
        paren: vec![(5, "以下「戊」という。".to_string())],
        num: "1".to_string(),
        chapter: place(),
    };
    let info = find_ryakusyou(&tokens, &parsed);
    assert_eq!(info.ryakusyou_lst, vec![pair("戊", "乙丙丁")]);
}
