use analysis_ryakusyou::dependency::{
    ascending_ids, dependency_closure, find_anchor, points_at, resolve, select_span,
    subset_start, superset_start, token_ids,
};
use analysis_ryakusyou::JapaneseDependency;
use std::collections::HashMap;

fn token(start: usize, end: usize, head: Option<(usize, usize)>) -> JapaneseDependency {
    JapaneseDependency {
        start,
        end,
        head_start: head.map(|h| h.0),
        head_end: head.map(|h| h.1),
        text: String::new(),
    }
}

fn sentence(tokens: Vec<(usize, JapaneseDependency)>) -> HashMap<usize, JapaneseDependency> {
    tokens.into_iter().collect()
}

#[test]
fn token_ids_lists_every_key_once() {
    let tokens = sentence(vec![(4, token(0, 1, None)), (9, token(1, 2, None)), (2, token(2, 3, None))]);
    let mut ids = token_ids(&tokens);
    ids.sort();
    assert_eq!(ids, vec![2, 4, 9]);
    assert_eq!(token_ids(&HashMap::new()), Vec::<usize>::new());
}

#[test]
fn ascending_ids_sorts_and_drops_repeats() {
    assert_eq!(ascending_ids(&vec![5, 1, 3, 1, 5, 2]), vec![1, 2, 3, 5]);
    assert_eq!(ascending_ids(&vec![]), Vec::<usize>::new());
}

#[test]
fn anchor_starts_before_and_reaches_the_offset() {
    let tokens = sentence(vec![
        (0, token(0, 2, None)),
        (1, token(2, 4, None)),
        (2, token(4, 6, None)),
    ]);
    assert_eq!(find_anchor(&tokens, 4), Some(1));
    assert_eq!(find_anchor(&tokens, 3), Some(1));
    assert_eq!(find_anchor(&tokens, 6), Some(2));
    // No token starts before offset 0, and none reaches offset 7.
    assert_eq!(find_anchor(&tokens, 0), None);
    assert_eq!(find_anchor(&tokens, 7), None);
}

#[test]
fn anchor_with_least_id_wins() {
    let tokens = sentence(vec![
        (7, token(0, 5, None)),
        (3, token(1, 4, None)),
        (5, token(2, 9, None)),
    ]);
    assert_eq!(find_anchor(&tokens, 3), Some(3));
    assert_eq!(find_anchor(&tokens, 5), Some(5));
}

#[test]
fn points_at_wants_both_ends_of_the_head() {
    assert!(points_at(&token(0, 1, Some((3, 6))), 3));
    assert!(points_at(&token(0, 1, Some((3, 6))), 5));
    assert!(!points_at(&token(0, 1, Some((3, 6))), 6));
    assert!(!points_at(&token(0, 1, Some((3, 6))), 2));
    assert!(!points_at(&token(0, 1, None), 0));
    let half = JapaneseDependency {
        start: 0,
        end: 1,
        head_start: Some(0),
        head_end: None,
        text: String::new(),
    };
    assert!(!points_at(&half, 0));
}

#[test]
fn closure_of_an_anchor_nobody_points_at() {
    let tokens = sentence(vec![
        (4, token(7, 9, Some((9, 12)))),
        (5, token(9, 12, None)),
        (6, token(12, 14, Some((9, 12)))),
    ]);
    assert_eq!(dependency_closure(&tokens, 5), vec![5]);
    assert_eq!(subset_start(&tokens, 5), Some(9));
}

#[test]
fn closure_follows_chains_of_dependents() {
    let tokens = sentence(vec![
        (1, token(10, 12, Some((3, 4)))),
        (2, token(12, 14, Some((7, 9)))),
        (3, token(14, 16, Some((5, 6)))),
        (5, token(16, 20, None)),
        (6, token(20, 22, Some((1, 2)))),
    ]);
    assert_eq!(dependency_closure(&tokens, 5), vec![1, 3, 5, 6]);
    assert_eq!(subset_start(&tokens, 5), Some(10));
    assert_eq!(dependency_closure(&tokens, 2), vec![2]);
}

#[test]
fn closure_ends_on_a_cycle() {
    let tokens = sentence(vec![
        (0, token(0, 1, Some((1, 2)))),
        (1, token(1, 2, Some((0, 1)))),
    ]);
    assert_eq!(dependency_closure(&tokens, 0), vec![0, 1]);
    assert_eq!(dependency_closure(&tokens, 1), vec![0, 1]);
}

#[test]
fn subset_start_needs_a_token() {
    let tokens = sentence(vec![(0, token(0, 1, None))]);
    assert_eq!(subset_start(&tokens, 3), None);
    assert_eq!(dependency_closure(&tokens, 3), vec![3]);
}

#[test]
fn superset_starts_at_the_end_of_the_last_crossing_token() {
    let tokens = sentence(vec![
        (0, token(0, 2, Some((8, 9)))),
        (1, token(2, 4, Some((4, 5)))),
        (2, token(4, 6, Some((3, 4)))),
        (3, token(6, 8, None)),
        (4, token(8, 9, Some((9, 10)))),
    ]);
    // Before token 3, the tokens 0 and 1 have a head that starts behind 3;
    // the head of token 2 starts at 3, which is not behind it.
    assert_eq!(superset_start(&tokens, 3), 4);
    // Nothing stands before token 0.
    assert_eq!(superset_start(&tokens, 0), 0);
    // Before token 1 only token 0 crosses.
    assert_eq!(superset_start(&tokens, 1), 2);
}

#[test]
fn resolve_gives_superset_then_subset() {
    let tokens = sentence(vec![
        (0, token(0, 2, Some((9, 10)))),
        (1, token(2, 4, Some((3, 4)))),
        (2, token(4, 6, Some((3, 4)))),
        (3, token(6, 8, None)),
    ]);
    // Anchor for offset 8 is token 3; the tokens 1 and 2 depend on it.
    let (superset, subset) = resolve(&tokens, "あいうえおかきくけこ", 8).unwrap();
    assert_eq!(superset, "うえおかきく");
    assert_eq!(subset, "うえおかきく");
    let (superset, subset) = resolve(&tokens, "あいうえおかきくけこ", 7).unwrap();
    assert_eq!(superset, "うえおかき");
    assert_eq!(subset, "うえおかき");
}

#[test]
fn resolve_spans_may_differ() {
    let tokens = sentence(vec![
        (0, token(0, 2, Some((5, 6)))),
        (1, token(2, 4, Some((2, 3)))),
        (2, token(4, 6, None)),
    ]);
    // Anchor is token 2; token 1 depends on it, token 0 crosses it.
    let (superset, subset) = resolve(&tokens, "abcdefgh", 6).unwrap();
    assert_eq!(superset, "cdef");
    assert_eq!(subset, "cdef");
    let tokens = sentence(vec![
        (0, token(0, 2, Some((1, 2)))),
        (1, token(2, 4, None)),
    ]);
    // Anchor is token 1; token 0 depends on it and nothing crosses it.
    let (superset, subset) = resolve(&tokens, "abcdefgh", 4).unwrap();
    assert_eq!(superset, "abcd");
    assert_eq!(subset, "abcd");
    let tokens = sentence(vec![
        (0, token(0, 2, None)),
        (1, token(2, 4, None)),
    ]);
    // Nobody depends on the anchor: the subset span is the anchor alone.
    let (superset, subset) = resolve(&tokens, "abcdefgh", 4).unwrap();
    assert_eq!(superset, "abcd");
    assert_eq!(subset, "cd");
}

#[test]
fn resolve_without_anchor_gives_nothing() {
    let tokens = sentence(vec![(0, token(0, 2, None))]);
    assert_eq!(resolve(&tokens, "abcdef", 5), None);
    assert_eq!(resolve(&HashMap::new(), "abcdef", 1), None);
}

#[test]
fn resolve_stops_at_the_end_of_the_text() {
    let tokens = sentence(vec![(0, token(1, 50, None))]);
    let (superset, subset) = resolve(&tokens, "abcdef", 40).unwrap();
    assert_eq!(superset, "abcdef");
    assert_eq!(subset, "bcdef");
}

#[test]
fn resolve_gives_an_empty_span_where_the_start_lies_behind_the_offset() {
    // Token 0 depends on the anchor but starts far to the right.
    let tokens = sentence(vec![
        (0, token(5, 6, Some((1, 2)))),
        (1, token(0, 3, None)),
    ]);
    let (superset, subset) = resolve(&tokens, "abcdef", 2).unwrap();
    assert_eq!(superset, "ab");
    assert_eq!(subset, "");
}

#[test]
fn unbroken_superset_is_chosen() {
    assert_eq!(select_span("甲及び乙".to_string(), "乙".to_string()), "甲及び乙");
    assert_eq!(select_span(String::new(), "乙".to_string()), "");
}

#[test]
fn superset_with_full_stop_falls_back_to_subset() {
    assert_eq!(select_span("甲とする。乙".to_string(), "乙".to_string()), "乙");
    assert_eq!(select_span("甲。".to_string(), String::new()), "");
}

#[test]
fn superset_with_comma_falls_back_to_subset() {
    assert_eq!(select_span("甲、乙".to_string(), "乙".to_string()), "乙");
}
