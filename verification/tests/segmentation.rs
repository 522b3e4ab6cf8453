use analysis_ryakusyou::paren::{split_top_level, text_info};
use analysis_ryakusyou::{remove_paren, TextInfo};

#[test]
fn check_remove_paren_1() {
    let s1 = "テスト（以下単に「ほげ」という。）テスト";
    let v = vec![TextInfo {
        raw_text: s1.to_string(),
        remove_paren_text: "テストテスト".to_string(),
        paren: vec![(3, "以下単に「ほげ」という。".to_string())],
    }];
    assert_eq!(v, remove_paren(s1))
}

#[test]
fn check_remove_paren_2() {
    let s1 = "テスト（以下単に「ほげ」という。（ふがほげぴよとなっているものをいう。）テスト）テスト";
    let v = vec![
        TextInfo {
            raw_text: "以下単に「ほげ」という。（ふがほげぴよとなっているものをいう。）テスト"
                .to_string(),
            remove_paren_text: "以下単に「ほげ」という。テスト".to_string(),
            paren: vec![(12, "ふがほげぴよとなっているものをいう。".to_string())],
        },
        TextInfo {
            raw_text: s1.to_string(),
            remove_paren_text: "テストテスト".to_string(),
            paren: vec![(
                3,
                "以下単に「ほげ」という。（ふがほげぴよとなっているものをいう。）テスト".to_string(),
            )],
        },
    ];
    assert_eq!(v, remove_paren(s1))
}

#[test]
fn check_remove_paren_3() {
    let s1 = "テスト（テスト（テスト）テスト）テスト";
    assert_eq!(remove_paren(s1), Vec::new())
}

#[test]
fn text_without_parens_gives_nothing() {
    assert_eq!(remove_paren("これは括弧のない文である。"), Vec::new());
    assert_eq!(remove_paren(""), Vec::new());
    // Even a text that reads like a definition yields nothing outside parentheses.
    assert_eq!(remove_paren("以下単に「ほげ」という。"), Vec::new());
}

#[test]
fn split_keeps_depth_zero_text_and_offsets() {
    let (kept, clauses) = split_top_level("ab（c）d（e（f）g）hi");
    assert_eq!(kept, "abdhi");
    assert_eq!(clauses, vec![(2, "c".to_string()), (3, "e（f）g".to_string())]);
}

#[test]
fn split_adjacent_clauses_share_an_offset() {
    let (kept, clauses) = split_top_level("a（x）（y）b");
    assert_eq!(kept, "ab");
    assert_eq!(clauses, vec![(1, "x".to_string()), (1, "y".to_string())]);
}

#[test]
fn split_drops_what_follows_an_unclosed_paren() {
    let (kept, clauses) = split_top_level("ab（cd");
    assert_eq!(kept, "ab");
    assert_eq!(clauses, Vec::new());
}

#[test]
fn split_buffers_after_a_stray_closing_paren() {
    let (kept, clauses) = split_top_level("a）b（c（X）d");
    assert_eq!(kept, "acd");
    assert_eq!(clauses, vec![(2, "）b（X".to_string())]);
}

#[test]
fn text_info_selects_by_flag() {
    let text = "a（x）b（y）c";
    let both = text_info(text, &vec![true, true]).unwrap();
    assert_eq!(both.raw_text, text);
    assert_eq!(both.remove_paren_text, "abc");
    assert_eq!(both.paren, vec![(1, "x".to_string()), (2, "y".to_string())]);
    let second = text_info(text, &vec![false, true]).unwrap();
    assert_eq!(second.paren, vec![(2, "y".to_string())]);
    assert_eq!(text_info(text, &vec![false, false]), None);
    // A clause without a flag is dropped.
    let first = text_info(text, &vec![true]).unwrap();
    assert_eq!(first.paren, vec![(1, "x".to_string())]);
    assert_eq!(text_info("abc", &vec![true]), None);
}

#[test]
fn non_definitional_clause_is_removed_but_not_recorded() {
    let found = remove_paren("甲（乙）丙（以下「丁」という。）戊");
    assert_eq!(
        found,
        vec![TextInfo {
            raw_text: "甲（乙）丙（以下「丁」という。）戊".to_string(),
            remove_paren_text: "甲丙戊".to_string(),
            paren: vec![(2, "以下「丁」という。".to_string())],
        }]
    );
}

#[test]
fn nested_results_come_before_the_enclosing_one() {
    let inner = "以下「甲」という。（乙であるものをいう。）";
    let outer = format!("丙（{}）丁", inner);
    let found = remove_paren(&outer);
    assert_eq!(found.len(), 2);
    assert_eq!(found[0].raw_text, inner);
    assert_eq!(found[1].raw_text, outer);
    assert_eq!(remove_paren(inner), vec![found[0].clone()]);
}

#[test]
fn reinserting_the_clauses_rebuilds_the_text() {
    let text = "甲（以下「乙」という。）丙（丁をいう。）（以下「戊」という。）己";
    let found = remove_paren(text);
    let own = found.last().unwrap();
    assert_eq!(own.paren.len(), 3);
    let mut chars: Vec<char> = own.remove_paren_text.chars().collect();
    for (offset, clause) in own.paren.iter().rev() {
        let mut piece: Vec<char> = vec!['（'];
        piece.extend(clause.chars());
        piece.push('）');
        let tail = chars.split_off(*offset);
        chars.extend(piece);
        chars.extend(tail);
    }
    let rebuilt: String = chars.into_iter().collect();
    assert_eq!(rebuilt, own.raw_text);
}

#[test]
fn paren_pair_wrapping_a_paren_pair_gives_nothing() {
    assert_eq!(remove_paren("（（テスト））"), Vec::new());
    assert_eq!(remove_paren("甲（（乙））丙"), Vec::new());
}

#[test]
fn unclosed_definition_is_lost() {
    assert_eq!(remove_paren("甲（以下「乙」という。"), Vec::new());
    let found = remove_paren("甲（以下「乙」という。）丙（丁");
    assert_eq!(
        found,
        vec![TextInfo {
            raw_text: "甲（以下「乙」という。）丙（丁".to_string(),
            remove_paren_text: "甲丙".to_string(),
            paren: vec![(1, "以下「乙」という。".to_string())],
        }]
    );
}

#[test]
fn clause_that_holds_a_definition_counts_as_one() {
    // The pattern is searched for anywhere in a clause, so a clause that
    // holds a definitional parenthetical is itself kept.
    let found = remove_paren("甲（乙（以下「丙」という。）丁）戊");
    assert_eq!(
        found,
        vec![
            TextInfo {
                raw_text: "乙（以下「丙」という。）丁".to_string(),
                remove_paren_text: "乙丁".to_string(),
                paren: vec![(1, "以下「丙」という。".to_string())],
            },
            TextInfo {
                raw_text: "甲（乙（以下「丙」という。）丁）戊".to_string(),
                remove_paren_text: "甲戊".to_string(),
                paren: vec![(1, "乙（以下「丙」という。）丁".to_string())],
            },
        ]
    );
}
