use comment_indexer::engine::Comment;
use comment_indexer::query::separates_terms;
use comment_indexer::query::split_query;
use comment_indexer::rank::rank;
use comment_indexer::search::calculate_score;
use comment_indexer::search::is_found_in;
use comment_indexer::search::match_needles;
use comment_indexer::search::score;
use comment_indexer::search::score_term;
use comment_indexer::search::search;
use comment_indexer::search::SearchMode;
use comment_indexer::search::FILE_NAME_WEIGHT;
use comment_indexer::search::MAXIMUM_SCORE_VALUE;
use comment_indexer::search::TEXT_WEIGHT;

fn corpus() -> Vec<Comment<'static>> {
    vec![
        Comment { line: 1, text: "// parse the token stream", file_name: "Parser.java" },
        Comment { line: 7, text: "// TODO: handle errors", file_name: "Parser.java" },
        Comment { line: 3, text: "# read the next token", file_name: "lexer.py" },
        Comment { line: 9, text: "/* nothing to see ", file_name: "token_table.js" },
        Comment { line: 2, text: "// unrelated", file_name: "main.ts" },
    ]
}

fn lines(results: &[&Comment<'_>]) -> Vec<usize> {
    results.iter().map(|c| c.line).collect()
}

#[test]
fn empty_query_finds_nothing() {
    let comments = corpus();
    assert_eq!(search(&comments, "", SearchMode::And).len(), 0);
    assert_eq!(search(&comments, "", SearchMode::Or).len(), 0);
}

#[test]
fn blank_query_finds_nothing() {
    let comments = corpus();
    assert_eq!(search(&comments, "  \t \n", SearchMode::And).len(), 0);
    assert_eq!(search(&comments, "  \t \n", SearchMode::Or).len(), 0);
    assert_eq!(search(&comments, "\u{a0}\u{3000}", SearchMode::Or).len(), 0);
}

#[test]
fn empty_corpus_finds_nothing() {
    let comments: Vec<Comment<'static>> = Vec::new();
    assert_eq!(search(&comments, "token", SearchMode::Or).len(), 0);
}

#[test]
fn file_name_match_sorts_before_text_match() {
    let comments = vec![
        Comment { line: 1, text: "token in the text", file_name: "other.java" },
        Comment { line: 2, text: "nothing here", file_name: "token.java" },
    ];
    let results = search(&comments, "token", SearchMode::Or);
    assert_eq!(lines(&results), vec![2, 1]);
}

#[test]
fn results_come_by_descending_score() {
    let comments = corpus();
    let results = search(&comments, "token", SearchMode::Or);
    assert_eq!(lines(&results), vec![9, 1, 3]);
}

#[test]
fn earlier_match_sorts_first() {
    let comments = vec![
        Comment { line: 1, text: "// far away: token", file_name: "a.java" },
        Comment { line: 2, text: "// token", file_name: "a.java" },
        Comment { line: 3, text: "token", file_name: "a.java" },
    ];
    let results = search(&comments, "token", SearchMode::Or);
    assert_eq!(lines(&results), vec![3, 2, 1]);
}

#[test]
fn equal_scores_keep_the_order_of_the_corpus() {
    let comments = vec![
        Comment { line: 5, text: "// same", file_name: "z.java" },
        Comment { line: 4, text: "// same", file_name: "a.java" },
        Comment { line: 6, text: "// other", file_name: "a.java" },
        Comment { line: 3, text: "// same", file_name: "m.java" },
    ];
    let results = search(&comments, "same", SearchMode::Or);
    assert_eq!(lines(&results), vec![5, 4, 3]);
}

#[test]
fn all_terms_must_match_under_and() {
    let comments = corpus();
    let results = search(&comments, "token parse", SearchMode::And);
    assert_eq!(lines(&results), vec![1]);
}

#[test]
fn any_term_may_match_under_or() {
    let comments = corpus();
    let results = search(&comments, "token todo", SearchMode::Or);
    assert_eq!(lines(&results), vec![9, 7, 1, 3]);
}

#[test]
fn term_may_match_in_the_file_name() {
    let comments = corpus();
    let results = search(&comments, "lexer next", SearchMode::And);
    assert_eq!(lines(&results), vec![3]);
}

#[test]
fn and_results_are_among_or_results() {
    let comments = corpus();
    let queries = ["token", "token parse", "the", "parser todo", "x y z", "java token", "e"];
    for query in queries.iter() {
        let all = search(&comments, query, SearchMode::And);
        let any = search(&comments, query, SearchMode::Or);
        for found in all.iter() {
            assert!(any.iter().any(|other| std::ptr::eq(*other, *found)));
        }
    }
}

#[test]
fn matching_ignores_case() {
    let comments = vec![
        Comment { line: 1, text: "// HELLO World", file_name: "Greeter.java" },
        Comment { line: 2, text: "// bye", file_name: "Other.java" },
    ];
    assert_eq!(lines(&search(&comments, "hello", SearchMode::Or)), vec![1]);
    assert_eq!(lines(&search(&comments, "HeLLo", SearchMode::Or)), vec![1]);
    assert_eq!(lines(&search(&comments, "greeter", SearchMode::And)), vec![1]);
    assert_eq!(lines(&search(&comments, "GREETER WORLD", SearchMode::And)), vec![1]);
    assert_eq!(lines(&search(&comments, "\u{c9}T\u{c9}", SearchMode::Or)), Vec::<usize>::new());
}

#[test]
fn matching_ignores_case_beyond_ascii() {
    let comments = vec![Comment { line: 1, text: "// \u{c9}T\u{c9} \u{39b}\u{391}", file_name: "a.java" }];
    assert_eq!(lines(&search(&comments, "\u{e9}t\u{e9}", SearchMode::Or)), vec![1]);
    assert_eq!(lines(&search(&comments, "\u{3bb}\u{3b1}", SearchMode::Or)), vec![1]);
}

#[test]
fn terms_are_scored_as_typed() {
    let comments = vec![
        Comment { line: 1, text: "// alpha", file_name: "a.java" },
        Comment { line: 2, text: "// zzzzzzzzzz alpha", file_name: "a.java" },
    ];
    assert_eq!(lines(&search(&comments, "alpha", SearchMode::Or)), vec![1, 2]);
    assert_eq!(lines(&search(&comments, "ALPHA", SearchMode::Or)), vec![1, 2]);
    let comment = comments[0];
    assert_eq!(calculate_score(&comment, &["alpha"]), MAXIMUM_SCORE_VALUE - 997);
    assert_eq!(calculate_score(&comment, &["ALPHA"]), MAXIMUM_SCORE_VALUE);
}

#[test]
fn results_are_the_comments_of_the_corpus() {
    let comments = corpus();
    let results = search(&comments, "token", SearchMode::Or);
    assert!(std::ptr::eq(results[0], &comments[3]));
    assert!(std::ptr::eq(results[1], &comments[0]));
    assert!(std::ptr::eq(results[2], &comments[2]));
}

#[test]
fn score_of_a_text_match() {
    assert_eq!(score_term("// token here", "a.java", "token"), 997);
    assert_eq!(score_term("token", "a.java", "token"), 1000);
}

#[test]
fn score_of_a_file_name_match() {
    assert_eq!(score_term("// token here", "token.java", "token"), 2000);
    assert_eq!(score_term("// nothing", "my_token.java", "token"), 1997);
}

#[test]
fn file_name_match_hides_the_text_match() {
    assert_eq!(score_term("token", "the_token.java", "token"), 1996);
}

#[test]
fn score_of_no_match() {
    assert_eq!(score_term("// nothing", "a.java", "token"), 0);
}

#[test]
fn only_the_first_occurrence_counts() {
    assert_eq!(score_term("ab token token token", "a.java", "token"), 997);
}

#[test]
fn score_decays_to_nothing() {
    let far = format!("{}token", " ".repeat(999));
    assert_eq!(score_term(&far, "a.java", "token"), 1);
    let too_far = format!("{}token", " ".repeat(1000));
    assert_eq!(score_term(&too_far, "a.java", "token"), 0);
    let farther = format!("{}token", " ".repeat(5000));
    assert_eq!(score_term(&farther, "a.java", "token"), 0);
    let name = format!("{}token", "x".repeat(1999));
    assert_eq!(score_term("", &name, "token"), 1);
    let long_name = format!("{}token", "x".repeat(2000));
    assert_eq!(score_term("token", &long_name, "token"), 0);
}

#[test]
fn score_positions_are_bytes() {
    assert_eq!(score_term("\u{e9}\u{20ac} token", "a.java", "token"), 1000 - 6);
}

#[test]
fn weights_are_two_thousand_and_one_thousand() {
    assert_eq!(FILE_NAME_WEIGHT, 2000);
    assert_eq!(TEXT_WEIGHT, 1000);
    assert_eq!(MAXIMUM_SCORE_VALUE, u128::MAX);
}

#[test]
fn sort_key_is_the_maximum_less_the_sum() {
    assert_eq!(score("// token stream", "parser.java", &["token"]), MAXIMUM_SCORE_VALUE - 997);
    assert_eq!(
        score("// token stream", "parser.java", &["token", "parser", "stream"]),
        MAXIMUM_SCORE_VALUE - (997 + 2000 + 991)
    );
    assert_eq!(score("// token stream", "parser.java", &["absent"]), MAXIMUM_SCORE_VALUE);
    assert_eq!(score("// token stream", "parser.java", &[]), MAXIMUM_SCORE_VALUE);
}

#[test]
fn repeated_term_counts_twice() {
    assert_eq!(score("token", "a.java", &["token", "token"]), MAXIMUM_SCORE_VALUE - 2000);
}

#[test]
fn score_of_a_comment_uses_its_lowercase_forms() {
    let comment = Comment { line: 1, text: "// Token Stream", file_name: "PARSER.java" };
    assert_eq!(calculate_score(&comment, &["token"]), MAXIMUM_SCORE_VALUE - 997);
    assert_eq!(calculate_score(&comment, &["parser"]), MAXIMUM_SCORE_VALUE - 2000);
    assert_eq!(calculate_score(&comment, &["token", "parser"]), MAXIMUM_SCORE_VALUE - 2997);
}

#[test]
fn needle_is_found_in_text_or_file_name() {
    assert!(is_found_in("// token", "a.java", "token"));
    assert!(is_found_in("// nothing", "token.java", "token"));
    assert!(is_found_in("// token", "token.java", "token"));
    assert!(!is_found_in("// nothing", "a.java", "token"));
    assert!(!is_found_in("// toke n", "a.java", "token"));
    assert!(is_found_in("", "", ""));
}

#[test]
fn needles_combine_by_mode() {
    let both = vec!["token".to_string(), "stream".to_string()];
    let one = vec!["token".to_string(), "absent".to_string()];
    let none = vec!["absent".to_string(), "missing".to_string()];
    let empty: Vec<String> = Vec::new();
    assert!(match_needles("// token stream", "a.java", &both, SearchMode::And));
    assert!(match_needles("// token stream", "a.java", &both, SearchMode::Or));
    assert!(!match_needles("// token stream", "a.java", &one, SearchMode::And));
    assert!(match_needles("// token stream", "a.java", &one, SearchMode::Or));
    assert!(!match_needles("// token stream", "a.java", &none, SearchMode::And));
    assert!(!match_needles("// token stream", "a.java", &none, SearchMode::Or));
    assert!(match_needles("// token stream", "a.java", &empty, SearchMode::And));
    assert!(!match_needles("// token stream", "a.java", &empty, SearchMode::Or));
}

#[test]
fn query_splits_at_whitespace() {
    assert_eq!(split_query("token parse"), vec!["token", "parse"]);
    assert_eq!(split_query("  token \t parse\n"), vec!["token", "parse"]);
    assert_eq!(split_query("one"), vec!["one"]);
    assert_eq!(split_query("a b a"), vec!["a", "b", "a"]);
    assert_eq!(split_query(""), Vec::<&str>::new());
    assert_eq!(split_query(" \t\r\n"), Vec::<&str>::new());
}

#[test]
fn query_splits_at_wide_whitespace() {
    assert_eq!(split_query("caf\u{e9}\u{3000}\u{4e16}\u{754c}\u{a0}x"), vec!["caf\u{e9}", "\u{4e16}\u{754c}", "x"]);
    assert_eq!(split_query("\u{2003}a\u{2028}b\u{85}"), vec!["a", "b"]);
    assert_eq!(split_query("a\u{200b}b"), vec!["a\u{200b}b"]);
}

#[test]
fn query_splits_as_split_whitespace_does() {
    let samples = [
        "", " ", "a", " a", "a ", "a b", "a  b", "\ta\nb\rc\u{b}d\u{c}e", "x\u{1680}y\u{202f}z\u{205f}w",
        "\u{1f600} \u{e9}\u{20ac}  \u{4e2d}", "a\u{180e}b", "a\u{feff}b", "\u{2000}\u{200a}",
    ];
    for sample in samples.iter() {
        let expected: Vec<&str> = sample.split_whitespace().collect();
        assert_eq!(split_query(sample), expected);
    }
}

#[test]
fn term_separators_are_the_whitespace_scalar_values() {
    for scalar in 0..=0x10ffffu32 {
        if let Some(c) = char::from_u32(scalar) {
            assert_eq!(separates_terms(c), c.is_whitespace());
        }
    }
}

#[test]
fn rank_orders_by_key_then_by_index() {
    assert_eq!(rank(&[Some(5), Some(3), None, Some(5), Some(1)]), vec![4, 1, 0, 3]);
    assert_eq!(rank(&[Some(2), Some(2), Some(2)]), vec![0, 1, 2]);
    assert_eq!(rank(&[Some(3), Some(2), Some(1)]), vec![2, 1, 0]);
    assert_eq!(rank(&[None, None]), Vec::<usize>::new());
    assert_eq!(rank(&[]), Vec::<usize>::new());
    assert_eq!(rank(&[None, Some(u128::MAX), Some(0)]), vec![2, 1]);
}

#[test]
fn rank_agrees_with_a_stable_sort() {
    let mut state: u64 = 12345;
    for round in 0..50 {
        let mut scores: Vec<Option<u128>> = Vec::new();
        for _ in 0..(round * 7 % 200) {
            state = state.wrapping_mul(6364136223846793005).wrapping_add(1442695040888963407);
            let value = (state >> 33) % 11;
            if value == 10 {
                scores.push(None);
            } else {
                scores.push(Some(value as u128));
            }
        }
        let mut expected: Vec<usize> = (0..scores.len()).filter(|i| scores[*i].is_some()).collect();
        expected.sort_by_key(|i| scores[*i]);
        assert_eq!(rank(&scores), expected);
    }
}
