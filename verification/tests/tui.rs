use comment_indexer::engine::Comment;
use comment_indexer::search::SearchMode;
use comment_indexer::tui::Key;
use comment_indexer::tui::TuiState;

fn corpus() -> Vec<Comment<'static>> {
    vec![
        Comment { line: 1, text: "// alpha beta", file_name: "a.java" },
        Comment { line: 2, text: "// alpha", file_name: "b.java" },
        Comment { line: 3, text: "// beta", file_name: "c.java" },
        Comment { line: 4, text: "// alphabet", file_name: "d.java" },
    ]
}

fn type_text<'a>(state: &mut TuiState<'a>, text: &str, comments: &'a [Comment<'a>]) {
    for c in text.chars() {
        state.handle_key(Key::Char(c), comments, SearchMode::Or);
    }
}

fn result_lines(state: &TuiState<'_>) -> Vec<usize> {
    (0..state.result_count()).filter_map(|i| state.result(i)).map(|c| c.line).collect()
}

#[test]
fn session_begins_empty() {
    let state = TuiState::new();
    assert_eq!(state.query(), "");
    assert_eq!(state.result_count(), 0);
    assert_eq!(state.selected(), 0);
    assert!(!state.should_quit());
}

#[test]
fn typing_appends_and_searches() {
    let comments = corpus();
    let mut state = TuiState::new();
    type_text(&mut state, "alpha", &comments);
    assert_eq!(state.query(), "alpha");
    assert_eq!(result_lines(&state), vec![1, 2, 4]);
    type_text(&mut state, "b", &comments);
    assert_eq!(state.query(), "alphab");
    assert_eq!(result_lines(&state), vec![4]);
}

#[test]
fn backspace_removes_the_last_scalar_value_and_searches() {
    let comments = corpus();
    let mut state = TuiState::new();
    type_text(&mut state, "alphab\u{e9}", &comments);
    assert_eq!(state.result_count(), 0);
    state.handle_key(Key::Backspace, &comments, SearchMode::Or);
    assert_eq!(state.query(), "alphab");
    assert_eq!(result_lines(&state), vec![4]);
    state.handle_key(Key::Backspace, &comments, SearchMode::Or);
    assert_eq!(state.query(), "alpha");
    assert_eq!(result_lines(&state), vec![1, 2, 4]);
}

#[test]
fn backspace_on_an_empty_query_changes_nothing() {
    let comments = corpus();
    let mut state = TuiState::new();
    state.handle_key(Key::Backspace, &comments, SearchMode::Or);
    assert_eq!(state.query(), "");
    assert_eq!(state.result_count(), 0);
    assert_eq!(state.selected(), 0);
}

#[test]
fn selection_moves_within_the_results() {
    let comments = corpus();
    let mut state = TuiState::new();
    type_text(&mut state, "alpha", &comments);
    assert_eq!(state.selected(), 0);
    state.handle_key(Key::Up, &comments, SearchMode::Or);
    assert_eq!(state.selected(), 0);
    state.handle_key(Key::Down, &comments, SearchMode::Or);
    assert_eq!(state.selected(), 1);
    state.handle_key(Key::Down, &comments, SearchMode::Or);
    assert_eq!(state.selected(), 2);
    state.handle_key(Key::Down, &comments, SearchMode::Or);
    assert_eq!(state.selected(), 2);
    state.handle_key(Key::Up, &comments, SearchMode::Or);
    assert_eq!(state.selected(), 1);
    assert_eq!(state.query(), "alpha");
    assert_eq!(result_lines(&state), vec![1, 2, 4]);
}

#[test]
fn selection_stays_at_zero_without_results() {
    let comments = corpus();
    let mut state = TuiState::new();
    state.handle_key(Key::Down, &comments, SearchMode::Or);
    assert_eq!(state.selected(), 0);
    state.handle_key(Key::Up, &comments, SearchMode::Or);
    assert_eq!(state.selected(), 0);
    type_text(&mut state, "zzz", &comments);
    state.handle_key(Key::Down, &comments, SearchMode::Or);
    assert_eq!(state.selected(), 0);
}

#[test]
fn selection_is_kept_within_fewer_results() {
    let comments = corpus();
    let mut state = TuiState::new();
    type_text(&mut state, "alpha", &comments);
    state.handle_key(Key::Down, &comments, SearchMode::Or);
    state.handle_key(Key::Down, &comments, SearchMode::Or);
    assert_eq!(state.selected(), 2);
    type_text(&mut state, "b", &comments);
    assert_eq!(state.result_count(), 1);
    assert_eq!(state.selected(), 0);
    type_text(&mut state, "x", &comments);
    assert_eq!(state.result_count(), 0);
    assert_eq!(state.selected(), 0);
}

#[test]
fn selection_is_kept_where_it_still_fits() {
    let comments = corpus();
    let mut state = TuiState::new();
    type_text(&mut state, "alph", &comments);
    state.handle_key(Key::Down, &comments, SearchMode::Or);
    assert_eq!(state.selected(), 1);
    type_text(&mut state, "a", &comments);
    assert_eq!(state.result_count(), 3);
    assert_eq!(state.selected(), 1);
}

#[test]
fn result_beyond_the_last_is_none() {
    let comments = corpus();
    let mut state = TuiState::new();
    assert!(state.result(0).is_none());
    type_text(&mut state, "beta", &comments);
    assert_eq!(state.result(0).map(|c| c.line), Some(3));
    assert_eq!(state.result(1).map(|c| c.line), Some(1));
    assert!(state.result(2).is_none());
}

#[test]
fn quit_key_asks_for_the_end() {
    let comments = corpus();
    let mut state = TuiState::new();
    type_text(&mut state, "beta", &comments);
    state.handle_key(Key::Down, &comments, SearchMode::Or);
    state.handle_key(Key::Quit, &comments, SearchMode::Or);
    assert!(state.should_quit());
    assert_eq!(state.query(), "beta");
    assert_eq!(result_lines(&state), vec![3, 1]);
    assert_eq!(state.selected(), 1);
}

#[test]
fn other_keys_change_nothing() {
    let comments = corpus();
    let mut state = TuiState::new();
    type_text(&mut state, "beta", &comments);
    state.handle_key(Key::Down, &comments, SearchMode::Or);
    state.handle_key(Key::Other, &comments, SearchMode::Or);
    assert!(!state.should_quit());
    assert_eq!(state.query(), "beta");
    assert_eq!(result_lines(&state), vec![3, 1]);
    assert_eq!(state.selected(), 1);
}

#[test]
fn search_mode_is_that_of_the_key() {
    let comments = corpus();
    let mut state = TuiState::new();
    for c in "alpha beta".chars() {
        state.handle_key(Key::Char(c), &comments, SearchMode::And);
    }
    assert_eq!(result_lines(&state), vec![1]);
    state.handle_key(Key::Char(' '), &comments, SearchMode::Or);
    assert_eq!(state.query(), "alpha beta ");
    assert_eq!(state.result_count(), 4);
}
