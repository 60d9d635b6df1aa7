//! The state of an interactive session, and how a key changes it.

use crate::engine::comment_views;
use crate::engine::Comment;
use crate::engine::CommentView;
use crate::search::search;
use crate::search::search_order;
use crate::search::SearchMode;
use vstd::prelude::*;

verus! {

/// The keys that a session tells apart.
#[derive(Clone, Copy, Debug, PartialEq, Eq, Structural)]
pub enum Key {
    /// Ends the session.
    Quit,
    /// Removes the last scalar value of the query.
    Backspace,
    /// Moves the selection one result up.
    Up,
    /// Moves the selection one result down.
    Down,
    /// Appends a scalar value to the query.
    Char(char),
    /// Any key that changes nothing.
    Other,
}

/// The state of a session: the query typed so far, what it finds, which
/// result is selected, and whether the session is to end. The selection
/// always points at a result, or is `0` where there is none.
pub struct TuiState<'a> {
    query: String,
    results: Vec<&'a Comment<'a>>,
    selected: usize,
    should_quit: bool,
}

/// The mathematical view of a [`TuiState`].
pub struct TuiView {
    pub query: Seq<char>,
    pub results: Seq<CommentView>,
    pub selected: int,
    pub should_quit: bool,
}

/// The comments that a search returns, in the order in which it returns
/// them.
pub open spec fn search_results(
    comments: Seq<CommentView>,
    query: Seq<char>,
    mode: SearchMode,
) -> Seq<CommentView> {
    search_order(comments, query, mode).map_values(|index: int| comments[index])
}

/// The selection kept within `count` results: it never passes the last
/// result, and is `0` where there is none.
pub open spec fn clamped(selected: int, count: int) -> int {
    if count <= 0 {
        0
    } else if selected >= count {
        count - 1
    } else {
        selected
    }
}

/// True when the selection points at a result, or is `0` where there is
/// none.
pub open spec fn selection_in_bounds(view: TuiView) -> bool {
    0 <= view.selected && (view.selected < view.results.len() || view.selected == 0)
}

/// The state with a new query, searched for among `comments`. The selection
/// stays where it was unless it would pass the last result.
pub open spec fn with_query(
    view: TuiView,
    query: Seq<char>,
    comments: Seq<CommentView>,
    mode: SearchMode,
) -> TuiView {
    let results = search_results(comments, query, mode);
    TuiView {
        query,
        results,
        selected: clamped(view.selected, results.len() as int),
        should_quit: view.should_quit,
    }
}

/// The state that a key leads to.
pub open spec fn after_key(
    view: TuiView,
    key: Key,
    comments: Seq<CommentView>,
    mode: SearchMode,
) -> TuiView {
    match key {
        Key::Quit => TuiView { should_quit: true, ..view },
        Key::Backspace => {
            let query = if view.query.len() > 0 {
                view.query.drop_last()
            } else {
                view.query
            };
            with_query(view, query, comments, mode)
        },
        Key::Char(ch) => with_query(view, view.query.push(ch), comments, mode),
        Key::Up => TuiView {
            selected: if view.selected > 0 {
                view.selected - 1
            } else {
                0
            },
            ..view
        },
        Key::Down => TuiView {
            selected: if view.selected + 1 < view.results.len() {
                view.selected + 1
            } else {
                view.selected
            },
            ..view
        },
        Key::Other => view,
    }
}

/// Whatever the key, the selection stays in bounds.
pub proof fn lemma_selection_stays_in_bounds(
    view: TuiView,
    key: Key,
    comments: Seq<CommentView>,
    mode: SearchMode,
)
    requires
        selection_in_bounds(view),
    ensures
        selection_in_bounds(after_key(view, key, comments, mode)),
{
}

impl<'a> View for TuiState<'a> {
    type V = TuiView;

    closed spec fn view(&self) -> TuiView {
        TuiView {
            query: self.query@,
            results: comment_views(self.results@.map_values(|comment: &Comment<'a>| *comment)),
            selected: self.selected as int,
            should_quit: self.should_quit,
        }
    }
}

impl<'a> TuiState<'a> {
    #[verifier::type_invariant]
    spec fn well_formed(self) -> bool {
        self.selected < self.results@.len() || self.selected == 0
    }

    /// The state in which a session begins: nothing typed, nothing found.
    pub fn new() -> (state: Self)
        ensures
            state@ == (TuiView {
                query: Seq::empty(),
                results: Seq::empty(),
                selected: 0,
                should_quit: false,
            }),
    {
        let state = TuiState {
            query: String::new(),
            results: Vec::new(),
            selected: 0,
            should_quit: false,
        };
        assert(state@.results =~= Seq::<CommentView>::empty());
        state
    }

    /// Searches `comments` for the query as it now stands and keeps the
    /// selection within what was found.
    fn refresh(&mut self, comments: &'a [Comment<'a>], mode: SearchMode)
        ensures
            final(self)@ == with_query(
                old(self)@,
                old(self)@.query,
                comment_views(comments@),
                mode,
            ),
    {
        let ghost before = self@;
        let selected = self.selected;
        let results = search(comments, self.query.as_str(), mode);
        let count = results.len();
        let ghost found = comment_views(results@.map_values(|comment: &Comment<'a>| *comment));
        proof {
            let order = search_order(comment_views(comments@), before.query, mode);
            assert(found =~= search_results(comment_views(comments@), before.query, mode)) by {
                assert forall|k: int| 0 <= k < found.len() implies found[k] == comment_views(
                    comments@,
                )[order[k]] by {
                    assert(*results@[k] == comments@[order[k]]);
                }
            }
        }
        self.selected = 0;
        self.results = results;
        self.selected = if count == 0 {
            0
        } else if selected >= count {
            count - 1
        } else {
            selected
        };
    }

    /// Takes one key: the quit key asks for the end of the session;
    /// backspace removes the last scalar value of the query and a character
    /// appends one, and either searches `comments` anew; up and down move the
    /// selection by one result and stop at the first and at the last.
    pub fn handle_key(&mut self, key: Key, comments: &'a [Comment<'a>], mode: SearchMode)
        ensures
            final(self)@ == after_key(old(self)@, key, comment_views(comments@), mode),
            selection_in_bounds(final(self)@),
    {
        let ghost before = self@;
        proof {
            use_type_invariant(&*self);
            lemma_selection_stays_in_bounds(before, key, comment_views(comments@), mode);
        }
        match key {
            Key::Quit => {
                self.should_quit = true;
            },
            Key::Backspace => {
                // The query is replaced as a whole: the state is never
                // borrowed for change while a call may still fail.
                let mut query = self.query.clone();
                let _ = query.pop();
                self.query = query;
                self.refresh(comments, mode);
            },
            Key::Char(ch) => {
                let mut query = self.query.clone();
                query.push(ch);
                self.query = query;
                self.refresh(comments, mode);
            },
            Key::Up => {
                if self.selected > 0 {
                    self.selected = self.selected - 1;
                }
            },
            Key::Down => {
                if self.selected < self.results.len() && self.selected + 1 < self.results.len() {
                    self.selected = self.selected + 1;
                }
            },
            Key::Other => {},
        }
    }

    /// The query typed so far.
    pub fn query(&self) -> (query: &str)
        ensures
            query@ == self@.query,
    {
        self.query.as_str()
    }

    /// The number of results.
    pub fn result_count(&self) -> (count: usize)
        ensures
            count == self@.results.len(),
    {
        self.results.len()
    }

    /// The result of index `index`, where there is one.
    pub fn result(&self, index: usize) -> (found: Option<&'a Comment<'a>>)
        ensures
            match found {
                Some(comment) => index < self@.results.len() && comment@
                    == self@.results[index as int],
                None => index >= self@.results.len(),
            },
    {
        if index < self.results.len() {
            Some(self.results[index])
        } else {
            None
        }
    }

    /// The index of the selected result; `0` where there is none.
    pub fn selected(&self) -> (selected: usize)
        ensures
            selected == self@.selected,
            selection_in_bounds(self@),
    {
        proof {
            use_type_invariant(self);
        }
        self.selected
    }

    /// Whether the session is to end.
    pub fn should_quit(&self) -> (quit: bool)
        ensures
            quit == self@.should_quit,
    {
        self.should_quit
    }
}

} // verus!
