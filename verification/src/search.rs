//! Searching comments for the terms of a query.

use crate::engine::comment_views;
use crate::engine::Comment;
use crate::engine::CommentView;
use crate::query::is_whitespace;
use crate::query::split_query;
use crate::query::split_terms;
use crate::query::term_views;
use crate::rank::indices;
use crate::rank::is_ranking;
use crate::rank::keys;
use crate::rank::lemma_ranking_is_ranking;
use crate::rank::lemma_ranking_unique;
use crate::rank::rank;
use crate::rank::ranking;
use crate::std_specs::lowercase;
use crate::text::contains;
use crate::text::find;
use crate::text::first_occurrence;
use crate::text::lemma_first_occurrence;
use vstd::prelude::*;
use vstd::string::StringSliceAdditionalSpecFns;
use vstd::utf8::*;

verus! {

/// How the terms of a query combine: all of them must be found, or any one.
#[derive(Clone, Copy, Debug, PartialEq, Eq, Structural)]
pub enum SearchMode {
    And,
    Or,
}

/// The value from which a comment's score is taken to give its sort key, so
/// that a higher score sorts first.
pub const MAXIMUM_SCORE_VALUE: u128 = 0xffff_ffff_ffff_ffff_ffff_ffff_ffff_ffff;

/// What a term found at the very beginning of the file name adds to the
/// score.
pub const FILE_NAME_WEIGHT: usize = 2000;

/// What a term found at the very beginning of the text adds to the score.
pub const TEXT_WEIGHT: usize = 1000;

/// True when `needle` stands in the text or in the file name.
pub open spec fn found_in(text: Seq<char>, file_name: Seq<char>, needle: Seq<char>) -> bool {
    contains(encode_utf8(text), encode_utf8(needle)) || contains(
        encode_utf8(file_name),
        encode_utf8(needle),
    )
}

/// True when the needles are found as the mode asks: all of them, or at
/// least one.
pub open spec fn matches_needles(
    text: Seq<char>,
    file_name: Seq<char>,
    needles: Seq<Seq<char>>,
    mode: SearchMode,
) -> bool {
    match mode {
        SearchMode::And => forall|k: int|
            0 <= k < needles.len() ==> found_in(text, file_name, #[trigger] needles[k]),
        SearchMode::Or => exists|k: int|
            0 <= k < needles.len() && found_in(text, file_name, #[trigger] needles[k]),
    }
}

/// What is left of `weight` at the offset `position`.
pub open spec fn decayed(weight: int, position: int) -> int {
    if position < weight {
        weight - position
    } else {
        0
    }
}

/// What one term adds to the score: where it stands in the file name, the
/// file-name weight less the offset at which it stands there first; else,
/// where it stands in the text, the text weight less the offset at which it
/// stands there first; else nothing.
pub open spec fn term_score(text: Seq<char>, file_name: Seq<char>, term: Seq<char>) -> int {
    match first_occurrence(encode_utf8(file_name), encode_utf8(term)) {
        Some(position) => decayed(FILE_NAME_WEIGHT as int, position),
        None => match first_occurrence(encode_utf8(text), encode_utf8(term)) {
            Some(position) => decayed(TEXT_WEIGHT as int, position),
            None => 0,
        },
    }
}

/// The score: the sum of what the terms add, a term that stands twice in
/// the query counted twice.
pub open spec fn total_score(text: Seq<char>, file_name: Seq<char>, terms: Seq<Seq<char>>) -> int
    decreases terms.len(),
{
    if terms.len() == 0 {
        0
    } else {
        total_score(text, file_name, terms.drop_last()) + term_score(text, file_name, terms.last())
    }
}

/// The key by which results are sorted in ascending order.
pub open spec fn sort_key(text: Seq<char>, file_name: Seq<char>, terms: Seq<Seq<char>>) -> int {
    MAXIMUM_SCORE_VALUE - total_score(text, file_name, terms)
}

/// No term adds more than the file-name weight, so the score is bounded by
/// the number of terms.
pub proof fn lemma_total_score_bounds(text: Seq<char>, file_name: Seq<char>, terms: Seq<Seq<char>>)
    ensures
        0 <= total_score(text, file_name, terms) <= FILE_NAME_WEIGHT * terms.len(),
    decreases terms.len(),
{
    if terms.len() > 0 {
        lemma_total_score_bounds(text, file_name, terms.drop_last());
        lemma_first_occurrence(encode_utf8(file_name), encode_utf8(terms.last()));
        lemma_first_occurrence(encode_utf8(text), encode_utf8(terms.last()));
        assert(0 <= term_score(text, file_name, terms.last()) <= FILE_NAME_WEIGHT);
    }
}

/// The views of a sequence of strings, in order.
pub open spec fn string_views(strings: Seq<String>) -> Seq<Seq<char>> {
    strings.map_values(|string: String| string@)
}

/// Tells whether `needle` stands in `text` or in `file_name`.
pub fn is_found_in(text: &str, file_name: &str, needle: &str) -> (found: bool)
    ensures
        found == found_in(text@, file_name@, needle@),
{
    find(text.as_bytes(), needle.as_bytes()).is_some() || find(
        file_name.as_bytes(),
        needle.as_bytes(),
    ).is_some()
}

/// Tells whether a comment with this text and file name matches the
/// needles: under `And` every needle stands in the text or in the file name,
/// under `Or` at least one does.
pub fn match_needles(
    text: &str,
    file_name: &str,
    needles: &[String],
    mode: SearchMode,
) -> (matched: bool)
    ensures
        matched == matches_needles(text@, file_name@, string_views(needles@), mode),
{
    let ghost views = string_views(needles@);
    let mut k: usize = 0;
    while k < needles.len()
        invariant
            k <= needles@.len(),
            views == string_views(needles@),
            forall|m: int|
                0 <= m < k ==> (found_in(text@, file_name@, #[trigger] views[m]) <==> mode
                    == SearchMode::And),
        decreases needles@.len() - k,
    {
        let found = is_found_in(text, file_name, needles[k].as_str());
        assert(views[k as int] == needles@[k as int]@);
        match mode {
            SearchMode::And => {
                if !found {
                    return false;
                }
            },
            SearchMode::Or => {
                if found {
                    return true;
                }
            },
        }
        k += 1;
    }
    match mode {
        SearchMode::And => true,
        SearchMode::Or => false,
    }
}

/// What one term adds to the score of a comment with this text and file
/// name.
pub fn score_term(text: &str, file_name: &str, term: &str) -> (score: usize)
    ensures
        score == term_score(text@, file_name@, term@),
        score <= FILE_NAME_WEIGHT,
{
    match find(file_name.as_bytes(), term.as_bytes()) {
        Some(position) => if position < FILE_NAME_WEIGHT {
            FILE_NAME_WEIGHT - position
        } else {
            0
        },
        None => match find(text.as_bytes(), term.as_bytes()) {
            Some(position) => if position < TEXT_WEIGHT {
                TEXT_WEIGHT - position
            } else {
                0
            },
            None => 0,
        },
    }
}

/// The sort key of a comment with this text and file name: the maximum key
/// less the sum of what the terms add, so that the comment with the higher
/// score has the lower key.
pub fn score(text: &str, file_name: &str, terms: &[&str]) -> (key: u128)
    ensures
        key == sort_key(text@, file_name@, term_views(terms@)),
{
    let ghost views = term_views(terms@);
    let mut total: u128 = 0;
    let mut k: usize = 0;
    assert(views.take(0) =~= Seq::<Seq<char>>::empty());
    while k < terms.len()
        invariant
            k <= terms@.len(),
            views == term_views(terms@),
            total == total_score(text@, file_name@, views.take(k as int)),
            total <= FILE_NAME_WEIGHT * k,
        decreases terms@.len() - k,
    {
        let added = score_term(text, file_name, terms[k]);
        proof {
            assert(views.take(k + 1).drop_last() =~= views.take(k as int));
            assert(views.take(k + 1).last() == terms@[k as int]@);
        }
        total = total + added as u128;
        k += 1;
    }
    assert(views.take(k as int) =~= views);
    MAXIMUM_SCORE_VALUE - total
}

/// The lowercase forms of a sequence of texts, in order.
pub open spec fn lowercase_all(texts: Seq<Seq<char>>) -> Seq<Seq<char>> {
    texts.map_values(|text: Seq<char>| lowercase(text))
}

/// True when a comment matches the terms of a query, whatever the case of
/// the letters: the needles are the lowercase forms of the terms, and they
/// are looked for in the lowercase forms of the text and of the file name.
pub open spec fn comment_matches(
    comment: CommentView,
    terms: Seq<Seq<char>>,
    mode: SearchMode,
) -> bool {
    matches_needles(
        lowercase(comment.text),
        lowercase(comment.file_name),
        lowercase_all(terms),
        mode,
    )
}

/// The sort key of a comment: the terms are looked for, as they stand in the
/// query, in the lowercase forms of the text and of the file name.
pub open spec fn comment_key(comment: CommentView, terms: Seq<Seq<char>>) -> int {
    sort_key(lowercase(comment.text), lowercase(comment.file_name), terms)
}

/// For every comment its sort key, or `None` where it does not match. A
/// query without terms matches nothing.
pub open spec fn comment_scores(
    comments: Seq<CommentView>,
    terms: Seq<Seq<char>>,
    mode: SearchMode,
) -> Seq<Option<int>> {
    Seq::new(
        comments.len(),
        |i: int|
            if terms.len() > 0 && comment_matches(comments[i], terms, mode) {
                Some(comment_key(comments[i], terms))
            } else {
                None
            },
    )
}

/// The indices of the comments that a search returns, in the order in which
/// it returns them.
pub open spec fn search_order(
    comments: Seq<CommentView>,
    query: Seq<char>,
    mode: SearchMode,
) -> Seq<int> {
    ranking(comment_scores(comments, split_terms(query), mode))
}

/// A comment that matches when all terms must be found matches when any one
/// may be found: what a search returns under `And` it also returns under
/// `Or`.
pub proof fn lemma_and_results_among_or_results(
    comments: Seq<CommentView>,
    query: Seq<char>,
    index: int,
)
    requires
        search_order(comments, query, SearchMode::And).contains(index),
    ensures
        search_order(comments, query, SearchMode::Or).contains(index),
{
    let terms = split_terms(query);
    let all = comment_scores(comments, terms, SearchMode::And);
    let any = comment_scores(comments, terms, SearchMode::Or);
    lemma_ranking_is_ranking(all);
    lemma_ranking_is_ranking(any);
    let order = ranking(all);
    let at = choose|at: int| 0 <= at < order.len() && order[at] == index;
    assert(all[order[at]] is Some);
    let lowered = lowercase_all(terms);
    assert(found_in(
        lowercase(comments[index].text),
        lowercase(comments[index].file_name),
        lowered[0],
    ));
    assert(any[index] is Some);
}

/// Where a term stands in the file name of one comment and, at the same
/// offset, only in the text of another, it adds more to the score of the
/// first: a match in the file name sorts before a match in the text alone.
pub proof fn lemma_file_name_outranks_text(
    named_text: Seq<char>,
    named_file: Seq<char>,
    other_text: Seq<char>,
    other_file: Seq<char>,
    term: Seq<char>,
    position: int,
)
    requires
        first_occurrence(encode_utf8(named_file), encode_utf8(term)) == Some(position),
        first_occurrence(encode_utf8(other_file), encode_utf8(term)) is None,
        first_occurrence(encode_utf8(other_text), encode_utf8(term)) == Some(position),
        position < FILE_NAME_WEIGHT,
    ensures
        term_score(named_text, named_file, term) > term_score(other_text, other_file, term),
        sort_key(named_text, named_file, seq![term]) < sort_key(other_text, other_file, seq![term]),
{
    lemma_first_occurrence(encode_utf8(named_file), encode_utf8(term));
    let terms = seq![term];
    assert(terms.drop_last() =~= Seq::<Seq<char>>::empty());
    assert(total_score(named_text, named_file, terms) == term_score(
        named_text,
        named_file,
        term,
    )) by {
        reveal_with_fuel(total_score, 2);
    }
    assert(total_score(other_text, other_file, terms) == term_score(
        other_text,
        other_file,
        term,
    )) by {
        reveal_with_fuel(total_score, 2);
    }
}

/// A query without terms finds nothing.
pub proof fn lemma_no_terms_no_results(comments: Seq<CommentView>, query: Seq<char>, mode: SearchMode)
    requires
        split_terms(query).len() == 0,
    ensures
        search_order(comments, query, mode).len() == 0,
{
    let scores = comment_scores(comments, split_terms(query), mode);
    let nothing = Seq::<int>::empty();
    assert(is_ranking(nothing, scores));
    lemma_ranking_unique(nothing, scores);
}

/// The sort key of a comment for the terms of a query.
pub fn calculate_score(comment: &Comment<'_>, terms: &[&str]) -> (key: u128)
    ensures
        key == comment_key(comment@, term_views(terms@)),
{
    let text = comment.text.to_lowercase();
    let file_name = comment.file_name.to_lowercase();
    score(text.as_str(), file_name.as_str(), terms)
}

/// The lowercase forms of the terms, in order.
fn lowercase_terms(terms: &[&str]) -> (lowered: Vec<String>)
    ensures
        string_views(lowered@) == lowercase_all(term_views(terms@)),
{
    let mut lowered: Vec<String> = Vec::new();
    let mut k: usize = 0;
    while k < terms.len()
        invariant
            k <= terms@.len(),
            lowered@.len() == k,
            forall|m: int| 0 <= m < k ==> (#[trigger] lowered@[m])@ == lowercase(terms@[m]@),
        decreases terms@.len() - k,
    {
        lowered.push(terms[k].to_lowercase());
        k += 1;
    }
    assert(string_views(lowered@) =~= lowercase_all(term_views(terms@)));
    lowered
}

/// Searches the comments for the terms of the query.
///
/// The terms are the runs of the query between whitespace. A comment is
/// returned when, whatever the case of the letters, every term stands in its
/// text or in its file name (`And`), or at least one does (`Or`). The results
/// come by descending score, and among equal scores in the order of
/// `comments`. A query that is empty, or holds nothing but whitespace,
/// returns nothing.
pub fn search<'a>(comments: &'a [Comment<'a>], query: &str, mode: SearchMode) -> (results: Vec<
    &'a Comment<'a>,
>)
    ensures
        results@.len() == search_order(comment_views(comments@), query@, mode).len(),
        forall|k: int|
            0 <= k < results@.len() ==> *(#[trigger] results@[k]) == comments@[search_order(
                comment_views(comments@),
                query@,
                mode,
            )[k]],
        is_ranking(
            search_order(comment_views(comments@), query@, mode),
            comment_scores(comment_views(comments@), split_terms(query@), mode),
        ),
        (forall|k: int| 0 <= k < query@.len() ==> is_whitespace(query@[k])) ==> results@.len()
            == 0,
{
    let ghost views = comment_views(comments@);
    let ghost wanted = comment_scores(views, split_terms(query@), mode);
    proof {
        lemma_ranking_is_ranking(wanted);
    }
    let terms = split_query(query);
    if terms.len() == 0 {
        proof {
            lemma_no_terms_no_results(views, query@, mode);
        }
        return Vec::new();
    }
    let needles = lowercase_terms(&terms);
    let mut scores: Vec<Option<u128>> = Vec::new();
    let mut i: usize = 0;
    while i < comments.len()
        invariant
            i <= comments@.len(),
            views == comment_views(comments@),
            wanted == comment_scores(views, split_terms(query@), mode),
            term_views(terms@) == split_terms(query@),
            terms@.len() > 0,
            string_views(needles@) == lowercase_all(term_views(terms@)),
            scores@.len() == i,
            forall|m: int| 0 <= m < i ==> (#[trigger] keys(scores@)[m]) == wanted[m],
        decreases comments@.len() - i,
    {
        let comment = &comments[i];
        let text = comment.text.to_lowercase();
        let file_name = comment.file_name.to_lowercase();
        let ghost before = keys(scores@);
        proof {
            assert(views[i as int] == comments@[i as int]@);
            lemma_total_score_bounds(text@, file_name@, term_views(terms@));
        }
        if match_needles(text.as_str(), file_name.as_str(), &needles, mode) {
            scores.push(Some(score(text.as_str(), file_name.as_str(), &terms)));
        } else {
            scores.push(None);
        }
        proof {
            assert forall|m: int| 0 <= m < i + 1 implies (#[trigger] keys(scores@)[m])
                == wanted[m] by {
                if m < i {
                    assert(keys(scores@)[m] == before[m]);
                }
            }
        }
        i += 1;
    }
    assert(keys(scores@) =~= wanted);
    let order = rank(&scores);
    let mut results: Vec<&'a Comment<'a>> = Vec::new();
    let mut k: usize = 0;
    while k < order.len()
        invariant
            k <= order@.len(),
            results@.len() == k,
            scores@.len() == comments@.len(),
            is_ranking(indices(order@), keys(scores@)),
            forall|m: int| 0 <= m < k ==> *(#[trigger] results@[m]) == comments@[order@[m] as int],
        decreases order@.len() - k,
    {
        let index = order[k];
        assert(0 <= indices(order@)[k as int] < keys(scores@).len());
        results.push(&comments[index]);
        k += 1;
    }
    results
}

} // verus!
