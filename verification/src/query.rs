//! Queries and their terms.

use crate::text::lemma_byte_offsets;
use crate::text::lemma_equal_by_bytes;
use crate::text::byte_offset;
use crate::text::slice;
use crate::text::utf8_width;
use vstd::prelude::*;
use vstd::string::StringSliceAdditionalSpecFns;
use vstd::utf8::*;

verus! {

/// True for the scalar values that separate the terms of a query: those
/// with the Unicode property `White_Space`.
pub open spec fn is_whitespace(c: char) -> bool {
    let scalar = c as u32;
    ||| 0x09 <= scalar <= 0x0d
    ||| scalar == 0x20
    ||| scalar == 0x85
    ||| scalar == 0xa0
    ||| scalar == 0x1680
    ||| 0x2000 <= scalar <= 0x200a
    ||| scalar == 0x2028
    ||| scalar == 0x2029
    ||| scalar == 0x202f
    ||| scalar == 0x205f
    ||| scalar == 0x3000
}

/// Tells whether a scalar value separates the terms of a query.
pub fn separates_terms(c: char) -> (separates: bool)
    ensures
        separates == is_whitespace(c),
{
    let scalar = c as u32;
    (0x09 <= scalar && scalar <= 0x0d) || scalar == 0x20 || scalar == 0x85 || scalar == 0xa0
        || scalar == 0x1680 || (0x2000 <= scalar && scalar <= 0x200a) || scalar == 0x2028
        || scalar == 0x2029 || scalar == 0x202f || scalar == 0x205f || scalar == 0x3000
}

/// The index behind the run of scalar values other than whitespace that
/// begins at `from`.
pub open spec fn term_end(text: Seq<char>, from: int) -> int
    decreases text.len() - from,
{
    if from < 0 || from >= text.len() || is_whitespace(text[from]) {
        from
    } else {
        term_end(text, from + 1)
    }
}

/// A term ends behind where it begins, and in the text.
pub proof fn lemma_term_end_bounds(text: Seq<char>, from: int)
    requires
        0 <= from <= text.len(),
    ensures
        from <= term_end(text, from) <= text.len(),
        from < text.len() && !is_whitespace(text[from]) ==> from < term_end(text, from),
    decreases text.len() - from,
{
    if from < text.len() && !is_whitespace(text[from]) {
        lemma_term_end_bounds(text, from + 1);
    }
}

/// The terms of `text` from the index `from` on.
pub open spec fn terms_from(text: Seq<char>, from: int) -> Seq<Seq<char>>
    decreases text.len() - from,
{
    if from < 0 || from >= text.len() {
        Seq::empty()
    } else if is_whitespace(text[from]) {
        terms_from(text, from + 1)
    } else {
        let end = term_end(text, from);
        proof {
            lemma_term_end_bounds(text, from);
        }
        seq![text.subrange(from, end)] + terms_from(text, end)
    }
}

/// The terms of a query: its longest runs of scalar values other than
/// whitespace, in the order in which they stand in it.
pub open spec fn split_terms(text: Seq<char>) -> Seq<Seq<char>> {
    terms_from(text, 0)
}

/// A run of scalar values other than whitespace that whitespace or the end
/// of the text follows is a term.
pub proof fn lemma_term_end(text: Seq<char>, from: int, end: int)
    requires
        0 <= from <= end <= text.len(),
        forall|k: int| from <= k < end ==> !is_whitespace(text[k]),
        end == text.len() || is_whitespace(text[end]),
    ensures
        term_end(text, from) == end,
    decreases end - from,
{
    if from < end {
        lemma_term_end(text, from + 1, end);
    }
}

/// A text has no term exactly when it holds nothing but whitespace.
pub proof fn lemma_no_terms(text: Seq<char>, from: int)
    requires
        0 <= from <= text.len(),
    ensures
        terms_from(text, from).len() == 0 <==> forall|k: int|
            from <= k < text.len() ==> is_whitespace(text[k]),
    decreases text.len() - from,
{
    if from < text.len() {
        if is_whitespace(text[from]) {
            lemma_no_terms(text, from + 1);
        } else {
            lemma_term_end_bounds(text, from);
        }
    }
}

/// True of a text that can be a term: it is not empty and holds no
/// whitespace.
pub open spec fn is_term(term: Seq<char>) -> bool {
    term.len() > 0 && forall|k: int| 0 <= k < term.len() ==> !is_whitespace(term[k])
}

/// No term is empty, and none holds whitespace.
pub proof fn lemma_terms_hold_no_whitespace(text: Seq<char>, from: int)
    requires
        0 <= from <= text.len(),
    ensures
        forall|i: int|
            0 <= i < terms_from(text, from).len() ==> is_term(#[trigger] terms_from(text, from)[i]),
    decreases text.len() - from,
{
    if from < text.len() {
        if is_whitespace(text[from]) {
            lemma_terms_hold_no_whitespace(text, from + 1);
            assert(terms_from(text, from) == terms_from(text, from + 1));
        } else {
            let end = term_end(text, from);
            lemma_term_end_bounds(text, from);
            lemma_term_holds_no_whitespace(text, from);
            lemma_terms_hold_no_whitespace(text, end);
            let rest = terms_from(text, end);
            let terms = terms_from(text, from);
            let first = text.subrange(from, end);
            assert(terms =~= seq![first] + rest);
            assert(is_term(first)) by {
                assert forall|k: int| 0 <= k < first.len() implies !is_whitespace(first[k]) by {
                    assert(first[k] == text[from + k]);
                }
            }
            assert forall|i: int| 0 <= i < terms.len() implies is_term(#[trigger] terms[i]) by {
                if i > 0 {
                    assert(terms[i] == rest[i - 1]);
                }
            }
        }
    }
}

/// Up to where a term ends there is no whitespace.
proof fn lemma_term_holds_no_whitespace(text: Seq<char>, from: int)
    requires
        0 <= from <= text.len(),
    ensures
        forall|k: int| from <= k < term_end(text, from) ==> !is_whitespace(text[k]),
    decreases text.len() - from,
{
    if from < text.len() && !is_whitespace(text[from]) {
        lemma_term_holds_no_whitespace(text, from + 1);
    }
}

/// The views of a sequence of terms, in order.
pub open spec fn term_views(terms: Seq<&str>) -> Seq<Seq<char>> {
    terms.map_values(|term: &str| term@)
}

/// Splits a query into its terms, in the order in which they stand in it.
/// A term that stands twice is given twice. No term is empty or holds
/// whitespace, and there is none exactly when the query is empty or all
/// whitespace.
pub fn split_query<'a>(query: &'a str) -> (terms: Vec<&'a str>)
    ensures
        term_views(terms@) == split_terms(query@),
        forall|i: int| 0 <= i < terms@.len() ==> is_term(#[trigger] terms@[i]@),
        terms@.len() == 0 <==> forall|k: int| 0 <= k < query@.len() ==> is_whitespace(query@[k]),
{
    let n = query.as_bytes().len();
    let mut terms: Vec<&'a str> = Vec::new();
    let mut in_term = false;
    let mut term_start: usize = 0;
    let mut offset: usize = 0;
    let ghost mut term_index: int = 0;
    proof {
        lemma_byte_offsets(query@, 0, 0);
        assert(query@.take(0) =~= Seq::<char>::empty());
        assert(term_views(terms@) =~= Seq::<Seq<char>>::empty());
    }
    for c in it: query.chars()
        invariant
            it.seq() == query@,
            n == query.spec_bytes().len(),
            offset == byte_offset(query@, it.index() as int),
            offset <= n,
            in_term ==> 0 <= term_index < it.index() && term_start == byte_offset(
                query@,
                term_index,
            ) && forall|k: int| term_index <= k < it.index() ==> !is_whitespace(query@[k]),
            !in_term ==> term_index == it.index(),
            term_views(terms@) + terms_from(query@, term_index) == split_terms(query@),
    {
        let ghost i = it.index() as int;
        let ghost done = term_views(terms@);
        proof {
            lemma_byte_offsets(query@, term_index, i);
            lemma_byte_offsets(query@, i, i + 1);
        }
        if separates_terms(c) {
            if in_term {
                let term = slice(query, term_start, offset);
                proof {
                    lemma_equal_by_bytes(term@, query@.subrange(term_index, i));
                    lemma_term_end(query@, term_index, i);
                }
                terms.push(term);
                proof {
                    let rest = terms_from(query@, i + 1);
                    assert(terms_from(query@, i) == rest);
                    assert(term_views(terms@) =~= done.push(term@));
                    assert(done.push(term@) + rest =~= done + (seq![term@] + rest));
                }
                in_term = false;
            }
            proof {
                term_index = i + 1;
            }
        } else if !in_term {
            in_term = true;
            term_start = offset;
        }
        offset += utf8_width(c);
    }
    if in_term {
        let ghost done = term_views(terms@);
        let ghost end = query@.len() as int;
        proof {
            lemma_byte_offsets(query@, term_index, end);
        }
        let term = slice(query, term_start, n);
        proof {
            lemma_equal_by_bytes(term@, query@.subrange(term_index, end));
            lemma_term_end(query@, term_index, end);
            assert(terms_from(query@, end) =~= Seq::<Seq<char>>::empty());
        }
        terms.push(term);
        proof {
            assert(term_views(terms@) =~= done.push(term@));
        }
    } else {
        assert(terms_from(query@, term_index) =~= Seq::<Seq<char>>::empty());
    }
    proof {
        lemma_terms_hold_no_whitespace(query@, 0);
        lemma_no_terms(query@, 0);
        assert(term_views(terms@) =~= terms_from(query@, 0));
        assert forall|i: int| 0 <= i < terms@.len() implies is_term(#[trigger] terms@[i]@) by {
            assert(term_views(terms@)[i] == terms@[i]@);
            assert(is_term(terms_from(query@, 0)[i]));
        }
    }
    terms
}

} // verus!
