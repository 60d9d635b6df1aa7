//! Comment extraction from the content of one file.

use crate::c_family::c_family_spans;
use crate::c_family::c_family_spans_well_formed;
use crate::c_family::extract_java_comments;
use crate::discover::extension;
use crate::discover::extension_of;
use crate::python::extract_python_comments;
use crate::python::python_spans;
use crate::python::python_spans_well_formed;
pub use crate::scan::CommentType;
use crate::scan::Span;
use crate::text::lemma_ascii_between_boundaries;
use crate::text::str_equal;
use vstd::prelude::*;
use vstd::string::StringSliceAdditionalSpecFns;
use vstd::utf8::*;

verus! {

/// The languages whose comments can be extracted.
#[derive(Clone, Copy, Debug, PartialEq, Eq, Structural)]
pub enum Language {
    Java,
    Python,
    JavaScript,
    TypeScript,
}

/// A comment found in a file: the byte range `start_byte..end_byte` of the
/// file's content.
#[derive(Clone, Copy, Debug, PartialEq, Eq, Structural)]
pub struct CommentMatch {
    pub start_byte: usize,
    pub end_byte: usize,
    pub comment_type: CommentType,
}

impl View for CommentMatch {
    type V = Span;

    open spec fn view(&self) -> Span {
        Span { start: self.start_byte as int, end: self.end_byte as int, kind: self.comment_type }
    }
}

/// The views of a sequence of matches, in order.
pub open spec fn span_views(matches: Seq<CommentMatch>) -> Seq<Span> {
    matches.map_values(|m: CommentMatch| m@)
}

/// The language that an extension stands for.
pub open spec fn language_of_extension(extension: Seq<char>) -> Option<Language> {
    if extension == "java"@ {
        Some(Language::Java)
    } else if extension == "py"@ {
        Some(Language::Python)
    } else if extension == "js"@ {
        Some(Language::JavaScript)
    } else if extension == "ts"@ {
        Some(Language::TypeScript)
    } else {
        None
    }
}

/// The language of the file at `path`, by the path's extension.
pub open spec fn language_of(path: Seq<u8>) -> Option<Language> {
    match extension_of(path) {
        Some(extension) => language_of_extension(decode_utf8(extension)),
        None => None,
    }
}

/// Tells the language of a file from its path. A path without an extension,
/// or with one that stands for no language, has none.
pub fn detect_language(path: &str) -> (language: Option<Language>)
    ensures
        language == language_of(path.spec_bytes()),
{
    match extension(path) {
        Some(ext) => {
            proof {
                encode_utf8_decode_utf8(ext@);
            }
            if str_equal(ext, "java") {
                Some(Language::Java)
            } else if str_equal(ext, "py") {
                Some(Language::Python)
            } else if str_equal(ext, "js") {
                Some(Language::JavaScript)
            } else if str_equal(ext, "ts") {
                Some(Language::TypeScript)
            } else {
                None
            }
        },
        None => None,
    }
}

/// The comments of a text in the given language, in the order in which they
/// stand in it.
pub open spec fn comment_spans(bytes: Seq<u8>, language: Language) -> Seq<Span> {
    match language {
        Language::Python => python_spans(bytes),
        _ => c_family_spans(bytes),
    }
}

/// What holds of the comments of a text in the given language: each begins
/// with the language's marker and ends as the language closes it, each ends
/// before the next begins, and none begins inside a literal.
pub open spec fn spans_well_formed(bytes: Seq<u8>, language: Language, spans: Seq<Span>) -> bool {
    match language {
        Language::Python => python_spans_well_formed(bytes, spans),
        _ => c_family_spans_well_formed(bytes, spans),
    }
}

/// True when a comment is not empty, lies in the text, and begins and ends
/// between two scalar values.
pub open spec fn span_in_text(bytes: Seq<u8>, span: Span) -> bool {
    &&& 0 <= span.start < span.end <= bytes.len()
    &&& is_char_boundary(bytes, span.start)
    &&& is_char_boundary(bytes, span.end)
}

/// True when every comment lies in the text as [`span_in_text`] says.
pub open spec fn spans_in_text(bytes: Seq<u8>, spans: Seq<Span>) -> bool {
    forall|i: int| 0 <= i < spans.len() ==> span_in_text(bytes, #[trigger] spans[i])
}

/// The comments of every text are well formed.
pub proof fn lemma_comment_spans_well_formed(bytes: Seq<u8>, language: Language)
    ensures
        spans_well_formed(bytes, language, comment_spans(bytes, language)),
{
    match language {
        Language::Python => crate::python::lemma_python_spans_well_formed(bytes),
        _ => crate::c_family::lemma_c_family_spans_well_formed(bytes),
    }
}

/// The comments of a text never overlap and stand in ascending order: each
/// begins before it ends, and ends before the next begins.
pub proof fn lemma_spans_ascending(bytes: Seq<u8>, language: Language, i: int, j: int)
    requires
        0 <= i < j < comment_spans(bytes, language).len(),
    ensures
        ({
            let spans = comment_spans(bytes, language);
            0 <= spans[i].start < spans[i].end < spans[j].start < spans[j].end <= bytes.len()
        }),
{
    lemma_comment_spans_well_formed(bytes, language);
    let spans = comment_spans(bytes, language);
    match language {
        Language::Python => {
            assert(crate::python::python_span_well_formed(bytes, spans[i]));
            assert(crate::python::python_span_well_formed(bytes, spans[j]));
        },
        _ => {
            assert(crate::c_family::c_family_span_well_formed(bytes, spans[i]));
            assert(crate::c_family::c_family_span_well_formed(bytes, spans[j]));
        },
    }
}

/// In well-formed UTF-8 every well-formed comment begins and ends between
/// two scalar values, so that its text can be cut out of the content.
pub proof fn lemma_spans_in_text(bytes: Seq<u8>, language: Language, spans: Seq<Span>)
    requires
        valid_utf8(bytes),
        spans_well_formed(bytes, language, spans),
    ensures
        spans_in_text(bytes, spans),
{
    assert forall|i: int| 0 <= i < spans.len() implies span_in_text(bytes, #[trigger] spans[i]) by {
        let span = spans[i];
        match language {
            Language::Python => {
                assert(crate::python::python_span_well_formed(bytes, span));
            },
            _ => {
                assert(crate::c_family::c_family_span_well_formed(bytes, span));
            },
        }
        lemma_ascii_between_boundaries(bytes, span.start);
        if span.end < bytes.len() {
            lemma_ascii_between_boundaries(bytes, span.end);
        } else {
            is_char_boundary_start_end_of_seq(bytes);
        }
    }
}

/// Extracts the comments of a text in the given language, in the order in
/// which they stand in it. No two of them overlap, and each can be cut out of
/// the content.
pub fn extract_comments_from_content(content: &str, language: Language) -> (comments: Vec<
    CommentMatch,
>)
    ensures
        span_views(comments@) == comment_spans(content.spec_bytes(), language),
        spans_well_formed(content.spec_bytes(), language, span_views(comments@)),
        spans_in_text(content.spec_bytes(), span_views(comments@)),
        forall|i: int, j: int|
            0 <= i < j < comments@.len() ==> (#[trigger] comments@[i]).start_byte
                < comments@[i].end_byte < (#[trigger] comments@[j]).start_byte,
{
    let comments = match language {
        Language::Python => extract_python_comments(content),
        _ => extract_java_comments(content),
    };
    proof {
        encode_utf8_valid_utf8(content@);
        lemma_spans_in_text(content.spec_bytes(), language, span_views(comments@));
        assert forall|i: int, j: int| 0 <= i < j < comments@.len() implies (
        #[trigger] comments@[i]).start_byte < comments@[i].end_byte < (
        #[trigger] comments@[j]).start_byte by {
            lemma_spans_ascending(content.spec_bytes(), language, i, j);
            assert(span_views(comments@)[i] == comments@[i]@);
            assert(span_views(comments@)[j] == comments@[j]@);
        }
    }
    comments
}

} // verus!
