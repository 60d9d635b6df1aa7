//! From source files to located comments.

use crate::lines::line_number;
use crate::lines::line_starts;
use crate::lines::LineMap;
use crate::parser::comment_spans;
use crate::parser::detect_language;
use crate::parser::extract_comments_from_content;
use crate::parser::language_of;
use crate::parser::span_views;
use crate::scan::Span;
use crate::source::SourceFile;
use crate::text::slice;
use vstd::prelude::*;
use vstd::string::StringSliceAdditionalSpecFns;
use vstd::utf8::*;

verus! {

/// A comment with the line it begins on and the name of its file. The text
/// is the part of the file's content that the comment covers.
#[derive(Clone, Copy, Debug, PartialEq, Eq)]
pub struct Comment<'a> {
    pub line: usize,
    pub text: &'a str,
    pub file_name: &'a str,
}

/// The mathematical view of a [`Comment`].
pub struct CommentView {
    pub line: int,
    pub text: Seq<char>,
    pub file_name: Seq<char>,
}

impl<'a> View for Comment<'a> {
    type V = CommentView;

    open spec fn view(&self) -> CommentView {
        CommentView { line: self.line as int, text: self.text@, file_name: self.file_name@ }
    }
}

/// The views of a sequence of comments, in order.
pub open spec fn comment_views(comments: Seq<Comment<'_>>) -> Seq<CommentView> {
    comments.map_values(|c: Comment<'_>| c@)
}

/// The comment that `span` marks in the content `bytes` of the file called
/// `name`: its line is that of its first byte, its text the bytes it covers.
pub open spec fn located(name: Seq<char>, bytes: Seq<u8>, span: Span) -> CommentView {
    CommentView {
        line: line_number(line_starts(bytes), span.start),
        text: decode_utf8(bytes.subrange(span.start, span.end)),
        file_name: name,
    }
}

/// The comments of one file, in the order in which they stand in it. A file
/// whose path tells no language has none.
pub open spec fn comments_of_file(file: SourceFile) -> Seq<CommentView> {
    let bytes = encode_utf8(file.content@);
    match language_of(encode_utf8(file.path@)) {
        Some(language) => comment_spans(bytes, language).map_values(
            |span: Span| located(file.name@, bytes, span),
        ),
        None => Seq::empty(),
    }
}

/// The comments of all files: those of the first file, then those of the
/// second, and so on.
pub open spec fn comments_of_files(files: Seq<SourceFile>) -> Seq<CommentView>
    decreases files.len(),
{
    if files.len() == 0 {
        Seq::empty()
    } else {
        comments_of_files(files.drop_last()) + comments_of_file(files.last())
    }
}

/// Appends the comments of one file to `comments`.
fn extract_file_comments<'a>(file: &'a SourceFile, comments: &mut Vec<Comment<'a>>)
    ensures
        comment_views(final(comments)@) == comment_views(old(comments)@) + comments_of_file(*file),
{
    let ghost before = comment_views(comments@);
    let content = file.content.as_str();
    let ghost bytes = content.spec_bytes();
    match detect_language(file.path.as_str()) {
        None => {
            assert(comment_views(comments@) =~= before + comments_of_file(*file));
        },
        Some(language) => {
            let matches = extract_comments_from_content(content, language);
            let lines = LineMap::new(content);
            let ghost spans = comment_spans(bytes, language);
            let ghost found = comments_of_file(*file);
            let mut i: usize = 0;
            assert(comment_views(comments@) =~= before + found.take(0));
            while i < matches.len()
                invariant
                    bytes == content.spec_bytes(),
                    bytes == encode_utf8(file.content@),
                    spans == span_views(matches@),
                    crate::parser::spans_in_text(bytes, spans),
                    lines@ == line_starts(bytes),
                    found.len() == spans.len(),
                    forall|k: int|
                        0 <= k < spans.len() ==> found[k] == located(
                            file.name@,
                            bytes,
                            #[trigger] spans[k],
                        ),
                    i <= matches@.len(),
                    comment_views(comments@) == before + found.take(i as int),
                decreases matches.len() - i,
            {
                let found_match = matches[i];
                assert(spans[i as int] == found_match@);
                assert(crate::parser::span_in_text(bytes, spans[i as int]));
                let text = slice(content, found_match.start_byte, found_match.end_byte);
                let line = lines.line_of(found_match.start_byte);
                let ghost views = comment_views(comments@);
                let comment = Comment { line, text, file_name: file.name.as_str() };
                proof {
                    encode_utf8_decode_utf8(text@);
                    assert(comment@ == found[i as int]);
                }
                comments.push(comment);
                proof {
                    assert(comment_views(comments@) =~= views.push(comment@));
                    assert(found.take(i + 1) =~= found.take(i as int).push(found[i as int]));
                }
                i += 1;
            }
            assert(found.take(i as int) =~= found);
        },
    }
}

/// Extracts the comments of all files, file by file in the order given, and
/// within a file in the order in which they stand in it. A file whose path
/// tells no language contributes none.
pub fn extract_comments<'a>(files: &'a [SourceFile]) -> (comments: Vec<Comment<'a>>)
    ensures
        comment_views(comments@) == comments_of_files(files@),
{
    let mut comments: Vec<Comment<'a>> = Vec::new();
    let mut i: usize = 0;
    assert(files@.take(0) =~= Seq::<SourceFile>::empty());
    assert(comment_views(comments@) =~= Seq::<CommentView>::empty());
    while i < files.len()
        invariant
            i <= files@.len(),
            comment_views(comments@) == comments_of_files(files@.take(i as int)),
        decreases files.len() - i,
    {
        assert(files@.take(i + 1).drop_last() =~= files@.take(i as int));
        assert(files@.take(i + 1).last() == files@[i as int]);
        extract_file_comments(&files[i], &mut comments);
        i += 1;
    }
    assert(files@.take(i as int) =~= files@);
    comments
}

} // verus!
