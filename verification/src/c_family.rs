//! The scanner for Java, JavaScript and TypeScript, which share one comment
//! syntax.

use crate::parser::CommentMatch;
use crate::parser::span_views;
use crate::scan::byte_is;
use crate::scan::escape_end;
use crate::scan::skip_escape;
use crate::scan::CommentType;
use crate::scan::Span;
use crate::scan::Step;
use crate::scan::BACKSLASH;
use crate::scan::DOUBLE_QUOTE;
use crate::scan::NEWLINE;
use crate::scan::SINGLE_QUOTE;
use crate::scan::SLASH;
use crate::scan::STAR;
use vstd::prelude::*;
use vstd::string::StringSliceAdditionalSpecFns;
use vstd::utf8::*;

verus! {

/// The states of the scanner.
#[derive(Clone, Copy, Debug, PartialEq, Eq, Structural)]
pub enum CFamilyState {
    Code,
    SingleLineComment,
    MultiLineComment,
    StringLiteral,
    CharLiteral,
}

/// True when `//` stands at offset `at`.
pub open spec fn opens_line_comment(bytes: Seq<u8>, at: int) -> bool {
    byte_is(bytes, at, SLASH) && byte_is(bytes, at + 1, SLASH)
}

/// True when `/*` stands at offset `at`.
pub open spec fn opens_block_comment(bytes: Seq<u8>, at: int) -> bool {
    byte_is(bytes, at, SLASH) && byte_is(bytes, at + 1, STAR)
}

/// True when `*/` stands at offset `at`.
pub open spec fn closes_block_comment(bytes: Seq<u8>, at: int) -> bool {
    byte_is(bytes, at, STAR) && byte_is(bytes, at + 1, SLASH)
}

/// The transition inside a literal that `quote` closes.
pub open spec fn literal_step(
    bytes: Seq<u8>,
    pos: int,
    state: CFamilyState,
    start: int,
    quote: u8,
) -> Step<CFamilyState> {
    if bytes[pos] == BACKSLASH {
        Step { state, start, next: escape_end(bytes, pos), emit: None }
    } else if bytes[pos] == quote {
        Step { state: CFamilyState::Code, start, next: pos + 1, emit: None }
    } else {
        Step { state, start, next: pos + 1, emit: None }
    }
}

/// The transition of the scanner at offset `pos`, in `state`, with `start`
/// the offset at which the open comment began.
pub open spec fn c_family_step(bytes: Seq<u8>, pos: int, state: CFamilyState, start: int) -> Step<
    CFamilyState,
> {
    match state {
        CFamilyState::Code => {
            if opens_line_comment(bytes, pos) {
                Step {
                    state: CFamilyState::SingleLineComment,
                    start: pos,
                    next: pos + 2,
                    emit: None,
                }
            } else if opens_block_comment(bytes, pos) {
                Step { state: CFamilyState::MultiLineComment, start: pos, next: pos + 2, emit: None }
            } else if bytes[pos] == DOUBLE_QUOTE {
                Step { state: CFamilyState::StringLiteral, start, next: pos + 1, emit: None }
            } else if bytes[pos] == SINGLE_QUOTE {
                Step { state: CFamilyState::CharLiteral, start, next: pos + 1, emit: None }
            } else {
                Step { state, start, next: pos + 1, emit: None }
            }
        },
        CFamilyState::SingleLineComment => {
            if bytes[pos] == NEWLINE {
                Step {
                    state: CFamilyState::Code,
                    start,
                    next: pos + 1,
                    emit: Some(Span { start, end: pos, kind: CommentType::SingleLine }),
                }
            } else {
                Step { state, start, next: pos + 1, emit: None }
            }
        },
        CFamilyState::MultiLineComment => {
            if closes_block_comment(bytes, pos) {
                Step {
                    state: CFamilyState::Code,
                    start,
                    next: pos + 2,
                    emit: Some(Span { start, end: pos, kind: CommentType::MultiLine }),
                }
            } else {
                Step { state, start, next: pos + 1, emit: None }
            }
        },
        CFamilyState::StringLiteral => literal_step(bytes, pos, state, start, DOUBLE_QUOTE),
        CFamilyState::CharLiteral => literal_step(bytes, pos, state, start, SINGLE_QUOTE),
    }
}

/// The comments that the scanner closes from offset `pos` on, when it is
/// there in `state`. A comment still open at the end of input is dropped.
pub open spec fn c_family_scan(bytes: Seq<u8>, pos: int, state: CFamilyState, start: int) -> Seq<
    Span,
>
    decreases bytes.len() - pos,
{
    if 0 <= pos < bytes.len() {
        let step = c_family_step(bytes, pos, state, start);
        let rest = c_family_scan(bytes, step.next, step.state, step.start);
        match step.emit {
            Some(span) => seq![span] + rest,
            None => rest,
        }
    } else {
        Seq::empty()
    }
}

/// The comments of a Java, JavaScript or TypeScript text.
pub open spec fn c_family_spans(bytes: Seq<u8>) -> Seq<Span> {
    c_family_scan(bytes, 0, CFamilyState::Code, 0)
}

/// The state in which the scanner stops at offset `target` when it sets out
/// from `pos` in `state`, or `None` when it steps over that offset.
pub open spec fn c_family_state_from(
    bytes: Seq<u8>,
    pos: int,
    state: CFamilyState,
    target: int,
) -> Option<CFamilyState>
    decreases bytes.len() - pos,
{
    if pos == target {
        Some(state)
    } else if 0 <= pos < bytes.len() && pos < target {
        let step = c_family_step(bytes, pos, state, 0);
        c_family_state_from(bytes, step.next, step.state, target)
    } else {
        None
    }
}

/// The state in which the scanner of a whole text stops at offset `target`.
pub open spec fn c_family_state_at(bytes: Seq<u8>, target: int) -> Option<CFamilyState> {
    c_family_state_from(bytes, 0, CFamilyState::Code, target)
}

/// What holds of one comment of a C-family text: it is not empty and lies in
/// the text; a line comment begins with `//`, holds no line feed and ends
/// before one; a block comment begins with `/*` and ends before the first
/// `*/` behind that marker.
pub open spec fn c_family_span_well_formed(bytes: Seq<u8>, span: Span) -> bool {
    &&& 0 <= span.start
    &&& span.start + 2 <= span.end < bytes.len()
    &&& match span.kind {
        CommentType::SingleLine => {
            &&& opens_line_comment(bytes, span.start)
            &&& forall|k: int| span.start <= k < span.end ==> !byte_is(bytes, k, NEWLINE)
            &&& byte_is(bytes, span.end, NEWLINE)
        },
        CommentType::MultiLine => {
            &&& opens_block_comment(bytes, span.start)
            &&& forall|k: int|
                span.start + 2 <= k < span.end ==> !closes_block_comment(bytes, k)
            &&& closes_block_comment(bytes, span.end)
        },
    }
}

/// What holds of the comments of a C-family text together: each is well
/// formed, each ends before the next begins, and each begins where the
/// scanner is in code, outside every literal.
pub open spec fn c_family_spans_well_formed(bytes: Seq<u8>, spans: Seq<Span>) -> bool {
    &&& forall|i: int| 0 <= i < spans.len() ==> c_family_span_well_formed(bytes, #[trigger] spans[i])
    &&& forall|i: int, j: int|
        0 <= i < j < spans.len() ==> (#[trigger] spans[i]).end < (#[trigger] spans[j]).start
    &&& forall|i: int|
        0 <= i < spans.len() ==> c_family_state_at(bytes, (#[trigger] spans[i]).start) == Some(
            CFamilyState::Code,
        )
}

/// True in the two states in which a comment is open.
pub open spec fn in_comment(state: CFamilyState) -> bool {
    state == CFamilyState::SingleLineComment || state == CFamilyState::MultiLineComment
}

/// What has been seen of the comment that is open in `state` when the
/// scanner is at `pos`.
pub open spec fn c_family_open_comment(
    bytes: Seq<u8>,
    pos: int,
    state: CFamilyState,
    start: int,
) -> bool {
    match state {
        CFamilyState::SingleLineComment => {
            &&& 0 <= start
            &&& start + 2 <= pos
            &&& opens_line_comment(bytes, start)
            &&& forall|k: int| start <= k < pos ==> !byte_is(bytes, k, NEWLINE)
        },
        CFamilyState::MultiLineComment => {
            &&& 0 <= start
            &&& start + 2 <= pos
            &&& opens_block_comment(bytes, start)
            &&& forall|k: int| start + 2 <= k < pos ==> !closes_block_comment(bytes, k)
        },
        _ => true,
    }
}

/// The comments closed from `pos` on are well formed and in order, and none
/// begins before `pos` but the one that is open there.
proof fn lemma_scan_well_formed(bytes: Seq<u8>, pos: int, state: CFamilyState, start: int)
    requires
        0 <= pos <= bytes.len(),
        c_family_open_comment(bytes, pos, state, start),
    ensures
        ({
            let spans = c_family_scan(bytes, pos, state, start);
            &&& forall|i: int|
                0 <= i < spans.len() ==> c_family_span_well_formed(bytes, #[trigger] spans[i])
            &&& forall|i: int, j: int|
                0 <= i < j < spans.len() ==> (#[trigger] spans[i]).end < (
                #[trigger] spans[j]).start
            &&& forall|i: int| 0 <= i < spans.len() ==> pos <= (#[trigger] spans[i]).end
            &&& forall|i: int|
                0 <= i < spans.len() && (!in_comment(state) || i > 0) ==> pos <= (
                #[trigger] spans[i]).start
            &&& spans.len() > 0 && in_comment(state) ==> spans[0].start == start
        }),
    decreases bytes.len() - pos,
{
    if pos < bytes.len() {
        let step = c_family_step(bytes, pos, state, start);
        lemma_scan_well_formed(bytes, step.next, step.state, step.start);
        let rest = c_family_scan(bytes, step.next, step.state, step.start);
        let spans = c_family_scan(bytes, pos, state, start);
        match step.emit {
            Some(span) => {
                assert(spans =~= seq![span] + rest);
                assert(c_family_span_well_formed(bytes, span));
                assert forall|i: int| 0 <= i < spans.len() implies c_family_span_well_formed(
                    bytes,
                    #[trigger] spans[i],
                ) && pos <= spans[i].end && (i > 0 ==> pos <= spans[i].start) by {
                    if i > 0 {
                        assert(spans[i] == rest[i - 1]);
                    }
                }
                assert forall|i: int, j: int| 0 <= i < j < spans.len() implies (
                #[trigger] spans[i]).end < (#[trigger] spans[j]).start by {
                    assert(spans[j] == rest[j - 1]);
                    if i > 0 {
                        assert(spans[i] == rest[i - 1]);
                    }
                }
            },
            None => {
                assert(spans =~= rest);
            },
        }
    }
}

/// Where the scanner has got to from `pos` it would also get to from any
/// offset at which it stops on the way.
proof fn lemma_state_from_resumes(
    bytes: Seq<u8>,
    pos: int,
    state: CFamilyState,
    mid: int,
    mid_state: CFamilyState,
    target: int,
)
    requires
        c_family_state_from(bytes, pos, state, mid) == Some(mid_state),
        mid <= target,
    ensures
        c_family_state_from(bytes, pos, state, target) == c_family_state_from(
            bytes,
            mid,
            mid_state,
            target,
        ),
    decreases bytes.len() - pos,
{
    if pos != mid {
        let step = c_family_step(bytes, pos, state, 0);
        lemma_state_from_resumes(bytes, step.next, step.state, mid, mid_state, target);
    }
}

/// Every comment closed from `pos` on begins where the scanner is in code.
proof fn lemma_scan_opens_in_code(bytes: Seq<u8>, pos: int, state: CFamilyState, start: int)
    requires
        0 <= pos <= bytes.len(),
        c_family_state_at(bytes, pos) == Some(state),
        in_comment(state) ==> c_family_state_at(bytes, start) == Some(CFamilyState::Code),
    ensures
        ({
            let spans = c_family_scan(bytes, pos, state, start);
            forall|i: int|
                0 <= i < spans.len() ==> c_family_state_at(bytes, (#[trigger] spans[i]).start)
                    == Some(CFamilyState::Code)
        }),
    decreases bytes.len() - pos,
{
    if pos < bytes.len() {
        let step = c_family_step(bytes, pos, state, start);
        let bare = c_family_step(bytes, pos, state, 0);
        assert(bare.next == step.next && bare.state == step.state);
        lemma_state_from_resumes(bytes, 0, CFamilyState::Code, pos, state, step.next);
        assert(c_family_state_from(bytes, step.next, step.state, step.next) == Some(step.state));
        lemma_scan_opens_in_code(bytes, step.next, step.state, step.start);
        let rest = c_family_scan(bytes, step.next, step.state, step.start);
        let spans = c_family_scan(bytes, pos, state, start);
        match step.emit {
            Some(span) => {
                assert(spans =~= seq![span] + rest);
                assert forall|i: int| 0 <= i < spans.len() implies c_family_state_at(
                    bytes,
                    (#[trigger] spans[i]).start,
                ) == Some(CFamilyState::Code) by {
                    if i > 0 {
                        assert(spans[i] == rest[i - 1]);
                    }
                }
            },
            None => {
                assert(spans =~= rest);
            },
        }
    }
}

/// The comments of every C-family text are well formed.
pub proof fn lemma_c_family_spans_well_formed(bytes: Seq<u8>)
    ensures
        c_family_spans_well_formed(bytes, c_family_spans(bytes)),
{
    lemma_scan_well_formed(bytes, 0, CFamilyState::Code, 0);
    lemma_scan_opens_in_code(bytes, 0, CFamilyState::Code, 0);
}

/// Extracts the comments of a Java, JavaScript or TypeScript text.
///
/// `//` opens a comment that the next line feed closes; `/*` opens one that
/// the next `*/` closes. Neither is recognised inside a string or character
/// literal, where a backslash hides the scalar value behind it. The range of
/// a comment begins at its opening marker and ends before the line feed or
/// the closing marker. A comment that is still open at the end of the text is
/// dropped.
pub fn extract_java_comments(content: &str) -> (comments: Vec<CommentMatch>)
    ensures
        span_views(comments@) == c_family_spans(content.spec_bytes()),
        c_family_spans_well_formed(content.spec_bytes(), span_views(comments@)),
{
    let bytes = content.as_bytes();
    let n = bytes.len();
    let mut comments: Vec<CommentMatch> = Vec::new();
    let mut state = CFamilyState::Code;
    let mut start: usize = 0;
    let mut pos: usize = 0;
    proof {
        encode_utf8_valid_utf8(content@);
        assert(span_views(comments@) =~= Seq::<Span>::empty());
    }
    while pos < n
        invariant
            n == bytes@.len(),
            pos <= n,
            valid_utf8(bytes@),
            span_views(comments@) + c_family_scan(bytes@, pos as int, state, start as int)
                == c_family_spans(bytes@),
        decreases n - pos,
    {
        let b = bytes[pos];
        let ghost before = span_views(comments@);
        let ghost step = c_family_step(bytes@, pos as int, state, start as int);
        match state {
            CFamilyState::Code => {
                if b == SLASH && pos + 1 < n && bytes[pos + 1] == SLASH {
                    start = pos;
                    state = CFamilyState::SingleLineComment;
                    pos += 2;
                } else if b == SLASH && pos + 1 < n && bytes[pos + 1] == STAR {
                    start = pos;
                    state = CFamilyState::MultiLineComment;
                    pos += 2;
                } else if b == DOUBLE_QUOTE {
                    state = CFamilyState::StringLiteral;
                    pos += 1;
                } else if b == SINGLE_QUOTE {
                    state = CFamilyState::CharLiteral;
                    pos += 1;
                } else {
                    pos += 1;
                }
            },
            CFamilyState::SingleLineComment => {
                if b == NEWLINE {
                    comments.push(
                        CommentMatch {
                            start_byte: start,
                            end_byte: pos,
                            comment_type: CommentType::SingleLine,
                        },
                    );
                    state = CFamilyState::Code;
                }
                pos += 1;
            },
            CFamilyState::MultiLineComment => {
                if b == STAR && pos + 1 < n && bytes[pos + 1] == SLASH {
                    comments.push(
                        CommentMatch {
                            start_byte: start,
                            end_byte: pos,
                            comment_type: CommentType::MultiLine,
                        },
                    );
                    state = CFamilyState::Code;
                    pos += 2;
                } else {
                    pos += 1;
                }
            },
            CFamilyState::StringLiteral => {
                if b == BACKSLASH {
                    pos = skip_escape(bytes, pos);
                } else if b == DOUBLE_QUOTE {
                    state = CFamilyState::Code;
                    pos += 1;
                } else {
                    pos += 1;
                }
            },
            CFamilyState::CharLiteral => {
                if b == BACKSLASH {
                    pos = skip_escape(bytes, pos);
                } else if b == SINGLE_QUOTE {
                    state = CFamilyState::Code;
                    pos += 1;
                } else {
                    pos += 1;
                }
            },
        }
        proof {
            assert(pos == step.next && state == step.state && start == step.start);
            let rest = c_family_scan(bytes@, pos as int, state, start as int);
            match step.emit {
                Some(span) => {
                    assert(span_views(comments@) =~= before.push(span));
                    assert(before.push(span) + rest =~= before + (seq![span] + rest));
                },
                None => {
                    assert(span_views(comments@) =~= before);
                },
            }
        }
    }
    proof {
        assert(c_family_scan(bytes@, pos as int, state, start as int) =~= Seq::<Span>::empty());
        lemma_c_family_spans_well_formed(bytes@);
    }
    comments
}

} // verus!
