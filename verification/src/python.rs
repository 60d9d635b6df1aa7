//! The scanner for Python.

use crate::parser::span_views;
use crate::parser::CommentMatch;
use crate::scan::byte_is;
use crate::scan::escape_end;
use crate::scan::skip_escape;
use crate::scan::CommentType;
use crate::scan::Span;
use crate::scan::Step;
use crate::scan::BACKSLASH;
use crate::scan::DOUBLE_QUOTE;
use crate::scan::HASH;
use crate::scan::NEWLINE;
use crate::scan::SINGLE_QUOTE;
use vstd::prelude::*;
use vstd::string::StringSliceAdditionalSpecFns;
use vstd::utf8::*;

verus! {

/// The states of the scanner. A literal remembers the quote that opened it.
#[derive(Clone, Copy, Debug, PartialEq, Eq, Structural)]
pub enum PythonState {
    Code,
    SingleLineComment,
    StringLiteral { quote: u8 },
    TripleQuotedString { quote: u8 },
}

/// True when `quote` stands three times in a row at offset `at`.
pub open spec fn triple_quote_at(bytes: Seq<u8>, at: int, quote: u8) -> bool {
    byte_is(bytes, at, quote) && byte_is(bytes, at + 1, quote) && byte_is(bytes, at + 2, quote)
}

/// The transition of the scanner at offset `pos`, in `state`, with `start`
/// the offset at which the open comment began.
pub open spec fn python_step(bytes: Seq<u8>, pos: int, state: PythonState, start: int) -> Step<
    PythonState,
> {
    let b = bytes[pos];
    match state {
        PythonState::Code => {
            if b == HASH {
                Step { state: PythonState::SingleLineComment, start: pos, next: pos + 1, emit: None }
            } else if b == DOUBLE_QUOTE || b == SINGLE_QUOTE {
                if triple_quote_at(bytes, pos, b) {
                    Step {
                        state: PythonState::TripleQuotedString { quote: b },
                        start,
                        next: pos + 3,
                        emit: None,
                    }
                } else {
                    Step {
                        state: PythonState::StringLiteral { quote: b },
                        start,
                        next: pos + 1,
                        emit: None,
                    }
                }
            } else {
                Step { state, start, next: pos + 1, emit: None }
            }
        },
        PythonState::SingleLineComment => {
            if b == NEWLINE {
                Step {
                    state: PythonState::Code,
                    start,
                    next: pos + 1,
                    emit: Some(Span { start, end: pos, kind: CommentType::SingleLine }),
                }
            } else {
                Step { state, start, next: pos + 1, emit: None }
            }
        },
        PythonState::StringLiteral { quote } => {
            if b == BACKSLASH {
                Step { state, start, next: escape_end(bytes, pos), emit: None }
            } else if b == quote {
                Step { state: PythonState::Code, start, next: pos + 1, emit: None }
            } else {
                Step { state, start, next: pos + 1, emit: None }
            }
        },
        PythonState::TripleQuotedString { quote } => {
            if triple_quote_at(bytes, pos, quote) {
                Step { state: PythonState::Code, start, next: pos + 3, emit: None }
            } else {
                Step { state, start, next: pos + 1, emit: None }
            }
        },
    }
}

/// The comments that the scanner closes from offset `pos` on, when it is
/// there in `state`. A comment still open at the end of input ends there.
pub open spec fn python_scan(bytes: Seq<u8>, pos: int, state: PythonState, start: int) -> Seq<Span>
    decreases bytes.len() - pos,
{
    if 0 <= pos < bytes.len() {
        let step = python_step(bytes, pos, state, start);
        let rest = python_scan(bytes, step.next, step.state, step.start);
        match step.emit {
            Some(span) => seq![span] + rest,
            None => rest,
        }
    } else if state == PythonState::SingleLineComment {
        seq![Span { start, end: bytes.len() as int, kind: CommentType::SingleLine }]
    } else {
        Seq::empty()
    }
}

/// The comments of a Python text.
pub open spec fn python_spans(bytes: Seq<u8>) -> Seq<Span> {
    python_scan(bytes, 0, PythonState::Code, 0)
}

/// The state in which the scanner stops at offset `target` when it sets out
/// from `pos` in `state`, or `None` when it steps over that offset.
pub open spec fn python_state_from(
    bytes: Seq<u8>,
    pos: int,
    state: PythonState,
    target: int,
) -> Option<PythonState>
    decreases bytes.len() - pos,
{
    if pos == target {
        Some(state)
    } else if 0 <= pos < bytes.len() && pos < target {
        let step = python_step(bytes, pos, state, 0);
        python_state_from(bytes, step.next, step.state, target)
    } else {
        None
    }
}

/// The state in which the scanner of a whole text stops at offset `target`.
pub open spec fn python_state_at(bytes: Seq<u8>, target: int) -> Option<PythonState> {
    python_state_from(bytes, 0, PythonState::Code, target)
}

/// What holds of one comment of a Python text: it lies in the text, begins
/// with `#`, holds no line feed, and ends before a line feed or with the
/// text.
pub open spec fn python_span_well_formed(bytes: Seq<u8>, span: Span) -> bool {
    &&& 0 <= span.start < span.end <= bytes.len()
    &&& span.kind == CommentType::SingleLine
    &&& byte_is(bytes, span.start, HASH)
    &&& forall|k: int| span.start <= k < span.end ==> !byte_is(bytes, k, NEWLINE)
    &&& span.end == bytes.len() || byte_is(bytes, span.end, NEWLINE)
}

/// What holds of the comments of a Python text together: each is well
/// formed, each ends before the next begins, and each begins where the
/// scanner is in code, outside every literal.
pub open spec fn python_spans_well_formed(bytes: Seq<u8>, spans: Seq<Span>) -> bool {
    &&& forall|i: int| 0 <= i < spans.len() ==> python_span_well_formed(bytes, #[trigger] spans[i])
    &&& forall|i: int, j: int|
        0 <= i < j < spans.len() ==> (#[trigger] spans[i]).end < (#[trigger] spans[j]).start
    &&& forall|i: int|
        0 <= i < spans.len() ==> python_state_at(bytes, (#[trigger] spans[i]).start) == Some(
            PythonState::Code,
        )
}

/// What has been seen of the comment that is open in `state` when the
/// scanner is at `pos`.
pub open spec fn python_open_comment(bytes: Seq<u8>, pos: int, state: PythonState, start: int) -> bool {
    state == PythonState::SingleLineComment ==> {
        &&& 0 <= start < pos
        &&& byte_is(bytes, start, HASH)
        &&& forall|k: int| start <= k < pos ==> !byte_is(bytes, k, NEWLINE)
    }
}

/// The comments closed from `pos` on are well formed and in order, and none
/// begins before `pos` but the one that is open there.
proof fn lemma_scan_well_formed(bytes: Seq<u8>, pos: int, state: PythonState, start: int)
    requires
        0 <= pos <= bytes.len(),
        python_open_comment(bytes, pos, state, start),
    ensures
        ({
            let spans = python_scan(bytes, pos, state, start);
            &&& forall|i: int|
                0 <= i < spans.len() ==> python_span_well_formed(bytes, #[trigger] spans[i])
            &&& forall|i: int, j: int|
                0 <= i < j < spans.len() ==> (#[trigger] spans[i]).end < (
                #[trigger] spans[j]).start
            &&& forall|i: int| 0 <= i < spans.len() ==> pos <= (#[trigger] spans[i]).end
            &&& forall|i: int|
                0 <= i < spans.len() && (state != PythonState::SingleLineComment || i > 0) ==> pos
                    <= (#[trigger] spans[i]).start
            &&& spans.len() > 0 && state == PythonState::SingleLineComment ==> spans[0].start
                == start
        }),
    decreases bytes.len() - pos,
{
    if pos < bytes.len() {
        let step = python_step(bytes, pos, state, start);
        lemma_scan_well_formed(bytes, step.next, step.state, step.start);
        let rest = python_scan(bytes, step.next, step.state, step.start);
        let spans = python_scan(bytes, pos, state, start);
        match step.emit {
            Some(span) => {
                assert(spans =~= seq![span] + rest);
                assert(python_span_well_formed(bytes, span));
                assert forall|i: int| 0 <= i < spans.len() implies python_span_well_formed(
                    bytes,
                    #[trigger] spans[i],
                ) && pos <= spans[i].end && (i > 0 ==> pos <= spans[i].start) by {
                    if i > 0 {
                        assert(spans[i] == rest[i - 1]);
                    }
                }
                assert forall|i: int, j: int| 0 <= i < j < spans.len() implies (
                #[trigger] spans[i]).end < (#[trigger] spans[j]).start by {
                    assert(spans[j] == rest[j - 1]);
                    if i > 0 {
                        assert(spans[i] == rest[i - 1]);
                    }
                }
            },
            None => {
                assert(spans =~= rest);
            },
        }
    }
}

/// Where the scanner has got to from `pos` it would also get to from any
/// offset at which it stops on the way.
proof fn lemma_state_from_resumes(
    bytes: Seq<u8>,
    pos: int,
    state: PythonState,
    mid: int,
    mid_state: PythonState,
    target: int,
)
    requires
        python_state_from(bytes, pos, state, mid) == Some(mid_state),
        mid <= target,
    ensures
        python_state_from(bytes, pos, state, target) == python_state_from(
            bytes,
            mid,
            mid_state,
            target,
        ),
    decreases bytes.len() - pos,
{
    if pos != mid {
        let step = python_step(bytes, pos, state, 0);
        lemma_state_from_resumes(bytes, step.next, step.state, mid, mid_state, target);
    }
}

/// Every comment closed from `pos` on begins where the scanner is in code.
proof fn lemma_scan_opens_in_code(bytes: Seq<u8>, pos: int, state: PythonState, start: int)
    requires
        0 <= pos <= bytes.len(),
        python_state_at(bytes, pos) == Some(state),
        state == PythonState::SingleLineComment ==> python_state_at(bytes, start) == Some(
            PythonState::Code,
        ),
    ensures
        ({
            let spans = python_scan(bytes, pos, state, start);
            forall|i: int|
                0 <= i < spans.len() ==> python_state_at(bytes, (#[trigger] spans[i]).start)
                    == Some(PythonState::Code)
        }),
    decreases bytes.len() - pos,
{
    if pos < bytes.len() {
        let step = python_step(bytes, pos, state, start);
        let bare = python_step(bytes, pos, state, 0);
        assert(bare.next == step.next && bare.state == step.state);
        lemma_state_from_resumes(bytes, 0, PythonState::Code, pos, state, step.next);
        assert(python_state_from(bytes, step.next, step.state, step.next) == Some(step.state));
        lemma_scan_opens_in_code(bytes, step.next, step.state, step.start);
        let rest = python_scan(bytes, step.next, step.state, step.start);
        let spans = python_scan(bytes, pos, state, start);
        match step.emit {
            Some(span) => {
                assert(spans =~= seq![span] + rest);
                assert forall|i: int| 0 <= i < spans.len() implies python_state_at(
                    bytes,
                    (#[trigger] spans[i]).start,
                ) == Some(PythonState::Code) by {
                    if i > 0 {
                        assert(spans[i] == rest[i - 1]);
                    }
                }
            },
            None => {
                assert(spans =~= rest);
            },
        }
    }
}

/// The comments of every Python text are well formed.
pub proof fn lemma_python_spans_well_formed(bytes: Seq<u8>)
    ensures
        python_spans_well_formed(bytes, python_spans(bytes)),
{
    lemma_scan_well_formed(bytes, 0, PythonState::Code, 0);
    lemma_scan_opens_in_code(bytes, 0, PythonState::Code, 0);
}

/// Extracts the comments of a Python text.
///
/// `#` opens a comment that the next line feed closes, or the end of the
/// text. It is not recognised inside a string literal, where a backslash
/// hides the scalar value behind it, nor inside a triple-quoted string, which
/// only three of its own quotes in a row close. The range of a comment begins
/// at its `#` and ends before the line feed.
pub fn extract_python_comments(content: &str) -> (comments: Vec<CommentMatch>)
    ensures
        span_views(comments@) == python_spans(content.spec_bytes()),
        python_spans_well_formed(content.spec_bytes(), span_views(comments@)),
{
    let bytes = content.as_bytes();
    let n = bytes.len();
    let mut comments: Vec<CommentMatch> = Vec::new();
    let mut state = PythonState::Code;
    let mut start: usize = 0;
    let mut pos: usize = 0;
    proof {
        encode_utf8_valid_utf8(content@);
        assert(span_views(comments@) =~= Seq::<Span>::empty());
    }
    while pos < n
        invariant
            n == bytes@.len(),
            pos <= n,
            valid_utf8(bytes@),
            span_views(comments@) + python_scan(bytes@, pos as int, state, start as int)
                == python_spans(bytes@),
        decreases n - pos,
    {
        let b = bytes[pos];
        let ghost before = span_views(comments@);
        let ghost step = python_step(bytes@, pos as int, state, start as int);
        match state {
            PythonState::Code => {
                if b == HASH {
                    start = pos;
                    state = PythonState::SingleLineComment;
                    pos += 1;
                } else if b == DOUBLE_QUOTE || b == SINGLE_QUOTE {
                    if n - pos >= 3 && bytes[pos + 1] == b && bytes[pos + 2] == b {
                        state = PythonState::TripleQuotedString { quote: b };
                        pos += 3;
                    } else {
                        state = PythonState::StringLiteral { quote: b };
                        pos += 1;
                    }
                } else {
                    pos += 1;
                }
            },
            PythonState::SingleLineComment => {
                if b == NEWLINE {
                    comments.push(
                        CommentMatch {
                            start_byte: start,
                            end_byte: pos,
                            comment_type: CommentType::SingleLine,
                        },
                    );
                    state = PythonState::Code;
                }
                pos += 1;
            },
            PythonState::StringLiteral { quote } => {
                if b == BACKSLASH {
                    pos = skip_escape(bytes, pos);
                } else if b == quote {
                    state = PythonState::Code;
                    pos += 1;
                } else {
                    pos += 1;
                }
            },
            PythonState::TripleQuotedString { quote } => {
                if b == quote && n - pos >= 3 && bytes[pos + 1] == quote && bytes[pos + 2]
                    == quote {
                    state = PythonState::Code;
                    pos += 3;
                } else {
                    pos += 1;
                }
            },
        }
        proof {
            assert(pos == step.next && state == step.state && start == step.start);
            let rest = python_scan(bytes@, pos as int, state, start as int);
            match step.emit {
                Some(span) => {
                    assert(span_views(comments@) =~= before.push(span));
                    assert(before.push(span) + rest =~= before + (seq![span] + rest));
                },
                None => {
                    assert(span_views(comments@) =~= before);
                },
            }
        }
    }
    let ghost before = span_views(comments@);
    if let PythonState::SingleLineComment = state {
        comments.push(
            CommentMatch { start_byte: start, end_byte: n, comment_type: CommentType::SingleLine },
        );
    }
    proof {
        let rest = python_scan(bytes@, pos as int, state, start as int);
        if state == PythonState::SingleLineComment {
            assert(span_views(comments@) =~= before + rest);
        } else {
            assert(rest =~= Seq::<Span>::empty());
            assert(span_views(comments@) =~= before + rest);
        }
        lemma_python_spans_well_formed(bytes@);
    }
    comments
}

} // verus!
