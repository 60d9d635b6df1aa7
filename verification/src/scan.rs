//! What the scanners of all languages share: the bytes that matter to them,
//! the shape of a transition, and how an escape is stepped over.

use crate::text::lemma_boundary_shift;
use vstd::prelude::*;
use vstd::utf8::*;

verus! {

/// The line feed, which ends a line.
pub const NEWLINE: u8 = 0x0a;

/// The quote `"`.
pub const DOUBLE_QUOTE: u8 = 0x22;

/// The sign `#`.
pub const HASH: u8 = 0x23;

/// The quote `'`.
pub const SINGLE_QUOTE: u8 = 0x27;

/// The sign `*`.
pub const STAR: u8 = 0x2a;

/// The sign `/`.
pub const SLASH: u8 = 0x2f;

/// The backslash, which escapes the scalar value behind it.
pub const BACKSLASH: u8 = 0x5c;

/// Whether a comment runs to the end of its line or is closed by a marker.
#[derive(Clone, Copy, Debug, PartialEq, Eq, Structural)]
pub enum CommentType {
    SingleLine,
    MultiLine,
}

/// A comment as a range of byte offsets, `start` included and `end` not.
pub struct Span {
    pub start: int,
    pub end: int,
    pub kind: CommentType,
}

/// One transition of a scanner: the state it enters, the start of the comment
/// that is open in that state, the offset it moves to, and the comment it has
/// just closed.
pub struct Step<S> {
    pub state: S,
    pub start: int,
    pub next: int,
    pub emit: Option<Span>,
}

/// True when `bytes` holds the byte `b` at offset `at`.
pub open spec fn byte_is(bytes: Seq<u8>, at: int, b: u8) -> bool {
    0 <= at < bytes.len() && bytes[at] == b
}

/// The offset just behind the scalar value that follows the backslash at
/// `pos`: an escape consumes the next scalar value whatever it is. At the end
/// of input there is nothing to consume, and no escape reaches past the end.
pub open spec fn escape_end(bytes: Seq<u8>, pos: int) -> int {
    if pos + 1 < bytes.len() {
        let width = length_of_first_scalar(bytes.subrange(pos + 1, bytes.len() as int));
        if pos + 1 + width <= bytes.len() {
            pos + 1 + width
        } else {
            bytes.len() as int
        }
    } else {
        pos + 1
    }
}

/// The number of bytes in the encoding of the scalar value whose first byte
/// is `lead`.
pub fn scalar_width(lead: u8) -> (width: usize)
    ensures
        1 <= width <= 4,
        forall|bytes: Seq<u8>|
            bytes.len() > 0 && bytes[0] == lead ==> width == #[trigger] length_of_first_scalar(
                bytes,
            ),
{
    if lead <= 0x7f {
        1
    } else if 0xc0 <= lead && lead <= 0xdf {
        2
    } else if 0xe0 <= lead && lead <= 0xef {
        3
    } else {
        4
    }
}

/// Skips the backslash at `pos` and the scalar value behind it.
pub(crate) fn skip_escape(bytes: &[u8], pos: usize) -> (next: usize)
    requires
        valid_utf8(bytes@),
        byte_is(bytes@, pos as int, BACKSLASH),
    ensures
        next == escape_end(bytes@, pos as int),
        pos < next <= bytes@.len(),
{
    let n = bytes.len();
    proof {
        lemma_escape_ends_on_boundary(bytes@, pos as int);
    }
    if pos + 1 < n {
        let width = scalar_width(bytes[pos + 1]);
        assert(bytes@.subrange(pos + 1, n as int)[0] == bytes@[pos + 1]);
        pos + 1 + width
    } else {
        pos + 1
    }
}

/// On well-formed UTF-8 an escape ends where the escaped scalar value ends:
/// the clamp in [`escape_end`] never cuts a scalar value short, and the
/// offset reached is a boundary between scalar values.
pub proof fn lemma_escape_ends_on_boundary(bytes: Seq<u8>, pos: int)
    requires
        valid_utf8(bytes),
        byte_is(bytes, pos, BACKSLASH),
    ensures
        is_char_boundary(bytes, pos + 1),
        is_char_boundary(bytes, escape_end(bytes, pos)),
        pos + 1 < bytes.len() ==> escape_end(bytes, pos) == pos + 1 + length_of_first_scalar(
            bytes.subrange(pos + 1, bytes.len() as int),
        ),
{
    let n = bytes.len() as int;
    is_char_boundary_iff_not_is_continuation_byte(bytes, pos);
    valid_utf8_split(bytes, pos);
    let tail = bytes.subrange(pos, n);
    assert(tail[0] == BACKSLASH);
    assert(length_of_first_scalar(tail) == 1);
    assert(pop_first_scalar(tail) =~= bytes.subrange(pos + 1, n));
    let rest = bytes.subrange(pos + 1, n);
    assert(valid_utf8(rest));
    lemma_boundary_shift(bytes, pos, 1);
    if pos + 1 < n {
        let width = length_of_first_scalar(rest);
        assert(valid_first_scalar(rest));
        assert(pos + 1 + width <= n);
        lemma_boundary_shift(bytes, pos + 1, width);
    }
}

} // verus!
