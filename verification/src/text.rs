//! Strings as UTF-8 bytes: equality, byte ranges and substring search.

use vstd::prelude::*;
use vstd::string::StringSliceAdditionalSpecFns;
use vstd::utf8::*;

verus! {

/// True when `needle` stands in `haystack` at offset `at`.
pub open spec fn occurs_at(haystack: Seq<u8>, needle: Seq<u8>, at: int) -> bool {
    &&& 0 <= at
    &&& at + needle.len() <= haystack.len()
    &&& haystack.subrange(at, at + needle.len()) == needle
}

/// True when `needle` stands somewhere in `haystack`.
pub open spec fn contains(haystack: Seq<u8>, needle: Seq<u8>) -> bool {
    exists|at: int| occurs_at(haystack, needle, at)
}

/// The least offset from `from` on at which `needle` stands in `haystack`.
pub open spec fn first_occurrence_from(haystack: Seq<u8>, needle: Seq<u8>, from: int) -> Option<
    int,
>
    decreases haystack.len() + 1 - from,
{
    if from < 0 || from + needle.len() > haystack.len() {
        None
    } else if occurs_at(haystack, needle, from) {
        Some(from)
    } else {
        first_occurrence_from(haystack, needle, from + 1)
    }
}

/// The least offset at which `needle` stands in `haystack`.
pub open spec fn first_occurrence(haystack: Seq<u8>, needle: Seq<u8>) -> Option<int> {
    first_occurrence_from(haystack, needle, 0)
}

/// The first occurrence from `from` on is an occurrence, nothing occurs
/// between `from` and it, and where there is none nothing occurs from `from`
/// on.
pub proof fn lemma_first_occurrence_from(haystack: Seq<u8>, needle: Seq<u8>, from: int)
    requires
        0 <= from,
    ensures
        match first_occurrence_from(haystack, needle, from) {
            Some(at) => {
                &&& from <= at
                &&& occurs_at(haystack, needle, at)
                &&& forall|k: int| from <= k < at ==> !occurs_at(haystack, needle, k)
            },
            None => forall|k: int| from <= k ==> !occurs_at(haystack, needle, k),
        },
    decreases haystack.len() + 1 - from,
{
    if from + needle.len() <= haystack.len() && !occurs_at(haystack, needle, from) {
        lemma_first_occurrence_from(haystack, needle, from + 1);
    }
}

/// A string is found exactly where it occurs first, and is found if and only
/// if it occurs at all.
pub proof fn lemma_first_occurrence(haystack: Seq<u8>, needle: Seq<u8>)
    ensures
        first_occurrence(haystack, needle) is Some <==> contains(haystack, needle),
        match first_occurrence(haystack, needle) {
            Some(at) => {
                &&& occurs_at(haystack, needle, at)
                &&& forall|k: int| k < at ==> !occurs_at(haystack, needle, k)
            },
            None => true,
        },
{
    lemma_first_occurrence_from(haystack, needle, 0);
}

/// Tells whether `needle` stands in `haystack` at offset `at`.
pub fn matches_at(haystack: &[u8], needle: &[u8], at: usize) -> (found: bool)
    ensures
        found == occurs_at(haystack@, needle@, at as int),
{
    let n = haystack.len();
    let m = needle.len();
    if at > n || m > n - at {
        return false;
    }
    let mut j: usize = 0;
    while j < m
        invariant
            n == haystack@.len(),
            m == needle@.len(),
            j <= m,
            at + m <= n,
            forall|k: int| 0 <= k < j ==> haystack@[at + k] == needle@[k],
        decreases m - j,
    {
        if haystack[at + j] != needle[j] {
            assert(haystack@.subrange(at as int, at + m)[j as int] != needle@[j as int]);
            return false;
        }
        j += 1;
    }
    assert(haystack@.subrange(at as int, at + m) =~= needle@);
    true
}

/// Finds the first occurrence of `needle` in `haystack`.
pub fn find(haystack: &[u8], needle: &[u8]) -> (found: Option<usize>)
    ensures
        match found {
            Some(at) => first_occurrence(haystack@, needle@) == Some(at as int),
            None => first_occurrence(haystack@, needle@) is None,
        },
        found is Some <==> contains(haystack@, needle@),
{
    let n = haystack.len();
    let m = needle.len();
    proof {
        lemma_first_occurrence(haystack@, needle@);
    }
    if m > n {
        return None;
    }
    let last = n - m;
    let mut at: usize = 0;
    loop
        invariant
            n == haystack@.len(),
            m == needle@.len(),
            last == n - m,
            at <= last,
            first_occurrence(haystack@, needle@) == first_occurrence_from(
                haystack@,
                needle@,
                at as int,
            ),
        decreases last - at,
    {
        proof {
            lemma_first_occurrence(haystack@, needle@);
        }
        if matches_at(haystack, needle, at) {
            return Some(at);
        }
        if at == last {
            assert(first_occurrence_from(haystack@, needle@, at + 1) is None);
            return None;
        }
        at += 1;
    }
}

/// Tells whether two byte strings are equal.
pub fn bytes_equal(a: &[u8], b: &[u8]) -> (equal: bool)
    ensures
        equal == (a@ == b@),
{
    if a.len() != b.len() {
        return false;
    }
    let found = matches_at(a, b, 0);
    proof {
        assert(a@.subrange(0, a@.len() as int) =~= a@);
    }
    found
}

/// Two strings are equal exactly when their encodings are.
pub proof fn lemma_equal_by_bytes(a: Seq<char>, b: Seq<char>)
    ensures
        (encode_utf8(a) == encode_utf8(b)) == (a == b),
{
    encode_utf8_decode_utf8(a);
    encode_utf8_decode_utf8(b);
}

/// Tells whether two strings are equal.
pub fn str_equal(a: &str, b: &str) -> (equal: bool)
    ensures
        equal == (a@ == b@),
{
    proof {
        lemma_equal_by_bytes(a@, b@);
    }
    bytes_equal(a.as_bytes(), b.as_bytes())
}

/// Behind the scalar value that begins at the boundary `at` lies the next
/// boundary.
pub proof fn lemma_boundary_shift(bytes: Seq<u8>, at: int, width: int)
    requires
        valid_utf8(bytes),
        is_char_boundary(bytes, at),
        0 <= at < bytes.len(),
        width == length_of_first_scalar(bytes.subrange(at, bytes.len() as int)),
    ensures
        at + width <= bytes.len(),
        is_char_boundary(bytes, at + width),
    decreases bytes.len(),
{
    let n = bytes.len() as int;
    if at == 0 {
        assert(bytes.subrange(0, n) =~= bytes);
        is_char_boundary_start_end_of_seq(pop_first_scalar(bytes));
        reveal_with_fuel(is_char_boundary, 2);
    } else {
        let first = length_of_first_scalar(bytes);
        let tail = pop_first_scalar(bytes);
        reveal_with_fuel(is_char_boundary, 2);
        assert(is_char_boundary(tail, at - first));
        assert(at - first >= 0);
        assert(tail.subrange(at - first, tail.len() as int) =~= bytes.subrange(at, n));
        lemma_boundary_shift(tail, at - first, width);
    }
}

/// An ASCII byte of well-formed UTF-8 stands between two boundaries.
pub proof fn lemma_ascii_between_boundaries(bytes: Seq<u8>, at: int)
    requires
        valid_utf8(bytes),
        0 <= at < bytes.len(),
        bytes[at] <= 0x7f,
    ensures
        is_char_boundary(bytes, at),
        is_char_boundary(bytes, at + 1),
{
    is_char_boundary_iff_not_is_continuation_byte(bytes, at);
    assert(bytes.subrange(at, bytes.len() as int)[0] == bytes[at]);
    lemma_boundary_shift(bytes, at, 1);
}

/// The encoding of two strings in a row is the encoding of the first, then
/// that of the second.
pub proof fn lemma_encode_concat(a: Seq<char>, b: Seq<char>)
    ensures
        encode_utf8(a + b) == encode_utf8(a) + encode_utf8(b),
    decreases a.len(),
{
    if a.len() == 0 {
        assert(a + b =~= b);
        assert(encode_utf8(a) + encode_utf8(b) =~= encode_utf8(b));
    } else {
        lemma_encode_concat(a.drop_first(), b);
        assert((a + b).drop_first() =~= a.drop_first() + b);
        assert(encode_utf8(a + b) =~= encode_utf8(a) + encode_utf8(b));
    }
}

/// The offset in the encoding of `text` at which its scalar value of index
/// `index` begins.
pub open spec fn byte_offset(text: Seq<char>, index: int) -> int {
    encode_utf8(text.take(index)).len() as int
}

/// The offsets of scalar values ascend by the widths of their encodings, lie
/// in the encoding and are boundaries of it, and the bytes between two of
/// them encode the scalar values between them.
pub proof fn lemma_byte_offsets(text: Seq<char>, from: int, to: int)
    requires
        0 <= from <= to <= text.len(),
    ensures
        0 <= byte_offset(text, from) <= byte_offset(text, to) <= encode_utf8(text).len(),
        byte_offset(text, text.len() as int) == encode_utf8(text).len(),
        is_char_boundary(encode_utf8(text), byte_offset(text, from)),
        is_char_boundary(encode_utf8(text), byte_offset(text, to)),
        encode_utf8(text).subrange(byte_offset(text, from), byte_offset(text, to)) == encode_utf8(
            text.subrange(from, to),
        ),
        to < text.len() ==> byte_offset(text, to + 1) == byte_offset(text, to) + encode_scalar(
            text[to] as u32,
        ).len(),
{
    let head = text.take(from);
    let middle = text.subrange(from, to);
    let tail = text.skip(to);
    assert(text.take(to) =~= head + middle);
    assert(text =~= text.take(to) + tail);
    assert(text.take(text.len() as int) =~= text);
    lemma_encode_concat(head, middle);
    lemma_encode_concat(text.take(to), tail);
    assert(encode_utf8(text).subrange(byte_offset(text, from), byte_offset(text, to))
        =~= encode_utf8(middle));
    lemma_prefix_boundary(text, from);
    lemma_prefix_boundary(text, to);
    if to < text.len() {
        assert(text.take(to + 1) =~= text.take(to) + seq![text[to]]);
        lemma_encode_concat(text.take(to), seq![text[to]]);
        assert(seq![text[to]].drop_first() =~= Seq::<char>::empty());
        assert(encode_utf8(seq![text[to]]) =~= encode_scalar(text[to] as u32)) by {
            reveal_with_fuel(encode_utf8, 2);
        }
    }
}

/// The encoding of a prefix ends on a boundary of the whole encoding.
proof fn lemma_prefix_boundary(text: Seq<char>, index: int)
    requires
        0 <= index <= text.len(),
    ensures
        is_char_boundary(encode_utf8(text), byte_offset(text, index)),
    decreases index,
{
    encode_utf8_valid_utf8(text);
    if index == 0 {
        assert(text.take(0) =~= Seq::<char>::empty());
    } else {
        let rest = text.drop_first();
        encode_utf8_first_scalar(text);
        assert(pop_first_scalar(encode_utf8(text)) =~= encode_utf8(rest));
        lemma_prefix_boundary(rest, index - 1);
        assert(text.take(index) =~= seq![text[0]] + rest.take(index - 1));
        lemma_encode_concat(seq![text[0]], rest.take(index - 1));
        assert(seq![text[0]].drop_first() =~= Seq::<char>::empty());
        assert(encode_utf8(seq![text[0]]) =~= encode_scalar(text[0] as u32)) by {
            reveal_with_fuel(encode_utf8, 2);
        }
        assert(is_char_boundary(encode_utf8(text), byte_offset(text, index))) by {
            reveal_with_fuel(is_char_boundary, 2);
        }
    }
}

/// The number of bytes in the encoding of a scalar value.
pub fn utf8_width(c: char) -> (width: usize)
    ensures
        width == encode_scalar(c as u32).len(),
        1 <= width <= 4,
{
    let scalar = c as u32;
    if scalar <= 0x7f {
        1
    } else if scalar <= 0x7ff {
        2
    } else if scalar <= 0xffff {
        proof {
            char_is_scalar(c);
        }
        3
    } else {
        4
    }
}

/// The part of `content` between two boundaries of scalar values.
pub(crate) fn slice<'a>(content: &'a str, start: usize, end: usize) -> (part: &'a str)
    requires
        start <= end <= content.spec_bytes().len(),
        is_char_boundary(content.spec_bytes(), start as int),
        is_char_boundary(content.spec_bytes(), end as int),
    ensures
        part.spec_bytes() == content.spec_bytes().subrange(start as int, end as int),
{
    let (head, _) = content.split_at(end);
    proof {
        let bytes = content.spec_bytes();
        let head_bytes = head.spec_bytes();
        encode_utf8_valid_utf8(content@);
        encode_utf8_valid_utf8(head@);
        assert(head_bytes =~= bytes.subrange(0, end as int));
        if start < end {
            is_char_boundary_iff_not_is_continuation_byte(bytes, start as int);
            is_char_boundary_iff_not_is_continuation_byte(head_bytes, start as int);
        } else {
            is_char_boundary_start_end_of_seq(head_bytes);
        }
    }
    let (_, part) = head.split_at(start);
    assert(part.spec_bytes() =~= content.spec_bytes().subrange(start as int, end as int));
    part
}

} // verus!
