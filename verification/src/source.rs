//! Source files as the library holds them.

use vstd::prelude::*;
use vstd::string::StringSliceAdditionalSpecFns;

verus! {

/// One file of a scan: its display name, the path it was read from, and its
/// content with every line ending in a single line feed.
#[derive(Debug)]
pub struct SourceFile {
    pub name: String,
    pub path: String,
    pub content: String,
}

/// A text with its line endings made uniform: every carriage return becomes
/// a line feed, and a line feed directly behind a carriage return is dropped,
/// so that each of `\r\n`, `\r` and `\n` ends a line with one `\n`.
pub open spec fn normalized(text: Seq<char>) -> Seq<char>
    decreases text.len(),
{
    if text.len() == 0 {
        Seq::empty()
    } else {
        let before = normalized(text.drop_last());
        if text.last() == '\r' {
            before.push('\n')
        } else if text.last() == '\n' && text.len() >= 2 && text[text.len() - 2] == '\r' {
            before
        } else {
            before.push(text.last())
        }
    }
}

/// A normalized text holds no carriage return.
pub proof fn lemma_normalized_has_no_carriage_return(text: Seq<char>)
    ensures
        !normalized(text).contains('\r'),
    decreases text.len(),
{
    if text.len() > 0 {
        lemma_normalized_has_no_carriage_return(text.drop_last());
        let before = normalized(text.drop_last());
        let after = normalized(text);
        assert forall|i: int| 0 <= i < after.len() implies after[i] != '\r' by {
            if i < before.len() {
                assert(before.contains(before[i]));
            }
        }
    }
}

/// Makes the line endings of a text uniform: `\r\n` and a lone `\r` both
/// become `\n`.
pub fn normalize_line_endings(content: &str) -> (text: String)
    ensures
        text@ == normalized(content@),
        !text@.contains('\r'),
{
    let mut text = String::new();
    let mut after_carriage_return = false;
    assert(content@.take(0) =~= Seq::<char>::empty());
    for c in it: content.chars()
        invariant
            it.seq() == content@,
            text@ == normalized(content@.take(it.index() as int)),
            after_carriage_return == (it.index() > 0 && content@[it.index() - 1] == '\r'),
    {
        proof {
            let i = it.index() as int;
            assert(content@.take(i + 1).drop_last() =~= content@.take(i));
            assert(content@.take(i + 1).last() == c);
        }
        if c == '\r' {
            text.push('\n');
            after_carriage_return = true;
        } else {
            if !(c == '\n' && after_carriage_return) {
                text.push(c);
            }
            after_carriage_return = false;
        }
    }
    proof {
        assert(content@.take(content@.len() as int) =~= content@);
        lemma_normalized_has_no_carriage_return(content@);
    }
    text
}

} // verus!
