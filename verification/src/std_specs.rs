//! What this library takes for granted of the standard library: the
//! specifications below are assumed, not proved.

use vstd::prelude::*;

verus! {

/// The lowercase form of a text, as `str::to_lowercase` gives it.
pub uninterp spec fn lowercase(text: Seq<char>) -> Seq<char>;

/// `str::to_lowercase` returns the lowercase form of the string. What that
/// form is the Unicode tables say; here it has a name and no more.
pub assume_specification[ str::to_lowercase ](text: &str) -> (lowered: String)
    ensures
        lowered@ == lowercase(text@),
;

/// `String::push` appends one scalar value to the string and leaves what was
/// in it as it was.
pub assume_specification[ String::push ](string: &mut String, ch: char)
    ensures
        final(string)@ == old(string)@.push(ch),
;

/// `String::pop` removes the last scalar value of the string and returns it,
/// or returns `None` and leaves the string as it was where it is empty.
pub assume_specification[ String::pop ](string: &mut String) -> (removed: Option<char>)
    ensures
        match removed {
            Some(ch) => old(string)@.len() > 0 && ch == old(string)@.last() && final(string)@
                == old(string)@.drop_last(),
            None => old(string)@.len() == 0 && final(string)@ == old(string)@,
        },
;

} // verus!
