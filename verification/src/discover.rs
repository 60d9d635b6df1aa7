//! The rules by which a walk over a source tree picks its files: which
//! directories it leaves out, and what the extension of a path is.

use crate::text::lemma_ascii_between_boundaries;
use crate::text::slice;
use crate::text::str_equal;
use vstd::prelude::*;
use vstd::string::StringSliceAdditionalSpecFns;
use vstd::utf8::*;

verus! {

/// The dot that stands before an extension.
pub const DOT: u8 = 0x2e;

/// The slash that parts the components of a path.
pub const SEPARATOR: u8 = 0x2f;

/// True for the names of directories that hold dependencies, build output,
/// version-control data or editor settings.
pub open spec fn is_skipped_directory(name: Seq<char>) -> bool {
    ||| name == "target"@
    ||| name == "node_modules"@
    ||| name == ".git"@
    ||| name == "build"@
    ||| name == "dist"@
    ||| name == ".vscode"@
    ||| name == ".idea"@
    ||| name == "bin"@
    ||| name == "obj"@
    ||| name == "__pycache__"@
}

/// Tells whether a walk leaves out the directory of this name, with all that
/// is below it.
pub fn should_skip_directory(dir_name: &str) -> (skip: bool)
    ensures
        skip == is_skipped_directory(dir_name@),
{
    str_equal(dir_name, "target") || str_equal(dir_name, "node_modules") || str_equal(
        dir_name,
        ".git",
    ) || str_equal(dir_name, "build") || str_equal(dir_name, "dist") || str_equal(
        dir_name,
        ".vscode",
    ) || str_equal(dir_name, ".idea") || str_equal(dir_name, "bin") || str_equal(dir_name, "obj")
        || str_equal(dir_name, "__pycache__")
}

/// True when the extension of `path` begins at offset `at`: behind the last
/// dot of the last component, where that dot is not the component's first
/// byte.
pub open spec fn is_extension_start(path: Seq<u8>, at: int) -> bool {
    &&& 2 <= at <= path.len()
    &&& path[at - 1] == DOT
    &&& path[at - 2] != SEPARATOR
    &&& forall|k: int| at <= k < path.len() ==> path[k] != DOT && path[k] != SEPARATOR
}

/// The offset at which the extension begins, found from `end` backwards.
pub open spec fn extension_start_before(path: Seq<u8>, end: int) -> Option<int>
    decreases end,
{
    if end <= 0 || path[end - 1] == SEPARATOR {
        None
    } else if path[end - 1] == DOT {
        if end >= 2 && path[end - 2] != SEPARATOR {
            Some(end)
        } else {
            None
        }
    } else {
        extension_start_before(path, end - 1)
    }
}

/// The extension of a path, without its dot; `None` where the last component
/// has no dot, or only one at its very beginning.
pub open spec fn extension_of(path: Seq<u8>) -> Option<Seq<u8>> {
    match extension_start_before(path, path.len() as int) {
        Some(at) => Some(path.subrange(at, path.len() as int)),
        None => None,
    }
}

/// The backward search finds the one offset at which the extension begins,
/// and finds none only where there is none.
pub proof fn lemma_extension_start(path: Seq<u8>, end: int)
    requires
        0 <= end <= path.len(),
        forall|k: int| end <= k < path.len() ==> path[k] != DOT && path[k] != SEPARATOR,
    ensures
        match extension_start_before(path, end) {
            Some(at) => is_extension_start(path, at),
            None => forall|at: int| !is_extension_start(path, at),
        },
    decreases end,
{
    if end > 0 && path[end - 1] != SEPARATOR && path[end - 1] != DOT {
        lemma_extension_start(path, end - 1);
    } else {
        assert forall|at: int|
            extension_start_before(path, end) is None implies !is_extension_start(path, at) by {
            if is_extension_start(path, at) {
                if at < end {
                    assert(path[end - 1] != DOT && path[end - 1] != SEPARATOR);
                }
            }
        }
    }
}

/// The extension of a path, without its dot: what follows the last dot of
/// the last component, unless that dot begins the component.
pub fn extension<'a>(path: &'a str) -> (found: Option<&'a str>)
    ensures
        match found {
            Some(ext) => {
                &&& extension_of(path.spec_bytes()) == Some(ext.spec_bytes())
                &&& is_extension_start(
                    path.spec_bytes(),
                    path.spec_bytes().len() - ext.spec_bytes().len(),
                )
            },
            None => {
                &&& extension_of(path.spec_bytes()) is None
                &&& forall|at: int| !is_extension_start(path.spec_bytes(), at)
            },
        },
{
    let bytes = path.as_bytes();
    let n = bytes.len();
    let mut end: usize = n;
    proof {
        lemma_extension_start(bytes@, n as int);
    }
    while end > 0
        invariant
            bytes@ == path.spec_bytes(),
            n == bytes@.len(),
            end <= n,
            extension_start_before(bytes@, n as int) is None ==> forall|at: int|
                !is_extension_start(bytes@, at),
            extension_start_before(bytes@, n as int) matches Some(at) ==> is_extension_start(
                bytes@,
                at,
            ),
            extension_start_before(bytes@, n as int) == extension_start_before(
                bytes@,
                end as int,
            ),
        decreases end,
    {
        let b = bytes[end - 1];
        if b == SEPARATOR {
            return None;
        }
        if b == DOT {
            if end >= 2 && bytes[end - 2] != SEPARATOR {
                proof {
                    encode_utf8_valid_utf8(path@);
                    lemma_ascii_between_boundaries(bytes@, end - 1);
                    is_char_boundary_start_end_of_seq(bytes@);
                }
                return Some(slice(path, end, n));
            }
            return None;
        }
        end -= 1;
    }
    None
}

} // verus!
