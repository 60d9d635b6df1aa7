use comment_indexer::discover::extension;
use comment_indexer::discover::should_skip_directory;
use comment_indexer::text::bytes_equal;
use comment_indexer::text::find;
use comment_indexer::text::matches_at;
use comment_indexer::text::str_equal;
use comment_indexer::text::utf8_width;

#[test]
fn artifact_directories_are_skipped() {
    let skipped = [
        "target", "node_modules", ".git", "build", "dist", ".vscode", ".idea", "bin", "obj",
        "__pycache__",
    ];
    for name in skipped.iter() {
        assert!(should_skip_directory(name));
    }
}

#[test]
fn other_directories_are_walked() {
    let walked = ["src", "lib", "Target", "targets", "target ", ".github", "", "binary", "ob", "git"];
    for name in walked.iter() {
        assert!(!should_skip_directory(name));
    }
}

#[test]
fn extension_is_what_follows_the_last_dot() {
    assert_eq!(extension("Main.java"), Some("java"));
    assert_eq!(extension("a/b/c.tar.gz"), Some("gz"));
    assert_eq!(extension("a.b/c.py"), Some("py"));
    assert_eq!(extension("name."), Some(""));
    assert_eq!(extension("..a"), Some("a"));
    assert_eq!(extension("caf\u{e9}.\u{4e16}\u{754c}"), Some("\u{4e16}\u{754c}"));
}

#[test]
fn some_paths_have_no_extension() {
    assert_eq!(extension("Makefile"), None);
    assert_eq!(extension(".gitignore"), None);
    assert_eq!(extension("dir/.hidden"), None);
    assert_eq!(extension("a.b/c"), None);
    assert_eq!(extension("a.java/"), None);
    assert_eq!(extension(""), None);
    assert_eq!(extension("."), None);
}

#[test]
fn extension_agrees_with_the_standard_library() {
    let samples = [
        "Main.java", "a/b/c.tar.gz", "a.b/c.py", "name.", "..a", "Makefile", ".gitignore",
        "dir/.hidden", "a.b/c", "x/y.z/w.v", "a..b", "/.x", "/a.x", "weird.na me",
    ];
    for sample in samples.iter() {
        let expected = std::path::Path::new(sample).extension().and_then(|e| e.to_str());
        assert_eq!(extension(sample), expected);
    }
}

#[test]
fn strings_are_equal_when_their_bytes_are() {
    assert!(str_equal("", ""));
    assert!(str_equal("abc", "abc"));
    assert!(str_equal("caf\u{e9}", "caf\u{e9}"));
    assert!(!str_equal("abc", "abd"));
    assert!(!str_equal("abc", "ab"));
    assert!(!str_equal("", "a"));
    assert!(!str_equal("cafe", "caf\u{e9}"));
    assert!(bytes_equal(b"xy", b"xy"));
    assert!(!bytes_equal(b"xy", b"yx"));
}

#[test]
fn find_gives_the_first_occurrence() {
    assert_eq!(find(b"hello world", b"o"), Some(4));
    assert_eq!(find(b"hello world", b"world"), Some(6));
    assert_eq!(find(b"hello world", b"hello world"), Some(0));
    assert_eq!(find(b"aaa", b"aa"), Some(0));
    assert_eq!(find(b"abcabc", b"cab"), Some(2));
    assert_eq!(find(b"abc", b"c"), Some(2));
}

#[test]
fn find_gives_none_where_nothing_occurs() {
    assert_eq!(find(b"hello", b"world"), None);
    assert_eq!(find(b"ab", b"abc"), None);
    assert_eq!(find(b"", b"a"), None);
    assert_eq!(find(b"abab", b"bb"), None);
}

#[test]
fn empty_needle_is_found_at_the_beginning() {
    assert_eq!(find(b"abc", b""), Some(0));
    assert_eq!(find(b"", b""), Some(0));
}

#[test]
fn find_agrees_with_the_standard_library() {
    let haystacks = ["", "a", "abcabcabd", "caf\u{e9} \u{4e16}\u{754c} caf\u{e9}", "aaaaab", "xyz"];
    let needles = ["", "a", "ab", "abd", "caf\u{e9}", "\u{754c}", "b", "aab", "zz", "\u{e9} "];
    for haystack in haystacks.iter() {
        for needle in needles.iter() {
            assert_eq!(find(haystack.as_bytes(), needle.as_bytes()), haystack.find(needle));
        }
    }
}

#[test]
fn needle_is_compared_in_place() {
    assert!(matches_at(b"hello", b"ll", 2));
    assert!(!matches_at(b"hello", b"ll", 1));
    assert!(matches_at(b"hello", b"", 5));
    assert!(matches_at(b"hello", b"hello", 0));
    assert!(!matches_at(b"hello", b"lo", 4));
    assert!(!matches_at(b"hello", b"", 6));
    assert!(!matches_at(b"hello", b"h", usize::MAX));
}

#[test]
fn width_is_the_length_of_the_encoding() {
    for scalar in 0..=0x10ffffu32 {
        if let Some(c) = char::from_u32(scalar) {
            assert_eq!(utf8_width(c), c.len_utf8());
        }
    }
}
