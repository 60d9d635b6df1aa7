use comment_indexer::lines::LineMap;
use comment_indexer::source::normalize_line_endings;

#[test]
fn offsets_map_to_their_lines() {
    let map = LineMap::new("a\nb\nc");
    assert_eq!(map.line_of(0), 1);
    assert_eq!(map.line_of(2), 2);
    assert_eq!(map.line_of(4), 3);
}

#[test]
fn offsets_inside_a_line_map_to_that_line() {
    let map = LineMap::new("first\nsecond\nthird\n");
    assert_eq!(map.line_of(0), 1);
    assert_eq!(map.line_of(4), 1);
    assert_eq!(map.line_of(5), 1);
    assert_eq!(map.line_of(6), 2);
    assert_eq!(map.line_of(12), 2);
    assert_eq!(map.line_of(13), 3);
    assert_eq!(map.line_of(18), 3);
    assert_eq!(map.line_of(19), 4);
}

#[test]
fn text_without_line_feed_is_one_line() {
    let map = LineMap::new("no line feed here");
    assert_eq!(map.line_of(0), 1);
    assert_eq!(map.line_of(10), 1);
    assert_eq!(map.line_of(1000), 1);
}

#[test]
fn empty_text_is_one_line() {
    let map = LineMap::new("");
    assert_eq!(map.line_of(0), 1);
}

#[test]
fn empty_lines_count() {
    let map = LineMap::new("\n\n\nx");
    assert_eq!(map.line_of(0), 1);
    assert_eq!(map.line_of(1), 2);
    assert_eq!(map.line_of(2), 3);
    assert_eq!(map.line_of(3), 4);
}

#[test]
fn line_offsets_are_bytes() {
    let map = LineMap::new("\u{e9}\u{20ac}\nx");
    assert_eq!(map.line_of(5), 1);
    assert_eq!(map.line_of(6), 2);
}

#[test]
fn line_number_is_one_more_than_the_line_feeds_before() {
    let content = "ab\ncd\n\nef\ngh";
    let map = LineMap::new(content);
    for offset in 0..=content.len() {
        let before = content.as_bytes()[..offset].iter().filter(|b| **b == b'\n').count();
        assert_eq!(map.line_of(offset), before + 1);
    }
}

#[test]
fn many_lines() {
    let mut content = String::new();
    for _ in 0..1000 {
        content.push_str("line\n");
    }
    let map = LineMap::new(&content);
    for line in 0..1000 {
        assert_eq!(map.line_of(line * 5), line + 1);
        assert_eq!(map.line_of(line * 5 + 4), line + 1);
    }
}

#[test]
fn carriage_return_line_feed_becomes_line_feed() {
    assert_eq!(normalize_line_endings("a\r\nb\r\n"), "a\nb\n");
}

#[test]
fn lone_carriage_return_becomes_line_feed() {
    assert_eq!(normalize_line_endings("a\rb\r"), "a\nb\n");
}

#[test]
fn line_feeds_stay() {
    assert_eq!(normalize_line_endings("a\nb\n\nc"), "a\nb\n\nc");
}

#[test]
fn mixed_line_endings() {
    assert_eq!(normalize_line_endings("a\r\r\nb\n\rc\r\n\nd"), "a\n\nb\n\nc\n\nd");
    assert_eq!(normalize_line_endings("\r\n\r\n"), "\n\n");
    assert_eq!(normalize_line_endings("\r\r"), "\n\n");
    assert_eq!(normalize_line_endings("\n\r"), "\n\n");
}

#[test]
fn normalizing_agrees_with_two_replacements() {
    let samples = [
        "", "a", "\r", "\n", "\r\n", "\n\r", "\r\r\n", "\r\n\n", "\r\n\r", "a\rb\nc\r\nd",
        "\u{e9}\r\n\u{20ac}\r\u{1f600}\n", "\r\r\r\n\n\n\r\n\r\n",
    ];
    for sample in samples.iter() {
        let expected = sample.replace("\r\n", "\n").replace("\r", "\n");
        assert_eq!(normalize_line_endings(sample), expected);
    }
}

#[test]
fn normalized_text_holds_no_carriage_return() {
    let text = normalize_line_endings("a\r\rb\r\n\rc");
    assert!(!text.contains('\r'));
}

#[test]
fn normalizing_keeps_other_text() {
    assert_eq!(normalize_line_endings("caf\u{e9} \u{4e2d}\u{6587}"), "caf\u{e9} \u{4e2d}\u{6587}");
    assert_eq!(normalize_line_endings(""), "");
}
