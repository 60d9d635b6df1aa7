use comment_indexer::engine::extract_comments;
use comment_indexer::engine::Comment;
use comment_indexer::source::normalize_line_endings;
use comment_indexer::source::SourceFile;

fn file(name: &str, path: &str, content: &str) -> SourceFile {
    SourceFile { name: name.to_string(), path: path.to_string(), content: content.to_string() }
}

#[test]
fn java_file_yields_its_three_comments() {
    let content = "// hello world\nint x = 1; // second\n/* block\n   comment */\nString s = \"// not a comment\";\n";
    let files = vec![file("Demo.java", "src/Demo.java", content)];
    let comments = extract_comments(&files);
    assert_eq!(comments.len(), 3);
    assert_eq!(comments[0], Comment { line: 1, text: "// hello world", file_name: "Demo.java" });
    assert_eq!(comments[1], Comment { line: 2, text: "// second", file_name: "Demo.java" });
    assert_eq!(
        comments[2],
        Comment { line: 3, text: "/* block\n   comment ", file_name: "Demo.java" }
    );
    assert!(comments.iter().all(|c| c.line != 5));
}

#[test]
fn file_of_unknown_language_yields_nothing() {
    let files = vec![file("notes.txt", "notes.txt", "// a comment?\n# or this?\n")];
    assert_eq!(extract_comments(&files).len(), 0);
}

#[test]
fn no_files_yield_nothing() {
    let files: Vec<SourceFile> = Vec::new();
    assert_eq!(extract_comments(&files).len(), 0);
}

#[test]
fn comments_come_file_by_file() {
    let files = vec![
        file("b.py", "x/b.py", "# one\nx = 1 # two\n"),
        file("skip.md", "x/skip.md", "# heading\n"),
        file("a.js", "x/a.js", "let a; // three\n/* four */\n"),
        file("c.ts", "x/c.ts", "\n\n// five\n"),
    ];
    let comments = extract_comments(&files);
    let got: Vec<(usize, &str, &str)> =
        comments.iter().map(|c| (c.line, c.text, c.file_name)).collect();
    assert_eq!(
        got,
        vec![
            (1, "# one", "b.py"),
            (2, "# two", "b.py"),
            (1, "// three", "a.js"),
            (2, "/* four ", "a.js"),
            (3, "// five", "c.ts"),
        ]
    );
}

#[test]
fn language_is_told_by_the_path_not_the_name() {
    let files = vec![file("shown", "dir/real.py", "# yes\n")];
    let comments = extract_comments(&files);
    assert_eq!(comments.len(), 1);
    assert_eq!(comments[0].file_name, "shown");
}

#[test]
fn python_comment_at_the_end_of_the_file() {
    let files = vec![file("t.py", "t.py", "x = 1\ny = 2\n# last")];
    let comments = extract_comments(&files);
    assert_eq!(comments.len(), 1);
    assert_eq!(comments[0], Comment { line: 3, text: "# last", file_name: "t.py" });
}

#[test]
fn block_comment_is_located_at_its_first_line() {
    let files = vec![file("A.java", "A.java", "int a;\nint b; /* x\ny\nz */ // w\n")];
    let comments = extract_comments(&files);
    assert_eq!(comments.len(), 2);
    assert_eq!(comments[0].line, 2);
    assert_eq!(comments[0].text, "/* x\ny\nz ");
    assert_eq!(comments[1].line, 4);
    assert_eq!(comments[1].text, "// w");
}

#[test]
fn text_with_wide_scalar_values_is_cut_at_boundaries() {
    let files = vec![file("u.java", "u.java", "s = \"\u{1f600}\"; // gr\u{fc}\u{df}e \u{4e16}\u{754c}\n")];
    let comments = extract_comments(&files);
    assert_eq!(comments.len(), 1);
    assert_eq!(comments[0].text, "// gr\u{fc}\u{df}e \u{4e16}\u{754c}");
    assert_eq!(comments[0].line, 1);
}

#[test]
fn normalized_content_keeps_the_line_numbers() {
    let content = normalize_line_endings("a();\r\nb(); // two\r// three\r\n");
    let files = vec![file("w.js", "w.js", &content)];
    let comments = extract_comments(&files);
    assert_eq!(comments.len(), 2);
    assert_eq!(comments[0], Comment { line: 2, text: "// two", file_name: "w.js" });
    assert_eq!(comments[1], Comment { line: 3, text: "// three", file_name: "w.js" });
}
