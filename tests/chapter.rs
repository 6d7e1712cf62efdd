use tab_indent::chapter::count_body_non_ascii;

#[test]
fn ascii_body_counts_nothing() {
    assert_eq!(count_body_non_ascii("line1\nline2\nAB\n"), 0);
}

#[test]
fn non_ascii_body_characters_counted() {
    assert_eq!(count_body_non_ascii("line1\nline2\n日本語\n"), 3);
}

#[test]
fn single_line_counts_nothing() {
    assert_eq!(count_body_non_ascii("only one line, no newline"), 0);
}

#[test]
fn header_lines_skipped() {
    assert_eq!(count_body_non_ascii("日本\n語\n"), 0);
    assert_eq!(count_body_non_ascii("日本\n語\nä b ü\nç"), 3);
    assert_eq!(count_body_non_ascii(""), 0);
    assert_eq!(count_body_non_ascii("\n\n\u{7f}\u{80}"), 1);
}
