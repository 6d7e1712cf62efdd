use tab_indent::normalize::format_run;

fn run(text: &str, tab_width: u8) -> String {
    format_run(text.to_string(), tab_width)
}

#[test]
fn full_tab_of_spaces_becomes_tab() {
    assert_eq!(run("    x", 4), "\tx");
}

#[test]
fn fewer_spaces_than_width_stay() {
    assert_eq!(run("   x", 4), "   x");
}

#[test]
fn existing_tab_kept_and_short_run_stays() {
    assert_eq!(run("\t  x", 4), "\t  x");
}

#[test]
fn tabs_then_spaces_add_up() {
    assert_eq!(run("\t         x", 4), "\t\t\t x");
    assert_eq!(run("      x", 2), "\t\t\tx");
    assert_eq!(run("   x", 1), "\t\t\tx");
}

#[test]
fn empty_text_stays_empty() {
    assert_eq!(run("", 4), "");
    assert_eq!(run("", 1), "");
    assert_eq!(run("", 255), "");
}

#[test]
fn interior_spaces_preserved() {
    assert_eq!(run("a   b", 4), "a   b");
    assert_eq!(run("a \t b", 4), "a \t b");
}

#[test]
fn trailing_spaces_removed() {
    assert_eq!(run("a b   ", 4), "a b");
    assert_eq!(run("x  \ny ", 4), "x\ny");
    assert_eq!(run("x \t", 4), "x \t");
}

#[test]
fn blank_lines_become_empty() {
    assert_eq!(run("   ", 4), "");
    assert_eq!(run("a\n \t \nb", 4), "a\n\nb");
    assert_eq!(run("\t \t\n", 4), "\n");
}

#[test]
fn final_newline_mirrored() {
    assert_eq!(run("a\n", 4), "a\n");
    assert_eq!(run("a", 4), "a");
    assert_eq!(run("a\nb", 4), "a\nb");
    assert_eq!(run("a\n\n", 4), "a\n\n");
    assert_eq!(run("\n", 4), "\n");
}

#[test]
fn line_count_kept() {
    let inputs = ["a\n  b  \n\t\n", "x", "\n\n\n", "  y\n\tz"];
    for t in inputs.iter() {
        let r = run(t, 4);
        assert_eq!(
            r.matches('\n').count(),
            t.matches('\n').count(),
            "newlines of {:?}",
            t
        );
    }
}

#[test]
fn no_line_ends_with_space() {
    let r = run("  a  \n    b \n c\t \n", 2);
    assert_eq!(r, "\ta\n\t\tb\n c\t\n");
    for line in r.split('\n') {
        assert!(!line.ends_with(' '));
    }
}

#[test]
fn normalizing_twice_changes_nothing() {
    let t = "fn f() {\n        let x = 1;   \n  \n\t  return x;\n}\n";
    let once = run(t, 4);
    assert_eq!(once, "fn f() {\n\t\tlet x = 1;\n\n\t  return x;\n}\n");
    assert_eq!(run(&once, 4), once);
}

#[test]
fn line_that_does_not_settle() {
    let once = run("    \t    x", 4);
    assert_eq!(once, "\t\t    x");
    assert_eq!(run(&once, 4), "\t\t\tx");
}

#[test]
fn other_characters_untouched() {
    assert_eq!(run("    日本 語  ", 4), "\t日本 語");
    assert_eq!(run("a\r\n", 4), "a\r\n");
}
