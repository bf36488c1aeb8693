use jj_hunk_tool::display::{
    finish_highlight, format_coloured, format_hunk_display, format_row, format_with_lights, has_numbers,
};
use jj_hunk_tool::hunk::DiffHunk;
use jj_hunk_tool::terminal::{extension_or_empty, light_up};

fn hunk(file: &str, header: &str, lines: &[&str]) -> DiffHunk {
    DiffHunk {
        file: file.into(),
        old_file: file.into(),
        new_file: file.into(),
        file_header: String::new(),
        header: header.into(),
        lines: lines.iter().map(|l| l.to_string()).collect(),
        unsupported_metadata: None,
    }
}

/// The text without escape codes.
fn plain(text: &str) -> String {
    let mut out = String::new();
    let mut chars = text.chars();
    while let Some(c) = chars.next() {
        if c == '\u{1b}' {
            for e in chars.by_ref() {
                if e == 'm' {
                    break;
                }
            }
        } else {
            out.push(c);
        }
    }
    out
}

#[test]
fn format_hunk_display_absolute_lines() {
    let hunk = DiffHunk {
        file: "test.rs".into(),
        old_file: "test.rs".into(),
        new_file: "test.rs".into(),
        file_header: String::new(),
        header: "@@ -7,3 +7,3 @@".into(),
        lines: vec![
            " context".into(),
            "-old_line".into(),
            "+new_line".into(),
            " context2".into(),
        ],
        unsupported_metadata: None,
    };
    let output = format_hunk_display(&hunk, false);
    // Should contain absolute line numbers starting at 7
    assert!(output.contains(" 7:"), "should start at line 7: {output}");
    assert!(output.contains(" 8:"), "should have line 8: {output}");
    assert!(!output.contains(" 1:"), "should NOT have line 1: {output}");
}

#[test]
fn plain_display_numbers_each_side() {
    let h = hunk("x", "@@ -9,3 +19,3 @@", &[" a", "-b", "+c", "odd", "+", ""]);
    assert_eq!(
        format_hunk_display(&h, false),
        " 9: a\n10:-b\n20:+c\n11: odd\n22:+\n12: \n"
    );
}

#[test]
fn plain_display_without_a_readable_header_starts_at_one() {
    let h = hunk("x", "@@", &["+a", "-b"]);
    assert_eq!(format_hunk_display(&h, false), "1:+a\n1:-b\n");
    assert_eq!(format_hunk_display(&hunk("x", "", &[]), false), "");
}

#[test]
fn line_numbers_have_to_fit() {
    assert!(has_numbers(&hunk("x", "@@ -1 +1 @@", &["+a"])));
    assert!(!has_numbers(&hunk("x", "@@ -18446744073709551615 +1 @@", &["+a"])));
    assert!(has_numbers(&hunk("x", "@@ -18446744073709551615 +1 @@", &[])));
}

#[test]
fn coloured_display_highlights() {
    let h = hunk("x.rs", "@@ -1,2 +1,2 @@", &[" fn main() {", "-let a = 1;", "+let b = 2;"]);
    let shown = format_hunk_display(&h, true);
    // Whether styles show depends on the terminal; highlighting is always there.
    assert!(shown.contains("\u{1b}[38;2;"), "{shown}");
    assert!(shown.contains("\u{1b}[0m\n"), "{shown}");
    assert_eq!(plain(&shown), "1   fn main() {\n2 - let a = 1;\n2 + let b = 2;\n");
}

#[test]
fn coloured_display_goes_by_the_extension() {
    let lines = ["+fn main() { let x = 1; }"];
    let rust = format_hunk_display(&hunk("src/x.rs", "@@ -1 +1 @@", &lines), true);
    let text = format_hunk_display(&hunk("src/x.unknown", "@@ -1 +1 @@", &lines), true);
    assert_ne!(rust, text);
    assert_eq!(plain(&rust), plain(&text));
}

#[test]
fn rows_and_highlights_are_finished() {
    assert_eq!(format_row(" 7", "+", "x"), " 7 + x\n");
    assert_eq!(finish_highlight(&Some("\u{1b}[1mx\n".to_string()), "x"), "\u{1b}[1mx\u{1b}[0m");
    assert_eq!(finish_highlight(&Some("y".to_string()), "x"), "y\u{1b}[0m");
    assert_eq!(finish_highlight(&None, "x"), "x");
}

#[test]
fn plain_display_is_aligned_and_without_escapes() {
    let h = hunk("x", "@@ -98,3 +98,3 @@", &[" a", "-b", "+c", " d"]);
    let shown = format_hunk_display(&h, false);
    assert_eq!(shown, " 98: a\n 99:-b\n 99:+c\n100: d\n");
    assert!(!shown.contains('\u{1b}'));
}

#[test]
fn lights_are_put_into_rows() {
    let h = hunk("x", "@@ -1 +1 @@", &["+a", "-b", " c"]);
    let lights = vec![Some("<a>\n".to_string()), None];
    assert_eq!(
        plain(&format_with_lights(&h, &lights, false)),
        "1 + <a>\n1 - b\n2   c\n"
    );
}

#[test]
fn lights_go_by_the_extension() {
    let lines = vec!["let x = 1;\n".to_string()];
    let rust = light_up("rs", &lines);
    let none = light_up("no-such-extension", &lines);
    assert_eq!(rust.len(), 1);
    assert_eq!(none.len(), 1);
    assert_ne!(rust, none);
    assert_eq!(plain(rust[0].as_deref().unwrap()), "let x = 1;\n");
    assert_eq!(plain(none[0].as_deref().unwrap()), "let x = 1;\n");
}

#[test]
fn rows_are_styled_where_colours_are_on() {
    let h = hunk("x", "@@ -1 +1 @@", &["+a", "-b", " c"]);
    let lights = vec![Some("A\n".to_string()), None];
    assert_eq!(
        format_with_lights(&h, &lights, true),
        "\u{1b}[2m1\u{1b}[0m \u{1b}[32m+\u{1b}[0m A\u{1b}[0m\n\
         \u{1b}[2m1\u{1b}[0m \u{1b}[31m-\u{1b}[0m \u{1b}[31mb\u{1b}[0m\n\
         \u{1b}[2m2\u{1b}[0m \u{1b}[2m \u{1b}[0m c\n"
    );
}

#[test]
fn rows_are_plain_where_colours_are_off() {
    let h = hunk("x", "@@ -1 +1 @@", &["+a", "-b", " c"]);
    let lights = vec![Some("A\n".to_string()), None];
    assert_eq!(
        format_with_lights(&h, &lights, false),
        "1 + A\u{1b}[0m\n1 - b\n2   c\n"
    );
}

#[test]
fn the_environment_switches_colours() {
    let h = hunk("x.rs", "@@ -1 +1 @@", &["+let a = 1;", "-b"]);
    console::set_colors_enabled(true);
    assert_eq!(format_hunk_display(&h, true), format_coloured(&h, "rs", true));
    console::set_colors_enabled(false);
    assert_eq!(format_hunk_display(&h, true), format_coloured(&h, "rs", false));
    assert_ne!(format_coloured(&h, "rs", true), format_coloured(&h, "rs", false));
}

#[test]
fn a_missing_extension_is_looked_up_as_empty() {
    assert_eq!(extension_or_empty(Some("rs".to_string())), "rs");
    assert_eq!(extension_or_empty(None), "");
    let lines = ["+fn main() { let x = 1; }"];
    console::set_colors_enabled(false);
    let bare = hunk("Makefile", "@@ -1 +1 @@", &lines);
    assert_eq!(format_hunk_display(&bare, true), format_coloured(&bare, "", false));
    let hidden = hunk("src/.rs", "@@ -1 +1 @@", &lines);
    assert_eq!(format_hunk_display(&hidden, true), format_coloured(&hidden, "", false));
}
