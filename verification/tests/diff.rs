use jj_hunk_tool::diff::{display_file, is_dev_null, parse_diff, preserve_crlf, strip_diff_prefix};
use jj_hunk_tool::header::parse_header_counts;
use jj_hunk_tool::surgeon::assign_ids;

#[test]
fn preserve_crlf_keeps_cr_through_parse() {
    let raw = "--- a/f.txt\n+++ b/f.txt\n@@ -1,2 +1,2 @@\n line1\r\n-line2\r\n+line2 changed\r\n";
    let hunks = parse_diff(&preserve_crlf(raw));
    assert_eq!(hunks.len(), 1);
    assert_eq!(
        hunks[0].lines,
        vec![" line1\r", "-line2\r", "+line2 changed\r"]
    );
}

#[test]
fn preserve_crlf_leaves_lf_content_alone() {
    let raw = "--- a/f.txt\n+++ b/f.txt\n@@ -1 +1 @@\n-old\n+new\n";
    assert_eq!(preserve_crlf(raw), raw);
}

#[test]
fn parse_diff_keeps_dash_dash_deletions_as_content() {
    // Deleting a `-- comment` line renders as `--- comment`, which must
    // parse as hunk content, not as an old-file header.
    let raw = "\
diff --git a/f.lua b/f.lua
--- a/f.lua
+++ b/f.lua
@@ -1,3 +1,3 @@
 -- header stays
--- old comment
+-- new comment
";
    let hunks = parse_diff(raw);
    assert_eq!(hunks.len(), 1);
    assert_eq!(hunks[0].file, "f.lua");
    assert_eq!(hunks[0].file_header, "--- a/f.lua\n+++ b/f.lua");
    assert_eq!(
        hunks[0].lines,
        vec![" -- header stays", "--- old comment", "+-- new comment"]
    );
}

#[test]
fn parse_diff_body_lookalikes_do_not_leak_into_next_hunk() {
    // A body containing `--- x`, `+++ x`, and a context `@@ x` line must
    // not disturb the following hunk's file header or boundaries.
    let raw = "\
diff --git a/f.txt b/f.txt
--- a/f.txt
+++ b/f.txt
@@ -1,2 +1,2 @@
--- minus minus line
+++ plus plus line
 @@ context at-signs
@@ -10,1 +10,1 @@
-second hunk old
+second hunk new
";
    let hunks = parse_diff(raw);
    assert_eq!(hunks.len(), 2);
    assert_eq!(
        hunks[0].lines,
        vec![
            "--- minus minus line",
            "+++ plus plus line",
            " @@ context at-signs"
        ]
    );
    assert_eq!(hunks[1].file_header, "--- a/f.txt\n+++ b/f.txt");
    assert_eq!(hunks[1].header, "@@ -10,1 +10,1 @@");
    assert_eq!(hunks[1].lines, vec!["-second hunk old", "+second hunk new"]);
}

#[test]
fn parse_diff_multiple_files() {
    let raw = "\
diff --git a/a.txt b/a.txt
--- a/a.txt
+++ b/a.txt
@@ -1,1 +1,1 @@
-a old
+a new
diff --git a/b.txt b/b.txt
--- a/b.txt
+++ b/b.txt
@@ -1,1 +1,2 @@
 b
+b more
";
    let hunks = parse_diff(raw);
    assert_eq!(hunks.len(), 2);
    assert_eq!(hunks[0].file, "a.txt");
    assert_eq!(hunks[1].file, "b.txt");
    assert_eq!(hunks[1].lines, vec![" b", "+b more"]);
}

#[test]
fn parse_diff_new_and_deleted_files() {
    let raw = "\
diff --git a/new.txt b/new.txt
new file mode 100644
--- /dev/null
+++ b/new.txt
@@ -0,0 +1,1 @@
+hello
diff --git a/gone.txt b/gone.txt
deleted file mode 100644
--- a/gone.txt
+++ /dev/null
@@ -1,1 +0,0 @@
-bye
\\ No newline at end of file
";
    let hunks = parse_diff(raw);
    assert_eq!(hunks.len(), 2);
    assert_eq!(hunks[0].old_file, "dev/null");
    assert_eq!(hunks[0].file, "new.txt");
    assert_eq!(hunks[1].new_file, "dev/null");
    assert_eq!(hunks[1].file, "gone.txt");
    assert_eq!(hunks[1].lines, vec!["-bye", "\\ No newline at end of file"]);
}

#[test]
fn parse_diff_flags_unsupported_metadata() {
    let raw = "\
diff --git a/old.txt b/renamed.txt
similarity index 90%
rename from old.txt
rename to renamed.txt
--- a/old.txt
+++ b/renamed.txt
@@ -1,1 +1,1 @@
-x
+y
";
    let hunks = parse_diff(raw);
    assert_eq!(hunks.len(), 1);
    assert_eq!(
        hunks[0].unsupported_metadata.as_deref(),
        Some("similarity index")
    );
}

#[test]
fn parse_diff_of_nothing() {
    assert!(parse_diff("").is_empty());
    assert!(parse_diff("diff --git a/x b/x\nBinary files differ\n").is_empty());
}

#[test]
fn parse_diff_reads_every_field() {
    let hunks = parse_diff("diff --git a/x.rs b/x.rs\nindex 1..2\n--- a/x.rs\n+++ b/x.rs\n@@ -3 +3,2 @@ fn f()\n a\n+b\n");
    assert_eq!(hunks.len(), 1);
    assert_eq!(hunks[0].file, "x.rs");
    assert_eq!(hunks[0].old_file, "x.rs");
    assert_eq!(hunks[0].new_file, "x.rs");
    assert_eq!(hunks[0].file_header, "--- a/x.rs\n+++ b/x.rs");
    assert_eq!(hunks[0].header, "@@ -3 +3,2 @@ fn f()");
    assert_eq!(hunks[0].lines, vec![" a", "+b"]);
    assert_eq!(hunks[0].unsupported_metadata, None);
}

#[test]
fn parse_diff_clears_metadata_at_the_next_file() {
    let raw = "diff --git a/a b/a\nold mode 100644\nnew mode 100755\n--- a/a\n+++ b/a\n@@ -1 +1 @@\n-x\n+y\ndiff --git a/b b/b\n--- a/b\n+++ b/b\n@@ -1 +1 @@\n-x\n+y\n";
    let hunks = parse_diff(raw);
    assert_eq!(hunks.len(), 2);
    assert_eq!(hunks[0].unsupported_metadata.as_deref(), Some("old mode"));
    assert_eq!(hunks[1].unsupported_metadata, None);
}

#[test]
fn parse_diff_with_malformed_header_reads_up_to_the_next_marker() {
    let hunks = parse_diff("--- a/f\n+++ b/f\n@@ nonsense\n-x\n+y\n@@ -9 +9 @@\n-p\n+q\n");
    assert_eq!(hunks.len(), 2);
    assert_eq!(hunks[0].lines, vec!["-x", "+y"]);
    assert_eq!(hunks[1].lines, vec!["-p", "+q"]);
}

#[test]
fn header_counts() {
    assert_eq!(parse_header_counts("@@ -1,3 +1,4 @@"), (3, 4));
    assert_eq!(parse_header_counts("@@ -1 +1,0 @@ fn"), (1, 0));
    assert_eq!(parse_header_counts("@@ -1,x +1,4 @@"), (0, 0));
    assert_eq!(parse_header_counts("@@ nothing"), (0, 0));
    assert_eq!(parse_header_counts("@@ -x +y @@"), (0, 0));
    assert_eq!(parse_header_counts("@@ -1 +y @@"), (0, 0));
    assert_eq!(parse_header_counts("@@ -x,3 +1,4 @@"), (0, 0));
    assert_eq!(parse_header_counts("@@ - +1 @@"), (0, 0));
    assert_eq!(parse_header_counts("@@ -+ +1 @@"), (0, 0));
    assert_eq!(parse_header_counts("@@ -99999999999999999999 +1 @@"), (1, 1));
    assert_eq!(parse_header_counts("@@ -99999999999999999999,2 ++1,3 @@"), (2, 3));
    assert_eq!(parse_header_counts("@@ -1,99999999999999999999 +1 @@"), (0, 0));
}

#[test]
fn parse_diff_of_plain_unified_diff() {
    let raw = "--- a/a.txt\n+++ b/a.txt\n@@ -1 +1 @@\n-x\n+y\n--- a/b.txt\n+++ b/b.txt\n@@ -1 +1 @@\n-p\n+q\n";
    let hunks = parse_diff(raw);
    assert_eq!(hunks.len(), 2);
    assert_eq!(hunks[0].file, "a.txt");
    assert_eq!(hunks[0].file_header, "--- a/a.txt\n+++ b/a.txt");
    assert_eq!(hunks[0].lines, vec!["-x", "+y"]);
    assert_eq!(hunks[1].file, "b.txt");
    assert_eq!(hunks[1].file_header, "--- a/b.txt\n+++ b/b.txt");
    assert_eq!(hunks[1].lines, vec!["-p", "+q"]);
}

#[test]
fn diff_prefixes() {
    assert_eq!(strip_diff_prefix("--- a/x/y.rs"), "x/y.rs");
    assert_eq!(strip_diff_prefix("+++ b/x"), "x");
    assert_eq!(strip_diff_prefix("--- /dev/null"), "dev/null");
    assert_eq!(strip_diff_prefix("+++ /dev/null"), "dev/null");
    assert_eq!(strip_diff_prefix("+++ a/x"), "x");
    assert_eq!(strip_diff_prefix("--- x"), "x");
    assert_eq!(strip_diff_prefix("+++ x"), "x");
    assert_eq!(strip_diff_prefix("x"), "x");
}

#[test]
fn display_paths() {
    assert_eq!(display_file("old", "new"), "new");
    assert_eq!(display_file("old", "dev/null"), "old");
    assert_eq!(display_file("old", "/dev/null"), "old");
    assert_eq!(display_file("old", ""), "old");
}

#[test]
fn dev_null_in_both_spellings() {
    assert!(is_dev_null("/dev/null"));
    assert!(is_dev_null("dev/null"));
    assert!(!is_dev_null("dev/nul"));
    assert!(!is_dev_null(""));
}

#[test]
fn preserve_crlf_doubles_the_carriage_return() {
    assert_eq!(preserve_crlf("a\r\nb\rc\r\r\n"), "a\r\r\nb\rc\r\r\r\n");
}

#[test]
fn ids_are_seven_hex_digits_and_number_duplicates() {
    let raw = "--- a/f\n+++ b/f\n@@ -1 +1 @@\n-x\n+y\n@@ -9 +9 @@\n-x\n+y\n@@ -20 +20 @@\n-p\n+q\n";
    let hunks = parse_diff(raw);
    let identified = assign_ids(&hunks);
    assert_eq!(identified.len(), 3);
    let first = identified[0].0.as_str();
    assert_eq!(first.len(), 7);
    assert!(first.chars().all(|c| c.is_ascii_hexdigit()));
    assert_eq!(identified[1].0, format!("{first}-2"));
    assert_ne!(identified[2].0, first);
    assert_eq!(identified[2].1.lines, vec!["-p", "+q"]);
}

#[test]
fn ids_survive_line_shifts() {
    let before = parse_diff("--- a/f\n+++ b/f\n@@ -1 +1 @@\n-x\n+y\n");
    let after = parse_diff("--- a/f\n+++ b/f\n@@ -100 +120 @@\n-x\n+y\n");
    assert_eq!(assign_ids(&before)[0].0, assign_ids(&after)[0].0);
}

#[test]
fn diffs_one_behind_the_other() {
    let a = "diff --git a/f b/f\nold mode 1\n--- a/f\n+++ b/f\n@@ -1,1 +1,1 @@\n--- x\n+y\n\\ No newline at end of file\n";
    let b = "diff --git a/g b/g\r\n--- a/g\n+++ b/g\n@@ -1,2 +1,1 @@\n p\n-q\n";
    let mut expected = parse_diff(a);
    expected.extend(parse_diff(b));
    assert_eq!(expected.len(), 2);
    assert_eq!(parse_diff(&format!("{a}{b}")), expected);
    assert_eq!(parse_diff(&format!("{b}{a}")).len(), 2);
}
