use jj_hunk_tool::header::{parse_header_starts, reverse_header};
use jj_hunk_tool::hunk::DiffHunk;
use jj_hunk_tool::patch::{build_combined_patch, build_directed_patch, reverse_hunk, HunkSpec, PatchError};
use jj_hunk_tool::diff::parse_diff;

fn test_hunk(lines: &[&str]) -> DiffHunk {
    DiffHunk {
        file: "a.txt".into(),
        old_file: "a.txt".into(),
        new_file: "a.txt".into(),
        file_header: "--- a/a.txt\n+++ b/a.txt".into(),
        header: "@@ -1,3 +1,3 @@".into(),
        lines: lines.iter().map(|l| l.to_string()).collect(),
        unsupported_metadata: None,
    }
}

#[test]
fn parse_header_starts_same() {
    assert_eq!(parse_header_starts("@@ -7,3 +7,4 @@"), Some((7, 7)));
}

#[test]
fn parse_header_starts_different() {
    assert_eq!(parse_header_starts("@@ -10,5 +12,3 @@"), Some((10, 12)));
}

#[test]
fn parse_header_starts_with_context_label() {
    assert_eq!(
        parse_header_starts("@@ -1,3 +1,3 @@ fn main()"),
        Some((1, 1))
    );
}

#[test]
fn parse_header_starts_no_count() {
    assert_eq!(parse_header_starts("@@ -5 +5,2 @@"), Some((5, 5)));
}

#[test]
fn parse_header_starts_invalid() {
    assert_eq!(parse_header_starts("not a header"), None);
}

#[test]
fn parse_header_starts_edges() {
    assert_eq!(parse_header_starts("  @@ -0,0 +1 @@\t"), Some((0, 1)));
    assert_eq!(parse_header_starts("@@ -1 +x @@"), None);
    assert_eq!(parse_header_starts("@@ -99999999999999999999999 +1 @@"), None);
    assert_eq!(parse_header_starts("@@ -1 2 @@"), None);
}

#[test]
fn reverse_hunk_swaps_lines_and_sides() {
    let hunk = test_hunk(&[" ctx", "-old", "+new"]);
    let reversed = reverse_hunk(&hunk);
    assert_eq!(reversed.lines, vec![" ctx", "+old", "-new"]);
    assert_eq!(reversed.file_header, "--- a/a.txt\n+++ b/a.txt");
}

#[test]
fn reverse_hunk_creation_becomes_deletion() {
    let mut hunk = test_hunk(&["+hello"]);
    hunk.old_file = "dev/null".into();
    hunk.file_header = "--- /dev/null\n+++ b/a.txt".into();
    hunk.header = "@@ -0,0 +1,1 @@".into();

    let reversed = reverse_hunk(&hunk);
    assert_eq!(reversed.lines, vec!["-hello"]);
    assert_eq!(reversed.file_header, "--- a/a.txt\n+++ /dev/null");
    assert_eq!(reversed.header, "@@ -1,1 +0,0 @@");
}

#[test]
fn reverse_header_swaps_ranges() {
    assert_eq!(reverse_header("@@ -1,3 +5,7 @@"), "@@ -5,7 +1,3 @@");
    assert_eq!(
        reverse_header("@@ -1,3 +1,4 @@ fn main()"),
        "@@ -1,4 +1,3 @@ fn main()"
    );
    assert_eq!(reverse_header("@@ -5 +5,2 @@"), "@@ -5,2 +5 @@");
}

#[test]
fn reverse_header_leaves_other_text_alone() {
    assert_eq!(reverse_header("not a header"), "not a header");
    assert_eq!(reverse_header("@@ -1,2 @@"), "@@ -1,2 @@");
}

#[test]
fn reversing_twice_gives_the_hunk_back() {
    let hunk = test_hunk(&[" ctx", "-old", "+new", "\\ No newline at end of file"]);
    assert_eq!(reverse_hunk(&reverse_hunk(&hunk)), hunk);
    assert_eq!(reverse_header(&reverse_header("@@ -1,3 +5,7 @@ f")), "@@ -1,3 +5,7 @@ f");
}

#[test]
fn directed_patches() {
    let hunk = test_hunk(&["-old", "+new"]);
    assert_eq!(
        build_directed_patch(hunk.clone(), false),
        "--- a/a.txt\n+++ b/a.txt\n@@ -1,3 +1,3 @@\n-old\n+new\n"
    );
    assert_eq!(
        build_directed_patch(hunk, true),
        "--- a/a.txt\n+++ b/a.txt\n@@ -1,3 +1,3 @@\n+old\n-new\n"
    );
}

#[test]
fn combined_patch_of_nothing_is_empty() {
    assert_eq!(build_combined_patch(&[], false), Ok(String::new()));
    assert_eq!(build_combined_patch(&[], true), Ok(String::new()));
}

#[test]
fn combined_patch_puts_whole_hunks_together() {
    let a = test_hunk(&["-old", "+new"]);
    let b = test_hunk(&["+more"]);
    let specs: Vec<HunkSpec<'_>> = vec![("a", &a, vec![]), ("b", &b, vec![])];
    assert_eq!(
        build_combined_patch(&specs, false),
        Ok("--- a/a.txt\n+++ b/a.txt\n@@ -1,3 +1,3 @@\n-old\n+new\n--- a/a.txt\n+++ b/a.txt\n@@ -1,3 +1,3 @@\n+more\n".to_string())
    );
}

#[test]
fn combined_patch_cuts_hunks_down() {
    let mut h = test_hunk(&[" ctx", "-one", "-two", "+uno", "+due"]);
    h.header = "@@ -4,3 +4,3 @@ fn f()".into();
    let specs: Vec<HunkSpec<'_>> = vec![("a", &h, vec![(2, 2), (4, 4)])];
    assert_eq!(
        build_combined_patch(&specs, false),
        Ok("--- a/a.txt\n+++ b/a.txt\n@@ -4,3 +4,3 @@ fn f()\n ctx\n-one\n two\n+uno\n".to_string())
    );
    assert_eq!(
        build_combined_patch(&specs, true),
        Ok("--- a/a.txt\n+++ b/a.txt\n@@ -4,3 +4,3 @@ fn f()\n ctx\n+one\n-uno\n due\n".to_string())
    );
}

#[test]
fn combined_patch_refuses_unsupported_metadata() {
    let mut h = test_hunk(&["+x"]);
    h.unsupported_metadata = Some("rename from".into());
    let specs: Vec<HunkSpec<'_>> = vec![("abc1234", &h, vec![])];
    let error = build_combined_patch(&specs, false).unwrap_err();
    assert_eq!(
        error,
        PatchError::Unsupported(
            "hunk abc1234 involves 'rename from' which is not supported for hunk-level operations"
                .into()
        )
    );
    assert_eq!(
        error.message(),
        "hunk abc1234 involves 'rename from' which is not supported for hunk-level operations"
    );
}

#[test]
fn combined_patch_refuses_to_cut_without_line_numbers() {
    let mut h = test_hunk(&["+x", "+y"]);
    h.header = "@@ nonsense @@".into();
    let specs: Vec<HunkSpec<'_>> = vec![("abc1234", &h, vec![(1, 1)])];
    let error = build_combined_patch(&specs, false).unwrap_err();
    assert_eq!(error, PatchError::BadHeader("cannot parse old start from header".into()));
    assert_eq!(error.message(), "cannot parse old start from header");
}

#[test]
fn combined_patch_reports_the_first_error() {
    let mut moved = test_hunk(&["+x"]);
    moved.unsupported_metadata = Some("old mode".into());
    let mut torn = test_hunk(&["+x", "+y"]);
    torn.header = "@@ nonsense @@".into();
    let specs: Vec<HunkSpec<'_>> = vec![("t", &torn, vec![(1, 1)]), ("m", &moved, vec![])];
    assert!(matches!(build_combined_patch(&specs, false), Err(PatchError::BadHeader(_))));
}

#[test]
fn combined_patch_reads_back() {
    let raw = "--- a/f\n+++ b/f\n@@ -1,2 +1,3 @@ head\n a\n-b\n+c\n+d\n@@ -9,1 +10,1 @@\n-p\n+q\n";
    let hunks = parse_diff(raw);
    let specs: Vec<HunkSpec<'_>> =
        vec![("x", &hunks[0], vec![(2, 3)]), ("y", &hunks[1], vec![])];
    let patch = build_combined_patch(&specs, false).unwrap();
    let again = parse_diff(&patch);
    assert_eq!(again.len(), 2);
    assert_eq!(again[0].header, "@@ -1,2 +1,2 @@ head");
    assert_eq!(again[0].lines, vec![" a", "-b", "+c"]);
    assert_eq!(again[1], hunks[1]);
}

#[test]
fn undoing_applies_to_what_doing_leaves_behind() {
    let h = test_hunk(&[" ctx", "-old", "+new", "+more"]);
    let undo: Vec<HunkSpec<'_>> = vec![("a", &h, vec![(4, 4)])];
    let patch = build_combined_patch(&undo, true).unwrap();
    assert_eq!(
        patch,
        "--- a/a.txt\n+++ b/a.txt\n@@ -1,3 +1,2 @@\n ctx\n new\n-more\n"
    );
}

#[test]
fn combined_patch_of_several_files_reads_back() {
    let raw = "diff --git a/f b/f\n--- a/f\n+++ b/f\n@@ -1,1 +1,1 @@\n--- a\n+b\ndiff --git a/g b/g\n--- a/g\n+++ b/g\n@@ -2,1 +2,2 @@\n c\n+d\n";
    let hunks = parse_diff(raw);
    let specs: Vec<HunkSpec<'_>> = vec![("x", &hunks[0], vec![]), ("y", &hunks[1], vec![])];
    let patch = build_combined_patch(&specs, false).unwrap();
    assert_eq!(parse_diff(&patch), hunks);
}

#[test]
fn cutting_takes_over_starts_and_context() {
    let cut = |header: &str| {
        let mut h = test_hunk(&["+x", "+y"]);
        h.header = header.into();
        let specs: Vec<HunkSpec<'_>> = vec![("a", &h, vec![(1, 1)])];
        build_combined_patch(&specs, false).map(|p| p.lines().nth(2).unwrap().to_string())
    };
    let bad = |what: &str| Err(PatchError::BadHeader(format!("cannot parse {what} start from header")));
    assert_eq!(cut("@@ -4,2 +5,2 @@ ctx"), Ok("@@ -4,0 +5,1 @@ ctx".to_string()));
    assert_eq!(cut("@@  -4\t +5 "), Ok("@@ -4,0 +5,1 @@".to_string()));
    assert_eq!(
        cut("@@ @@ -4,2 +5,2 @@ ctx"),
        Ok("@@ -4,0 +5,1 @@ -4,2 +5,2 @@ ctx".to_string())
    );
    assert_eq!(cut("-4 +5"), Ok("@@ -4,0 +5,1 @@".to_string()));
    assert_eq!(cut("@@ -4 5 @@"), bad("new"));
    assert_eq!(cut("@@ -4 @@"), bad("new"));
    assert_eq!(cut("@@ +4 -5 @@"), bad("old"));
    assert_eq!(cut(""), bad("old"));
}
