use jj_hunk_tool::hunk::DiffHunk;
use jj_hunk_tool::operate::{
    deleted_files, diffedit_hunks, restore_hunks, split_hunks, squash_hunks, with_program, with_tool,
    ApplyMode, JjRun, ToolError,
};
use jj_hunk_tool::patch::{HunkSpec, PatchError};

fn test_hunk(lines: &[&str]) -> DiffHunk {
    DiffHunk {
        file: "a.txt".into(),
        old_file: "a.txt".into(),
        new_file: "a.txt".into(),
        file_header: "--- a/a.txt\n+++ b/a.txt".into(),
        header: "@@ -1,1 +1,1 @@".into(),
        lines: lines.iter().map(|l| l.to_string()).collect(),
        unsupported_metadata: None,
    }
}

#[test]
fn split_passes_everything_on() {
    let h = test_hunk(&["-old", "+new"]);
    let specs: Vec<HunkSpec<'_>> = vec![("a", &h, vec![])];
    assert_eq!(
        split_hunks(&specs, Some("@-"), Some("first part"), true, &["--quiet"]),
        Ok(JjRun {
            args: ["split", "-r", "@-", "-m", "first part", "--parallel", "--quiet"]
                .iter()
                .map(|a| a.to_string())
                .collect(),
            patch: "--- a/a.txt\n+++ b/a.txt\n@@ -1,1 +1,1 @@\n-old\n+new\n".into(),
            mode: ApplyMode::Reset,
        })
    );
    assert_eq!(split_hunks(&specs, None, None, false, &[]).unwrap().args, vec!["split"]);
}

#[test]
fn squash_and_restore_differ_in_direction() {
    let h = test_hunk(&["-old", "+new"]);
    let specs: Vec<HunkSpec<'_>> = vec![("a", &h, vec![])];
    let squash = squash_hunks(&specs, &["--into", "x"]).unwrap();
    assert_eq!(squash.args, vec!["squash", "--into", "x"]);
    assert_eq!(squash.patch, "--- a/a.txt\n+++ b/a.txt\n@@ -1,1 +1,1 @@\n-old\n+new\n");
    assert_eq!(squash.mode, ApplyMode::Reset);
    let restore = restore_hunks(&specs, &["--changes-in", "@"]).unwrap();
    assert_eq!(restore.args, vec!["restore", "--changes-in", "@"]);
    assert_eq!(restore.patch, "--- a/a.txt\n+++ b/a.txt\n@@ -1,1 +1,1 @@\n+old\n-new\n");
    assert_eq!(restore.mode, ApplyMode::Reset);
}

#[test]
fn nothing_selected_is_refused() {
    assert_eq!(split_hunks(&[], None, None, false, &[]), Err(ToolError::NoHunks));
    assert_eq!(squash_hunks(&[], &[]), Err(ToolError::NoHunks));
    assert_eq!(restore_hunks(&[], &[]), Err(ToolError::NoHunks));
    assert_eq!(diffedit_hunks(&[], &[], &[]), Err(ToolError::NoHunks));
    assert_eq!(ToolError::NoHunks.message(), "no hunks selected");
}

#[test]
fn a_patch_that_cannot_be_built_is_refused() {
    let mut h = test_hunk(&["+x"]);
    h.unsupported_metadata = Some("new mode".into());
    let specs: Vec<HunkSpec<'_>> = vec![("a", &h, vec![])];
    let error = squash_hunks(&specs, &[]).unwrap_err();
    assert!(matches!(error, ToolError::Patch(PatchError::Unsupported(_))));
    assert_eq!(
        error.message(),
        "hunk a involves 'new mode' which is not supported for hunk-level operations"
    );
}

#[test]
fn diffedit_removes_what_is_not_selected() {
    let kept = test_hunk(&["-old", "+new"]);
    let dropped = test_hunk(&["+more"]);
    let identified = vec![("a".to_string(), &kept), ("b".to_string(), &dropped)];
    let selected: Vec<HunkSpec<'_>> = vec![("a", &kept, vec![])];
    let run = diffedit_hunks(&identified, &selected, &["-r", "x"]).unwrap().unwrap();
    assert_eq!(run.args, vec!["diffedit", "-r", "x"]);
    assert_eq!(run.patch, "--- a/a.txt\n+++ b/a.txt\n@@ -1,1 +1,1 @@\n-more\n");
    assert_eq!(run.mode, ApplyMode::InPlace);
}

#[test]
fn diffedit_of_everything_runs_nothing() {
    let h = test_hunk(&["-old", "+new"]);
    let identified = vec![("a".to_string(), &h)];
    let selected: Vec<HunkSpec<'_>> = vec![("a", &h, vec![(1, 2)])];
    assert_eq!(diffedit_hunks(&identified, &selected, &[]), Ok(None));
}

#[test]
fn diffedit_fails_closed() {
    let kept = test_hunk(&["-old", "+new"]);
    let mut stuck = test_hunk(&["+more"]);
    stuck.unsupported_metadata = Some("old mode".into());
    let identified = vec![("a".to_string(), &kept), ("b".to_string(), &stuck)];
    let selected: Vec<HunkSpec<'_>> = vec![("a", &kept, vec![])];
    let error = diffedit_hunks(&identified, &selected, &[]).unwrap_err();
    assert!(matches!(error, ToolError::CannotRemove(PatchError::Unsupported(_))));
    assert_eq!(error.message(), "cannot remove unselected hunk");
}

#[test]
fn the_handler_is_configured_inline() {
    let args = vec!["squash".to_string()];
    assert_eq!(
        with_tool(&args, "/usr/bin/jj-hunk-tool"),
        vec![
            "squash",
            "--config",
            "ui.editor=\"true\"",
            "--config",
            "merge-tools.jj-hunk-tool.program=\"/usr/bin/jj-hunk-tool\"",
            "--config",
            "merge-tools.jj-hunk-tool.edit-args=[\"_jj-tool\", \"$left\", \"$right\"]",
            "--tool",
            "jj-hunk-tool",
        ]
    );
    assert_eq!(
        with_tool(&args, "C:\\bin\\\"t\"")[4],
        "merge-tools.jj-hunk-tool.program=\"C:\\\\bin\\\\\\\"t\\\"\""
    );
}

#[test]
fn the_program_is_taken_as_it_is_quoted() {
    assert_eq!(
        with_program(&vec![], "'x'")[3],
        "merge-tools.jj-hunk-tool.program='x'"
    );
}

#[test]
fn deleted_files_of_a_patch() {
    let patch = "--- a/gone.txt\n+++ /dev/null\n@@ -1,1 +0,0 @@\n-bye\n--- a/kept.txt\n+++ b/kept.txt\n@@ -1,1 +1,1 @@\n-a\n+b\n";
    assert_eq!(deleted_files(patch), vec!["gone.txt"]);
    let alone = "--- a/gone.txt\n+++ /dev/null\n@@ -1,1 +0,0 @@\n-bye\n";
    assert_eq!(deleted_files(alone), vec!["gone.txt"]);
    assert_eq!(deleted_files(""), Vec::<String>::new());
}

#[test]
fn deleted_files_with_lookalike_lines() {
    let patch = "--- a/f\n+++ /dev/null\n@@ -1,2 +0,0 @@\n--- note\n-x\n";
    assert_eq!(deleted_files(patch), vec!["f"]);
    let two = "--- a/f\n+++ /dev/null\n@@ -1,2 +0,0 @@\n--- note\n-x\n--- a/g\n+++ /dev/null\n@@ -1,1 +0,0 @@\n-y\n";
    assert_eq!(deleted_files(two), vec!["f", "g"]);
    let added = "--- /dev/null\n+++ b/f\n@@ -0,0 +1,1 @@\n+++ /dev/null\n";
    assert!(deleted_files(added).is_empty());
}

#[test]
fn a_combined_patch_marks_its_deletions() {
    let mut gone = test_hunk(&["--- note", "-x"]);
    gone.file = "gone.txt".into();
    gone.old_file = "gone.txt".into();
    gone.new_file = "dev/null".into();
    gone.file_header = "--- a/gone.txt\n+++ /dev/null".into();
    gone.header = "@@ -1,2 +0,0 @@".into();
    let kept = test_hunk(&["-old", "+new"]);
    let specs: Vec<HunkSpec<'_>> = vec![("g", &gone, vec![]), ("k", &kept, vec![])];
    assert_eq!(deleted_files(&squash_hunks(&specs, &[]).unwrap().patch), vec!["gone.txt"]);
    assert!(deleted_files(&restore_hunks(&specs, &[]).unwrap().patch).is_empty());
}

#[test]
fn undoing_a_creation_deletes_the_file() {
    let mut h = test_hunk(&["+hello"]);
    h.old_file = "dev/null".into();
    h.file_header = "--- /dev/null\n+++ b/a.txt".into();
    h.header = "@@ -0,0 +1,1 @@".into();
    let specs: Vec<HunkSpec<'_>> = vec![("a", &h, vec![])];
    let undo = restore_hunks(&specs, &[]).unwrap();
    assert_eq!(deleted_files(&undo.patch), vec!["a.txt"]);
    let redo = squash_hunks(&specs, &[]).unwrap();
    assert!(deleted_files(&redo.patch).is_empty());
}
