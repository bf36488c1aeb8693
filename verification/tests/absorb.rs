use jj_hunk_tool::absorb::{
    group_by_target, matching_specs, squash_into, squash_matching, undo_hint, work_to_do,
};
use jj_hunk_tool::diff::parse_diff;
use jj_hunk_tool::hunk::DiffHunk;
use jj_hunk_tool::jj::{ancestors_in, Ancestors};
use jj_hunk_tool::operate::{ApplyMode, ToolError};
use jj_hunk_tool::report::format_plan;
use jj_hunk_tool::review::{
    describe, find_hunk, format_heading, heading, heading_in, prompt, target_line, target_menu, Answer, Review,
};
use jj_hunk_tool::route::{
    count_changes, first_step, nothing_to_absorb, route_hunk, route_hunks, unique_files, FileFacts,
    FirstStep, HunkFingerprint, HunkRouting,
};

fn hunk(file: &str, header: &str, lines: &[&str]) -> DiffHunk {
    DiffHunk {
        file: file.into(),
        old_file: file.into(),
        new_file: file.into(),
        file_header: format!("--- a/{file}\n+++ b/{file}"),
        header: header.into(),
        lines: lines.iter().map(|l| l.to_string()).collect(),
        unsupported_metadata: None,
    }
}

fn strings(texts: &[&str]) -> Vec<String> {
    texts.iter().map(|t| t.to_string()).collect()
}

fn three() -> Ancestors {
    ancestors_in("aaa\tadd a\nbbb\t\nccc\tadd c\n")
}

fn routed(id: &str, file: &str, target: Option<&str>, reason: &'static str) -> (HunkRouting, HunkFingerprint) {
    (
        HunkRouting {
            hunk_id: id.into(),
            file: file.into(),
            additions: 2,
            deletions: 1,
            target: target.map(|t| t.to_string()),
            candidates: vec![],
            reason,
        },
        HunkFingerprint { file: file.into(), change_lines: vec![format!("+{id}")] },
    )
}

#[test]
fn fingerprint_ignores_context() {
    let hunk1 = DiffHunk {
        file: "a.txt".into(),
        old_file: "a.txt".into(),
        new_file: "a.txt".into(),
        file_header: String::new(),
        header: String::new(),
        lines: vec![
            " context1".into(),
            "-old".into(),
            "+new".into(),
            " context2".into(),
        ],
        unsupported_metadata: None,
    };
    let hunk2 = DiffHunk {
        file: "a.txt".into(),
        old_file: "a.txt".into(),
        new_file: "a.txt".into(),
        file_header: String::new(),
        header: String::new(),
        lines: vec![
            " different_context".into(),
            "-old".into(),
            "+new".into(),
            " also_different".into(),
        ],
        unsupported_metadata: None,
    };
    assert_eq!(
        HunkFingerprint::from_hunk(&hunk1),
        HunkFingerprint::from_hunk(&hunk2),
    );
}

#[test]
fn fingerprints_tell_changes_and_files_apart() {
    let a = HunkFingerprint::from_hunk(&hunk("a", "@@ -1 +1 @@", &[" x", "-y", "+z"]));
    assert_eq!(a.file, "a");
    assert_eq!(a.change_lines, vec!["-y", "+z"]);
    let b = HunkFingerprint::from_hunk(&hunk("b", "@@ -1 +1 @@", &["-y", "+z"]));
    let c = HunkFingerprint::from_hunk(&hunk("a", "@@ -1 +1 @@", &["+z", "-y"]));
    assert!(a.same(&a.clone()));
    assert!(!a.same(&b));
    assert!(!a.same(&c));
}

#[test]
fn changes_are_counted() {
    assert_eq!(count_changes(&strings(&[" a", "+b", "-c", "+d", "\\ x", ""])), (2, 1));
}

#[test]
fn files_are_annotated_once_and_new_ones_never() {
    let a = hunk("a", "@@ -1 +1 @@", &["-x"]);
    let b = hunk("b", "@@ -1 +1 @@", &["-x"]);
    let mut new = hunk("n", "@@ -0,0 +1 @@", &["+x"]);
    new.old_file = "dev/null".into();
    let selected = [("1", &a), ("2", &new), ("3", &b), ("4", &a)];
    assert_eq!(unique_files(&selected), vec!["a", "b"]);
}

#[test]
fn a_hunk_goes_where_its_removed_lines_come_from() {
    let h = hunk("f", "@@ -2,3 +2,2 @@", &[" x", "-y", "+new", "-z"]);
    let annotations = strings(&["ccc", "ccc", "aaa", "aaa", "ccc"]);
    let r = route_hunk("id", &h, Some(&annotations), Some(&strings(&["bbb"])), &three());
    assert_eq!(r.hunk_id, "id");
    assert_eq!(r.file, "f");
    assert_eq!((r.additions, r.deletions), (1, 2));
    assert_eq!(r.target.as_deref(), Some("aaa"));
    assert!(r.candidates.is_empty());
    assert_eq!(r.reason, "matched");
}

#[test]
fn a_hunk_over_several_ancestors_is_ambiguous() {
    let h = hunk("f", "@@ -1,3 +0,0 @@", &["-x", "-y", "-z"]);
    let r = route_hunk("id", &h, Some(&strings(&["ccc", "zzz", "aaa"])), None, &three());
    assert_eq!(r.target, None);
    assert_eq!(r.candidates, vec!["ccc", "aaa"]);
    assert_eq!(r.reason, "ambiguous");
}

#[test]
fn a_hunk_without_hits_goes_by_its_file() {
    let h = hunk("f", "@@ -1 +1,2 @@", &[" x", "+y"]);
    let annotations = strings(&["aaa"]);
    let r = route_hunk("id", &h, Some(&annotations), Some(&strings(&["bbb", "aaa"])), &three());
    assert_eq!(r.target.as_deref(), Some("bbb"));
    assert_eq!(r.reason, "matched (file)");
    for touched_by in [None, Some(&Vec::new())] {
        let r = route_hunk("id", &h, Some(&annotations), touched_by, &three());
        assert_eq!(r.target, None);
        assert_eq!(r.reason, "no overlapping ancestor hunk");
    }
    let immutable = hunk("f", "@@ -1 +0,0 @@", &["-x"]);
    let r = route_hunk("id", &immutable, Some(&strings(&["zzz"])), None, &three());
    assert_eq!(r.reason, "no overlapping ancestor hunk");
}

#[test]
fn hunks_that_cannot_be_annotated_go_nowhere() {
    let mut new = hunk("f", "@@ -0,0 +1 @@", &["+x"]);
    new.old_file = "/dev/null".into();
    let r = route_hunk("id", &new, Some(&strings(&["aaa"])), Some(&strings(&["aaa"])), &three());
    assert_eq!((r.target, r.reason), (None, "new file"));
    let h = hunk("f", "@@ -1 +0,0 @@", &["-x"]);
    let r = route_hunk("id", &h, None, Some(&strings(&["aaa"])), &three());
    assert_eq!((r.target, r.reason), (None, "annotation failed"));
}

#[test]
fn lines_beyond_the_annotations_come_from_nowhere() {
    let annotations = strings(&["aaa"]);
    for header in ["@@ -2 +0,0 @@", "@@ -18446744073709551615,2 +0,0 @@", "no header"] {
        let h = hunk("f", header, &["-x", "-y"]);
        let r = route_hunk("id", &h, Some(&annotations), None, &three());
        assert_eq!(r.reason, "no overlapping ancestor hunk", "{header}");
    }
    let zero = hunk("f", "@@ -0,1 +0,0 @@", &["-x"]);
    let r = route_hunk("id", &zero, Some(&annotations), None, &three());
    assert_eq!(r.target.as_deref(), Some("aaa"));
}

#[test]
fn hunks_are_routed_by_the_facts_on_their_files() {
    let a = hunk("a", "@@ -1 +0,0 @@", &["-x"]);
    let b = hunk("b", "@@ -1 +0,0 @@", &["-x"]);
    let c = hunk("c", "@@ -1 +0,0 @@", &["-x"]);
    let facts = vec![
        FileFacts { file: "b".into(), annotations: Some(strings(&["bbb"])), touched_by: None },
        FileFacts {
            file: "a".into(),
            annotations: Some(strings(&["zzz"])),
            touched_by: Some(strings(&["ccc"])),
        },
    ];
    let routed = route_hunks(&[("1", &a), ("2", &b), ("3", &c)], &facts, &three());
    assert_eq!(routed.len(), 3);
    assert_eq!(routed[0].0.target.as_deref(), Some("ccc"));
    assert_eq!(routed[0].0.reason, "matched (file)");
    assert_eq!(routed[1].0.target.as_deref(), Some("bbb"));
    assert_eq!(routed[1].0.reason, "matched");
    assert_eq!(routed[2].0.reason, "annotation failed");
    assert_eq!(routed[2].1, HunkFingerprint::from_hunk(&c));
}

#[test]
fn review_of_nothing_is_done() {
    assert!(Review::new(vec![]).is_done());
}

#[test]
fn review_keeps_and_skips_single_hunks() {
    let mut review = Review::new(vec![
        routed("1", "a", Some("aaa"), "matched"),
        routed("2", "a", Some("bbb"), "matched"),
    ]);
    assert_eq!(review.at, 0);
    assert_eq!(review.on_key(Some('a')), Answer::Next);
    assert_eq!(review.at, 1);
    assert_eq!(review.on_key(Some('s')), Answer::Next);
    assert!(review.is_done());
    assert_eq!(review.routed[0].0.target.as_deref(), Some("aaa"));
    assert_eq!(review.routed[0].0.reason, "matched");
    assert_eq!(review.routed[1].0.target, None);
    assert_eq!(review.routed[1].0.reason, "skipped");
}

#[test]
fn review_keeps_and_skips_files() {
    let mut review = Review::new(vec![
        routed("1", "a", Some("aaa"), "matched"),
        routed("2", "a", None, "ambiguous"),
        routed("3", "b", Some("bbb"), "matched"),
        routed("4", "b", Some("bbb"), "matched"),
        routed("5", "a", Some("aaa"), "matched"),
    ]);
    assert_eq!(review.on_key(Some('A')), Answer::Next);
    assert_eq!(review.at, 2);
    assert_eq!(review.on_key(Some('S')), Answer::Next);
    assert_eq!(review.at, 4);
    assert_eq!(review.on_key(Some('a')), Answer::Next);
    assert!(review.is_done());
    let reasons: Vec<&str> = review.routed.iter().map(|(r, _)| r.reason).collect();
    assert_eq!(
        reasons,
        vec!["matched", "ambiguous", "skipped (file)", "skipped (file)", "matched"]
    );
    assert_eq!(review.routed[2].0.target, None);
    assert_eq!(review.routed[3].0.target, None);
    assert_eq!(review.routed[4].0.target.as_deref(), Some("aaa"));
}

#[test]
fn review_needs_a_target_to_absorb() {
    let mut review = Review::new(vec![routed("1", "a", None, "ambiguous")]);
    let message = Answer::Again("No target set. Use [t] to pick a target first.");
    assert_eq!(review.on_key(Some('a')), message);
    assert_eq!(review.on_key(Some('A')), message);
    assert_eq!(review.at, 0);
    assert_eq!(review.on_key(Some('t')), Answer::PickTarget);
    assert_eq!(review.on_key(Some('T')), Answer::PickTarget);
    for wrong in ["", "0", "4", "x", "-1", "99999999999999999999999"] {
        assert_eq!(review.on_number(wrong, &three()), (false, "Invalid selection.".to_string()));
    }
    assert_eq!(
        review.on_number(" 3\r\n", &three()),
        (true, "→ Retargeted to ccc (add c)".to_string())
    );
    assert!(review.is_done());
    assert_eq!(review.routed[0].0.target.as_deref(), Some("ccc"));
    assert_eq!(review.routed[0].0.reason, "retargeted");
}

#[test]
fn review_ignores_blanks_and_explains_other_keys() {
    let mut review = Review::new(vec![routed("1", "a", Some("aaa"), "matched")]);
    for blank in ['\n', '\r', ' '] {
        assert_eq!(review.on_key(Some(blank)), Answer::Again(""));
    }
    assert_eq!(review.on_key(Some('x')), Answer::Again("Unknown action. Use a/A/s/S/t/q."));
    assert_eq!(review.at, 0);
    assert_eq!(
        review.on_number("2", &three()),
        (true, "→ Retargeted to bbb".to_string())
    );
}

#[test]
fn quitting_keeps_what_was_decided_and_nothing_else() {
    for key in [Some('q'), Some('Q'), None] {
        let mut review = Review::new(vec![
            routed("1", "a", Some("aaa"), "matched"),
            routed("2", "b", Some("bbb"), "matched"),
            routed("3", "c", None, "ambiguous"),
        ]);
        review.on_key(Some('a'));
        assert_eq!(review.on_key(key), Answer::Next);
        assert!(review.is_done());
        assert_eq!(review.routed[0].0.target.as_deref(), Some("aaa"));
        for (r, _) in &review.routed[1..] {
            assert_eq!(r.target, None);
            assert_eq!(r.reason, "skipped (quit)");
        }
        let groups = group_by_target(&review.routed);
        assert_eq!(groups.len(), 1);
        assert_eq!(groups[0].0, "aaa");
    }
}

#[test]
fn what_a_review_shows() {
    let (mut r, _) = routed("abc1234", "src/x.rs", Some("aaa"), "matched");
    assert_eq!(heading(&r, false), "\nabc1234 src/x.rs (+2 -1)\n");
    let styled = heading(&r, true);
    assert!(styled.contains("abc1234") && styled.ends_with(" (+2 -1)\n"));
    assert_eq!(format_heading("i", "f", 0, 10), "\ni f (+0 -10)\n");
    assert_eq!(target_line(&r, &three()), "Target: aaa (add a)");
    r.target = Some("bbb".into());
    assert_eq!(target_line(&r, &three()), "Target: bbb");
    r.target = None;
    r.reason = "new file";
    assert_eq!(target_line(&r, &three()), "Unmatched: new file");
    r.reason = "ambiguous";
    r.candidates = strings(&["ccc", "bbb", "aaa"]);
    assert_eq!(target_line(&r, &three()), "Ambiguous: ccc (add c), bbb, aaa (add a)");
    assert_eq!(
        target_menu(&three()),
        "Select target:\n  1: aaa (add a)\n  2: bbb\n  3: ccc (add c)\n"
    );
    assert_eq!(describe(&three(), "ddd"), "ddd");
    assert_eq!(
        prompt(),
        "[a]bsorb / [A]bsorb file / [s]kip / [S]kip file / [t]arget / [q]uit: "
    );
}

#[test]
fn styled_headings_are_bold_where_colours_are_on() {
    console::set_colors_enabled(true);
    let (r, _) = routed("abc1234", "src/x.rs", Some("aaa"), "matched");
    assert_eq!(
        heading(&r, true),
        "\n\u{1b}[1mabc1234\u{1b}[0m \u{1b}[1msrc/x.rs\u{1b}[0m (+2 -1)\n"
    );
    assert_eq!(heading(&r, true), heading_in(&r, true));
    assert_eq!(heading(&r, false), heading_in(&r, false));
    console::set_colors_enabled(false);
    assert_eq!(heading(&r, true), "\nabc1234 src/x.rs (+2 -1)\n");
}

#[test]
fn absorbing_begins_with_the_ancestors() {
    let a = hunk("a", "@@ -1 +1 @@", &["-x"]);
    let message = "Nothing to absorb: no mutable ancestors.".to_string();
    assert_eq!(nothing_to_absorb(&ancestors_in("")), Some(message.clone()));
    assert_eq!(nothing_to_absorb(&three()), None);
    assert_eq!(first_step(&[("1", &a)], &ancestors_in("no tab\n")), FirstStep::Stop(message));
    assert_eq!(first_step(&[("1", &a)], &three()), FirstStep::Annotate(strings(&["a"])));
}

#[test]
fn targets_are_ancestors() {
    let h = hunk("f", "@@ -1 +0,0 @@", &["-x"]);
    let facts = vec![FileFacts {
        file: "f".into(),
        annotations: Some(strings(&["zzz"])),
        touched_by: Some(strings(&["bbb"])),
    }];
    let routed = route_hunks(&[("1", &h)], &facts, &three());
    let groups = group_by_target(&routed);
    assert_eq!(groups.len(), 1);
    assert!(three().contains(&groups[0].0));
    let none = vec![FileFacts {
        file: "f".into(),
        annotations: Some(strings(&["zzz"])),
        touched_by: Some(vec![]),
    }];
    assert!(group_by_target(&route_hunks(&[("1", &h)], &none, &ancestors_in(""))).is_empty());
}

#[test]
fn hunks_are_found_by_id() {
    let a = hunk("a", "@@ -1 +1 @@", &["-x"]);
    let b = hunk("b", "@@ -1 +1 @@", &["-x"]);
    let selected = [("1", &a), ("2", &b), ("1", &b)];
    assert_eq!(find_hunk(&selected, "1").unwrap().file, "a");
    assert_eq!(find_hunk(&selected, "2").unwrap().file, "b");
    assert!(find_hunk(&selected, "3").is_none());
}

#[test]
fn report_on_all_three_kinds() {
    let mut torn = routed("2", "b", None, "ambiguous");
    torn.0.candidates = strings(&["aaa", "bbb"]);
    let all = vec![
        routed("1", "a", Some("aaa"), "matched"),
        torn,
        routed("3", "c", None, "new file"),
        routed("4", "d", Some("bbb"), "matched (file)"),
    ];
    let rest = " 2 hunk(s):\n  1 (a +2 -1) → aaa (add a)\n  4 (d +2 -1) → bbb\n\nAmbiguous (staying in @):\n  2 (b +2 -1) — overlaps aaa (add a), bbb\n\nUnmatched (staying in @):\n  3 (c +2 -1) — new file\n";
    assert_eq!(format_plan(&all, &three(), "@", true), format!("Would absorb{rest}"));
    assert_eq!(format_plan(&all, &three(), "@", false), format!("Absorbed{rest}"));
}

#[test]
fn report_on_nothing_to_absorb() {
    assert_eq!(
        format_plan(&vec![], &three(), "@", false),
        "Nothing to absorb: no hunks matched any ancestor.\n"
    );
    assert_eq!(
        format_plan(&vec![routed("3", "c", None, "skipped")], &three(), "x", true),
        "Nothing to absorb: no hunks matched any ancestor.\n\nUnmatched (staying in x):\n  3 (c +2 -1) — skipped\n"
    );
}

#[test]
fn groups_by_target() {
    let all = vec![
        routed("1", "a", Some("bbb"), "matched"),
        routed("2", "b", Some("aaa"), "matched"),
        routed("3", "c", None, "new file"),
        routed("4", "d", Some("bbb"), "retargeted"),
    ];
    let groups = group_by_target(&all);
    assert_eq!(groups.len(), 2);
    assert_eq!(groups[0].0, "bbb");
    assert_eq!(groups[0].1, vec![all[0].1.clone(), all[3].1.clone()]);
    assert_eq!(groups[1].0, "aaa");
    assert_eq!(groups[1].1, vec![all[1].1.clone()]);
    assert_eq!(work_to_do(&all, false), groups);
    assert!(work_to_do(&all, true).is_empty());
}

#[test]
fn moves_find_hunks_again_by_fingerprint() {
    let raw = "diff --git a/f b/f\n--- a/f\n+++ b/f\n@@ -30,2 +30,2 @@\n ctx\n-x\n+y\n@@ -50,1 +50,1 @@\n-p\n+q\n";
    let wanted = vec![HunkFingerprint::from_hunk(&hunk("f", "@@ -1 +1 @@", &["-x", "+y"]))];
    let run = squash_into(raw, &wanted, "@", "aaa").unwrap().unwrap();
    assert_eq!(run.args, vec!["squash", "--from", "@", "--into", "aaa"]);
    assert_eq!(run.patch, "--- a/f\n+++ b/f\n@@ -30,2 +30,2 @@\n ctx\n-x\n+y\n");
    assert_eq!(run.mode, ApplyMode::Reset);
    assert_eq!(squash_into(raw, &vec![], "@", "aaa"), Ok(None));
    assert_eq!(squash_into("", &wanted, "@", "aaa"), Ok(None));
}

#[test]
fn moves_of_unsupported_hunks_are_refused_by_id() {
    let mut h = hunk("f", "@@ -1 +1 @@", &["-x", "+y"]);
    h.unsupported_metadata = Some("rename to".into());
    let identified = vec![("abc1234".to_string(), &h)];
    let wanted = vec![HunkFingerprint::from_hunk(&h)];
    assert_eq!(matching_specs(&identified, &wanted).len(), 1);
    let error = squash_matching(&identified, &wanted, "@", "aaa").unwrap_err();
    assert!(matches!(error, ToolError::Patch(_)));
    assert_eq!(
        error.message(),
        "hunk abc1234 involves 'rename to' which is not supported for hunk-level operations"
    );
}

#[test]
fn moves_name_the_id_that_hunks_are_given() {
    let raw = "diff --git a/f b/f\nrename from g\nrename to f\n--- a/g\n+++ b/f\n@@ -1 +1 @@\n-x\n+y\n";
    let hunks = parse_diff(raw);
    let wanted = vec![HunkFingerprint::from_hunk(&hunks[0])];
    let id = jj_hunk_tool::surgeon::assign_ids(&hunks)[0].0.clone();
    assert_eq!(
        squash_into(raw, &wanted, "@", "aaa").unwrap_err().message(),
        format!("hunk {id} involves 'rename from' which is not supported for hunk-level operations")
    );
}

#[test]
fn moves_can_be_undone() {
    assert_eq!(undo_hint("0123abcd"), "To undo, run: jj op restore 0123abcd");
}
