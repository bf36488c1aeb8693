use jj_hunk_tool::hunk::DiffHunk;
use jj_hunk_tool::patch::HunkSpec;
use jj_hunk_tool::ranges::invert_ranges;
use jj_hunk_tool::selection::complement_specs;

fn test_hunk(lines: &[&str]) -> DiffHunk {
    DiffHunk {
        file: "a.txt".into(),
        old_file: "a.txt".into(),
        new_file: "a.txt".into(),
        file_header: "--- a/a.txt\n+++ b/a.txt".into(),
        header: "@@ -1,3 +1,3 @@".into(),
        lines: lines.iter().map(|l| l.to_string()).collect(),
        unsupported_metadata: None,
    }
}

#[test]
fn invert_ranges_basic() {
    assert_eq!(invert_ranges(&[(3, 5)], 10), vec![(1, 2), (6, 10)]);
}

#[test]
fn invert_ranges_full_coverage() {
    assert_eq!(invert_ranges(&[(1, 10)], 10), vec![]);
}

#[test]
fn invert_ranges_empty_selection() {
    assert_eq!(invert_ranges(&[], 10), vec![(1, 10)]);
}

#[test]
fn invert_ranges_unsorted_overlapping() {
    assert_eq!(
        invert_ranges(&[(6, 8), (2, 4), (3, 5)], 10),
        vec![(1, 1), (9, 10)]
    );
}

#[test]
fn invert_ranges_at_bounds() {
    assert_eq!(invert_ranges(&[(1, 3), (8, 10)], 10), vec![(4, 7)]);
}

#[test]
fn invert_ranges_stays_within_the_lines() {
    assert_eq!(invert_ranges(&[], 0), vec![]);
    assert_eq!(invert_ranges(&[(0, 2)], 4), vec![(3, 4)]);
    assert_eq!(invert_ranges(&[(3, 20)], 4), vec![(1, 2)]);
    assert_eq!(invert_ranges(&[(15, 20)], 10), vec![(1, 10)]);
    assert_eq!(invert_ranges(&[(2, usize::MAX)], 10), vec![(1, 1)]);
}

#[test]
fn invert_ranges_merges_neighbours() {
    assert_eq!(invert_ranges(&[(2, 3), (4, 5), (2, 2)], 7), vec![(1, 1), (6, 7)]);
    assert_eq!(invert_ranges(&[(5, 3)], 7), vec![(1, 7)]);
}

#[test]
fn complement_specs_unselected_hunk_included_whole() {
    let h1 = test_hunk(&[" ctx", "-old", "+new"]);
    let h2 = test_hunk(&[" ctx", "+added"]);
    let identified = vec![("aaaaaaa".to_string(), &h1), ("bbbbbbb".to_string(), &h2)];
    let selected: Vec<HunkSpec<'_>> = vec![("aaaaaaa", &h1, vec![])];

    let complement = complement_specs(&identified, &selected);
    assert_eq!(complement.len(), 1);
    assert_eq!(complement[0].0, "bbbbbbb");
    assert!(complement[0].2.is_empty(), "whole hunk, no ranges");
}

#[test]
fn complement_specs_partial_selection_inverts_ranges() {
    let h = test_hunk(&[" ctx", "+one", "+two", " ctx2"]);
    let identified = vec![("aaaaaaa".to_string(), &h)];
    let selected: Vec<HunkSpec<'_>> = vec![("aaaaaaa", &h, vec![(2, 2)])];

    let complement = complement_specs(&identified, &selected);
    assert_eq!(complement.len(), 1);
    assert_eq!(complement[0].2, vec![(1, 1), (3, 4)]);
}

#[test]
fn complement_specs_complement_without_changes_skipped() {
    // Only line 2 is a change; selecting it leaves just context lines.
    let h = test_hunk(&[" ctx", "+added", " ctx2"]);
    let identified = vec![("aaaaaaa".to_string(), &h)];
    let selected: Vec<HunkSpec<'_>> = vec![("aaaaaaa", &h, vec![(2, 2)])];

    assert!(complement_specs(&identified, &selected).is_empty());
}

#[test]
fn complement_specs_multiple_specs_same_hunk_merged() {
    let h = test_hunk(&["+one", "+two", "+three"]);
    let identified = vec![("aaaaaaa".to_string(), &h)];
    let selected: Vec<HunkSpec<'_>> =
        vec![("aaaaaaa", &h, vec![(1, 1)]), ("aaaaaaa", &h, vec![(3, 3)])];

    let complement = complement_specs(&identified, &selected);
    assert_eq!(complement.len(), 1);
    assert_eq!(complement[0].2, vec![(2, 2)]);
}

#[test]
fn complement_specs_whole_selection_wins() {
    let h = test_hunk(&["+one", "+two"]);
    let identified = vec![("aaaaaaa".to_string(), &h)];
    let selected: Vec<HunkSpec<'_>> =
        vec![("aaaaaaa", &h, vec![(1, 1)]), ("aaaaaaa", &h, vec![])];
    assert!(complement_specs(&identified, &selected).is_empty());
}

#[test]
fn complement_specs_of_nothing_selected_is_everything() {
    let h = test_hunk(&["+one"]);
    let identified = vec![("a".to_string(), &h), ("b".to_string(), &h)];
    let complement = complement_specs(&identified, &[]);
    assert_eq!(complement.len(), 2);
    assert_eq!(complement[0].0, "a");
    assert_eq!(complement[1].0, "b");
}
