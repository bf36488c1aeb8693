//! Moving routed hunks into the ancestors that they go into, one ancestor after the other.
use crate::diff;
use crate::hunk;
use crate::hunk::{DiffHunk, HunkView};
use crate::operate;
use crate::operate::{ApplyMode, JjRun, RunView, ToolError, ToolErrorView};
use crate::patch;
use crate::patch::{HunkSpec, SpecView};
use crate::route;
use crate::route::{FingerprintView, HunkFingerprint, HunkRouting, RoutingView};
use crate::selection;
use crate::surgeon;
use crate::text;
use vstd::prelude::*;

verus! {

// ---------------------------------------------------------------------------------------------
// Grouping
// ---------------------------------------------------------------------------------------------

/// The ancestors that hunks go into, each once, in the order in which they come up.
pub open spec fn targets(routed: Seq<(RoutingView, FingerprintView)>) -> Seq<Seq<char>>
    decreases routed.len(),
{
    if routed.len() == 0 {
        Seq::empty()
    } else {
        let front = targets(routed.drop_last());
        match routed.last().0.target {
            Some(target) => if front.contains(target) {
                front
            } else {
                front.push(target)
            },
            None => front,
        }
    }
}

/// The fingerprints of the hunks that go into `target`.
pub open spec fn bound_for(
    routed: Seq<(RoutingView, FingerprintView)>,
    target: Seq<char>,
) -> Seq<FingerprintView>
    decreases routed.len(),
{
    if routed.len() == 0 {
        Seq::empty()
    } else if routed.last().0.target == Some(target) {
        bound_for(routed.drop_last(), target).push(routed.last().1)
    } else {
        bound_for(routed.drop_last(), target)
    }
}

/// The ancestors that hunks go into, each with the fingerprints of those that do.
pub open spec fn groups(routed: Seq<(RoutingView, FingerprintView)>) -> Seq<
    (Seq<char>, Seq<FingerprintView>),
> {
    Seq::new(
        targets(routed).len(),
        |i: int| (targets(routed)[i], bound_for(routed, targets(routed)[i])),
    )
}

/// What fingerprints hold.
pub open spec fn fingerprint_views(fingerprints: Seq<HunkFingerprint>) -> Seq<FingerprintView> {
    Seq::new(fingerprints.len(), |i: int| fingerprints[i]@)
}

/// What groups of fingerprints hold.
pub open spec fn group_views(groups: Seq<(String, Vec<HunkFingerprint>)>) -> Seq<
    (Seq<char>, Seq<FingerprintView>),
> {
    Seq::new(groups.len(), |i: int| (groups[i].0@, fingerprint_views(groups[i].1@)))
}

/// The ancestors that hunks go into.
fn list_targets(routed: &Vec<(HunkRouting, HunkFingerprint)>) -> (r: Vec<String>)
    ensures
        text::views(r@) == targets(route::routed_views(routed@)),
{
    let ghost all = route::routed_views(routed@);
    let mut out: Vec<String> = Vec::new();
    let mut i: usize = 0;
    assert(text::views(out@) =~= targets(all.take(0)));
    while i < routed.len()
        invariant
            i <= routed@.len(),
            all == route::routed_views(routed@),
            text::views(out@) == targets(all.take(i as int)),
        decreases routed@.len() - i,
    {
        proof {
            assert(all.take(i + 1).drop_last() =~= all.take(i as int));
            assert(all.take(i + 1).last() == all[i as int]);
        }
        if let Some(target) = &routed[i].0.target {
            if !text::holds(&out, target) {
                text::push_text(&mut out, target);
            }
        }
        i = i + 1;
    }
    assert(all.take(i as int) =~= all);
    out
}

/// The fingerprints of the hunks that go into `target`.
fn collect_bound(
    routed: &Vec<(HunkRouting, HunkFingerprint)>,
    target: &str,
) -> (r: Vec<HunkFingerprint>)
    ensures
        fingerprint_views(r@) == bound_for(route::routed_views(routed@), target@),
{
    let ghost all = route::routed_views(routed@);
    let mut out: Vec<HunkFingerprint> = Vec::new();
    let mut i: usize = 0;
    assert(fingerprint_views(out@) =~= bound_for(all.take(0), target@));
    while i < routed.len()
        invariant
            i <= routed@.len(),
            all == route::routed_views(routed@),
            fingerprint_views(out@) == bound_for(all.take(i as int), target@),
        decreases routed@.len() - i,
    {
        proof {
            assert(all.take(i + 1).drop_last() =~= all.take(i as int));
            assert(all.take(i + 1).last() == all[i as int]);
        }
        let ghost front = fingerprint_views(out@);
        if let Some(t) = &routed[i].0.target {
            if text::same_text(t, target) {
                out.push(routed[i].1.clone());
                assert(fingerprint_views(out@) =~= front.push(all[i as int].1));
            }
        }
        i = i + 1;
    }
    assert(all.take(i as int) =~= all);
    out
}

/// Groups the hunks that go into ancestors by the ancestor.
pub fn group_by_target(routed: &Vec<(HunkRouting, HunkFingerprint)>) -> (r: Vec<
    (String, Vec<HunkFingerprint>),
>)
    ensures
        group_views(r@) == groups(route::routed_views(routed@)),
{
    let ghost expected = groups(route::routed_views(routed@));
    let names = list_targets(routed);
    let mut out: Vec<(String, Vec<HunkFingerprint>)> = Vec::new();
    let mut i: usize = 0;
    while i < names.len()
        invariant
            i <= names@.len(),
            expected == groups(route::routed_views(routed@)),
            text::views(names@) == targets(route::routed_views(routed@)),
            out@.len() == i,
            forall|j: int|
                0 <= j < i ==> (#[trigger] out@[j]).0@ == expected[j].0 && fingerprint_views(
                    out@[j].1@,
                ) == expected[j].1,
        decreases names@.len() - i,
    {
        assert(text::views(names@)[i as int] == names@[i as int]@);
        let bound = collect_bound(routed, &names[i]);
        out.push((names[i].clone(), bound));
        i = i + 1;
    }
    assert(text::views(names@).len() == names@.len());
    assert(group_views(out@) =~= expected);
    out
}

/// What is left to do once the report is written.
pub open spec fn work(routed: Seq<(RoutingView, FingerprintView)>, dry_run: bool) -> Seq<
    (Seq<char>, Seq<FingerprintView>),
> {
    if dry_run {
        Seq::empty()
    } else {
        groups(routed)
    }
}

/// What is left to do once the report is written: the groups to move, and none of them on a dry
/// run.
pub fn work_to_do(routed: &Vec<(HunkRouting, HunkFingerprint)>, dry_run: bool) -> (r: Vec<
    (String, Vec<HunkFingerprint>),
>)
    ensures
        group_views(r@) == work(route::routed_views(routed@), dry_run),
{
    if dry_run {
        let none: Vec<(String, Vec<HunkFingerprint>)> = Vec::new();
        assert(group_views(none@) =~= Seq::empty());
        none
    } else {
        group_by_target(routed)
    }
}

// ---------------------------------------------------------------------------------------------
// Moving
// ---------------------------------------------------------------------------------------------

/// The hunks with one of the fingerprints, taken whole.
pub open spec fn matching(
    identified: Seq<(Seq<char>, HunkView)>,
    fingerprints: Seq<FingerprintView>,
) -> Seq<SpecView>
    decreases identified.len(),
{
    if identified.len() == 0 {
        Seq::empty()
    } else {
        let front = matching(identified.drop_last(), fingerprints);
        let (id, hunk) = identified.last();
        if fingerprints.contains(route::fingerprint(hunk)) {
            front.push(SpecView { id, hunk, ranges: Seq::empty() })
        } else {
            front
        }
    }
}

/// Whether a fingerprint is one of several.
fn is_one_of(fingerprints: &Vec<HunkFingerprint>, wanted: &HunkFingerprint) -> (r: bool)
    ensures
        r == fingerprint_views(fingerprints@).contains(wanted@),
{
    let mut i: usize = 0;
    while i < fingerprints.len()
        invariant
            i <= fingerprints@.len(),
            forall|j: int|
                0 <= j < i ==> #[trigger] fingerprint_views(fingerprints@)[j] != wanted@,
        decreases fingerprints@.len() - i,
    {
        if fingerprints[i].same(wanted) {
            assert(fingerprint_views(fingerprints@)[i as int] == wanted@);
            return true;
        }
        i = i + 1;
    }
    false
}

/// The hunks with one of the fingerprints, taken whole.
pub fn matching_specs<'a>(
    identified: &'a [(String, &'a DiffHunk)],
    fingerprints: &Vec<HunkFingerprint>,
) -> (r: Vec<HunkSpec<'a>>)
    ensures
        patch::spec_views(r@) == matching(
            selection::identified_views(identified@),
            fingerprint_views(fingerprints@),
        ),
{
    let ghost all = selection::identified_views(identified@);
    let ghost wanted = fingerprint_views(fingerprints@);
    let mut out: Vec<HunkSpec<'a>> = Vec::new();
    let mut i: usize = 0;
    assert(patch::spec_views(out@) =~= matching(all.take(0), wanted));
    while i < identified.len()
        invariant
            i <= identified@.len(),
            all == selection::identified_views(identified@),
            wanted == fingerprint_views(fingerprints@),
            patch::spec_views(out@) == matching(all.take(i as int), wanted),
        decreases identified@.len() - i,
    {
        proof {
            assert(all.take(i + 1).drop_last() =~= all.take(i as int));
            assert(all.take(i + 1).last() == all[i as int]);
        }
        let ghost front = patch::spec_views(out@);
        let hunk = identified[i].1;
        if is_one_of(fingerprints, &HunkFingerprint::from_hunk(hunk)) {
            out.push((identified[i].0.as_str(), hunk, Vec::new()));
            assert(patch::spec_views(out@) =~= front.push(
                SpecView { id: all[i as int].0, hunk: all[i as int].1, ranges: Seq::empty() },
            ));
        }
        i = i + 1;
    }
    assert(all.take(i as int) =~= all);
    out
}

/// The run that moves the hunks with one of the fingerprints from `source` into `target`; none,
/// where there are no such hunks.
pub open spec fn squash_run(
    identified: Seq<(Seq<char>, HunkView)>,
    fingerprints: Seq<FingerprintView>,
    source: Seq<char>,
    target: Seq<char>,
) -> Result<Option<RunView>, ToolErrorView> {
    match patch::combined_patch(matching(identified, fingerprints), false) {
        Ok(patch) => if patch.len() == 0 {
            Ok(None)
        } else {
            Ok(
                Some(
                    RunView {
                        args: seq!["squash"@, "--from"@, source, "--into"@, target],
                        patch,
                        mode: ApplyMode::Reset,
                    },
                ),
            )
        },
        Err(e) => Err(ToolErrorView::Patch(e)),
    }
}

/// Moves the hunks with one of the fingerprints from `source` into `target`. `None` says that
/// there are no such hunks and there is nothing to run.
pub fn squash_matching(
    identified: &[(String, &DiffHunk)],
    fingerprints: &Vec<HunkFingerprint>,
    source: &str,
    target: &str,
) -> (r: Result<Option<JjRun>, ToolError>)
    ensures
        operate::optional_run_view(r) == squash_run(
            selection::identified_views(identified@),
            fingerprint_views(fingerprints@),
            source@,
            target@,
        ),
{
    let specs = matching_specs(identified, fingerprints);
    match patch::build_combined_patch(specs.as_slice(), false) {
        Ok(patch) => if patch.as_str().is_empty() {
            Ok(None)
        } else {
            let mut args: Vec<String> = Vec::new();
            text::push_texts(&mut args, &["squash", "--from", source, "--into", target]);
            assert(text::views(args@) =~= seq!["squash"@, "--from"@, source@, "--into"@, target@]);
            Ok(Some(JjRun { args, patch, mode: ApplyMode::Reset }))
        },
        Err(e) => Err(ToolError::Patch(e)),
    }
}

/// Moves the hunks of the current diff of `source` that have one of the fingerprints into
/// `target`. Each such move changes the diff, so the hunks are found again in a new one. `None`
/// says that it has no such hunks and there is nothing to run.
pub fn squash_into(
    raw_diff: &str,
    fingerprints: &Vec<HunkFingerprint>,
    source: &str,
    target: &str,
) -> (r: Result<Option<JjRun>, ToolError>)
    ensures
        operate::optional_run_view(r) == squash_run(
            surgeon::with_ids(
                surgeon::ids_of(diff::hunks_of(raw_diff@)),
                diff::hunks_of(raw_diff@),
            ),
            fingerprint_views(fingerprints@),
            source@,
            target@,
        ),
{
    let hunks = diff::parse_diff(raw_diff);
    let identified = surgeon::assign_ids(hunks.as_slice());
    squash_matching(identified.as_slice(), fingerprints, source, target)
}

/// How the moves are undone: by going back to the operation before them.
pub fn undo_hint(op_id: &str) -> (r: String)
    ensures
        r@ == "To undo, run: jj op restore "@ + op_id@,
{
    let mut out = "To undo, run: jj op restore ".to_string();
    out.append(op_id);
    out
}

} // verus!
