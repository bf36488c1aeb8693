//! What the report tells, and which hunks are moved.
use crate::absorb;
use crate::hunk::HunkView;
use crate::operate::{ApplyMode, ToolErrorView};
use crate::operate_laws;
use crate::patch;
use crate::patch::{PatchErrorView, SpecView};
use crate::report;
use crate::review;
use crate::route;
use crate::route::{FingerprintView, RoutingView};
use crate::text;
use vstd::prelude::*;

verus! {

// ---------------------------------------------------------------------------------------------
// The report
// ---------------------------------------------------------------------------------------------

/// One more routed hunk is one more among the absorbed, if it has a target; among the ambiguous, if
/// that is the reason; and among the unmatched, if neither. The others stay as they are, in order.
pub proof fn law_parts_of_one_more(
    routed: Seq<(RoutingView, FingerprintView)>,
    next: (RoutingView, FingerprintView),
)
    ensures
        ({
            let goes = next.0.target is Some;
            let torn = next.0.reason == "ambiguous"@;
            let more = routed.push(next);
            &&& report::absorbed(more) == if goes {
                report::absorbed(routed).push(next)
            } else {
                report::absorbed(routed)
            }
            &&& report::ambiguous(more) == if torn {
                report::ambiguous(routed).push(next)
            } else {
                report::ambiguous(routed)
            }
            &&& report::unmatched(more) == if goes || torn {
                report::unmatched(routed)
            } else {
                report::unmatched(routed).push(next)
            }
        }),
        report::absorbed(Seq::empty()).len() == 0,
        report::ambiguous(Seq::empty()).len() == 0,
        report::unmatched(Seq::empty()).len() == 0,
{
    reveal(Seq::filter);
    assert(routed.push(next).drop_last() =~= routed);
}

/// What a row tells of its hunk: the id, the whole path, and how many lines it adds and removes.
pub open spec fn told(r: RoutingView) -> Seq<char> {
    "  "@ + r.hunk_id + " ("@ + r.file + " +"@ + text::decimal(r.additions) + " -"@
        + text::decimal(r.deletions) + ")"@
}

/// One more hunk is one more row at the end: its target, or all it overlaps, or its reason, behind
/// what is told of the hunk itself.
pub proof fn law_rows_of_one_more(
    rows: Seq<(RoutingView, FingerprintView)>,
    next: (RoutingView, FingerprintView),
    ancestors: Seq<(Seq<char>, Seq<char>)>,
)
    ensures
        ({
            let more = rows.push(next);
            &&& next.0.target matches Some(target) ==> report::absorbed_rows(more, ancestors)
                == report::absorbed_rows(rows, ancestors) + (told(next.0) + " → "@
                + review::described(ancestors, target) + "\n"@)
            &&& report::ambiguous_rows(more, ancestors) == report::ambiguous_rows(rows, ancestors)
                + (told(next.0) + " — overlaps "@ + review::described_list(
                ancestors,
                next.0.candidates,
            ) + "\n"@)
            &&& report::unmatched_rows(more) == report::unmatched_rows(rows) + (told(next.0)
                + " — "@ + next.0.reason + "\n"@)
        }),
        report::absorbed_rows(Seq::empty(), ancestors).len() == 0,
        report::ambiguous_rows(Seq::empty(), ancestors).len() == 0,
        report::unmatched_rows(Seq::empty()).len() == 0,
{
    assert(rows.push(next).drop_last() =~= rows);
}

/// The report tells of the hunks that go somewhere, under their number, and then of those that
/// stay: each part where it has hunks, with the rows of all of them.
pub proof fn law_plan(
    routed: Seq<(RoutingView, FingerprintView)>,
    ancestors: Seq<(Seq<char>, Seq<char>)>,
    source: Seq<char>,
)
    ensures
        ({
            let goes = report::absorbed(routed);
            let torn = report::ambiguous(routed);
            let stays = report::unmatched(routed);
            let staying = report::staying_text(routed, ancestors, source);
            let rows = report::absorbed_rows(goes, ancestors);
            &&& goes.len() == 0 ==> report::plan_text(routed, ancestors, source, true)
                == "Nothing to absorb: no hunks matched any ancestor.\n"@ + staying
                && report::plan_text(routed, ancestors, source, false) == report::plan_text(
                routed,
                ancestors,
                source,
                true,
            )
            &&& goes.len() > 0 ==> report::plan_text(routed, ancestors, source, true)
                == "Would absorb"@ + " "@ + text::decimal(goes.len()) + " hunk(s):\n"@ + rows
                + staying && report::plan_text(routed, ancestors, source, false) == "Absorbed"@
                + " "@ + text::decimal(goes.len()) + " hunk(s):\n"@ + rows + staying
            &&& torn.len() == 0 && stays.len() == 0 ==> staying.len() == 0
            &&& torn.len() > 0 && stays.len() == 0 ==> staying == "\nAmbiguous (staying in "@
                + source + "):\n"@ + report::ambiguous_rows(torn, ancestors)
            &&& torn.len() == 0 && stays.len() > 0 ==> staying == "\nUnmatched (staying in "@
                + source + "):\n"@ + report::unmatched_rows(stays)
            &&& torn.len() > 0 && stays.len() > 0 ==> staying == ("\nAmbiguous (staying in "@
                + source + "):\n"@ + report::ambiguous_rows(torn, ancestors)) + (
            "\nUnmatched (staying in "@ + source + "):\n"@ + report::unmatched_rows(stays))
        }),
{
    let torn = report::ambiguous(routed);
    let stays = report::unmatched(routed);
    let staying = report::staying_text(routed, ancestors, source);
    let one = "\nAmbiguous (staying in "@ + source + "):\n"@ + report::ambiguous_rows(
        torn,
        ancestors,
    );
    let other = "\nUnmatched (staying in "@ + source + "):\n"@ + report::unmatched_rows(stays);
    assert(one + Seq::<char>::empty() =~= one);
    assert(Seq::<char>::empty() + other =~= other);
    assert(Seq::<char>::empty() + Seq::<char>::empty() =~= Seq::<char>::empty());
}

// ---------------------------------------------------------------------------------------------
// Groups
// ---------------------------------------------------------------------------------------------

/// One more routed hunk adds its target at the end, unless it has none or the target is there
/// already, and its fingerprint at the end of those bound for its target, and of no others.
pub proof fn law_targets_of_one_more(
    routed: Seq<(RoutingView, FingerprintView)>,
    next: (RoutingView, FingerprintView),
    target: Seq<char>,
)
    ensures
        ({
            let more = routed.push(next);
            &&& absorb::targets(more) == match next.0.target {
                Some(id) => if absorb::targets(routed).contains(id) {
                    absorb::targets(routed)
                } else {
                    absorb::targets(routed).push(id)
                },
                None => absorb::targets(routed),
            }
            &&& absorb::bound_for(more, target) == if next.0.target == Some(target) {
                absorb::bound_for(routed, target).push(next.1)
            } else {
                absorb::bound_for(routed, target)
            }
        }),
        absorb::targets(Seq::empty()).len() == 0,
        absorb::bound_for(Seq::empty(), target).len() == 0,
{
    assert(routed.push(next).drop_last() =~= routed);
}

/// There is a group for each target, in their order, and it holds all that is bound for it.
pub proof fn law_group_for_each_target(routed: Seq<(RoutingView, FingerprintView)>)
    ensures
        absorb::groups(routed).len() == absorb::targets(routed).len(),
        forall|i: int|
            0 <= i < absorb::groups(routed).len() ==> (#[trigger] absorb::groups(routed)[i]).0
                == absorb::targets(routed)[i] && absorb::groups(routed)[i].1 == absorb::bound_for(
                routed,
                absorb::targets(routed)[i],
            ),
{
}

/// A dry run moves nothing; any other run moves every group.
pub proof fn law_work(routed: Seq<(RoutingView, FingerprintView)>)
    ensures
        absorb::work(routed, true).len() == 0,
        absorb::work(routed, false) == absorb::groups(routed),
{
}

/// One more hunk is one more to move, whole and at the end, exactly where its fingerprint is one of
/// those that are looked for.
pub proof fn law_matching_of_one_more(
    identified: Seq<(Seq<char>, HunkView)>,
    id: Seq<char>,
    hunk: HunkView,
    fingerprints: Seq<FingerprintView>,
)
    ensures
        absorb::matching(identified.push((id, hunk)), fingerprints) == if exists|i: int|
            0 <= i < fingerprints.len() && #[trigger] fingerprints[i] == route::fingerprint(hunk) {
            absorb::matching(identified, fingerprints).push(
                SpecView { id, hunk, ranges: Seq::empty() },
            )
        } else {
            absorb::matching(identified, fingerprints)
        },
        absorb::matching(Seq::empty(), fingerprints).len() == 0,
{
    assert(identified.push((id, hunk)).drop_last() =~= identified);
}

/// A move is a squash from the source into the target, with the patch for exactly the hunks that
/// match; there is none exactly where none match, and it fails only where their patch cannot be
/// built.
pub proof fn law_squash(
    identified: Seq<(Seq<char>, HunkView)>,
    fingerprints: Seq<FingerprintView>,
    source: Seq<char>,
    target: Seq<char>,
)
    ensures
        ({
            let moved = absorb::matching(identified, fingerprints);
            match absorb::squash_run(identified, fingerprints, source, target) {
                Ok(Some(run)) => {
                    &&& moved.len() > 0
                    &&& run.args == seq!["squash"@, "--from"@, source, "--into"@, target]
                    &&& patch::combined_patch(moved, false) == Ok::<Seq<char>, PatchErrorView>(
                        run.patch,
                    )
                    &&& run.mode == ApplyMode::Reset
                },
                Ok(None) => moved.len() == 0,
                Err(ToolErrorView::Patch(e)) => patch::combined_patch(moved, false) == Err::<
                    Seq<char>,
                    PatchErrorView,
                >(e),
                Err(_) => false,
            }
        }),
{
    let moved = absorb::matching(identified, fingerprints);
    if patch::combined_patch(moved, false) is Ok {
        operate_laws::law_patch_is_empty_iff_nothing_is_selected(moved, false);
    }
}

} // verus!
