//! What holds of the operations on selected hunks.
use crate::hunk::HunkView;
use crate::operate;
use crate::operate::{ApplyMode, RunView, ToolErrorView};
use crate::patch;
use crate::patch::{PatchErrorView, SpecView};
use crate::selection;
use crate::surgeon;
use vstd::prelude::*;

verus! {

/// A patch can be built for a selection exactly where one can be built for each hunk of it.
pub proof fn law_patch_needs_every_hunk(specs: Seq<SpecView>, reverse: bool)
    ensures
        patch::combined_patch(specs, reverse) is Ok <==> forall|i: int|
            0 <= i < specs.len() ==> patch::single_patch(#[trigger] specs[i], reverse) is Ok,
    decreases specs.len(),
{
    if specs.len() > 0 {
        let front = specs.drop_last();
        law_patch_needs_every_hunk(front, reverse);
        let last = specs.len() - 1;
        if patch::combined_patch(specs, reverse) is Ok {
            assert forall|i: int| 0 <= i < specs.len() implies patch::single_patch(
                #[trigger] specs[i],
                reverse,
            ) is Ok by {
                if i < last {
                    assert(front[i] == specs[i]);
                }
            }
        }
        if forall|i: int|
            0 <= i < specs.len() ==> patch::single_patch(#[trigger] specs[i], reverse) is Ok {
            assert forall|i: int| 0 <= i < front.len() implies patch::single_patch(
                #[trigger] front[i],
                reverse,
            ) is Ok by {
                assert(front[i] == specs[i]);
            }
            assert(patch::single_patch(specs[last], reverse) is Ok);
        }
    }
}

/// A patch that can be built is empty exactly where nothing is selected.
pub proof fn law_patch_is_empty_iff_nothing_is_selected(specs: Seq<SpecView>, reverse: bool)
    requires
        patch::combined_patch(specs, reverse) is Ok,
    ensures
        patch::combined_patch(specs, reverse)->Ok_0.len() == 0 <==> specs.len() == 0,
{
    if specs.len() > 0 {
        let last = specs.last();
        assert(patch::single_patch(last, reverse)->Ok_0.len() > 0) by {
            lemma_patch_is_not_empty(last, reverse);
        }
    }
}

/// The patch for a hunk is not empty.
proof fn lemma_patch_is_not_empty(spec: SpecView, reverse: bool)
    requires
        patch::single_patch(spec, reverse) is Ok,
    ensures
        patch::single_patch(spec, reverse)->Ok_0.len() > 0,
{
    let text = patch::single_patch(spec, reverse)->Ok_0;
    let hunk = if spec.ranges.len() == 0 {
        spec.hunk
    } else {
        surgeon::sliced_hunk(spec.hunk, spec.ranges, reverse)->Ok_0
    };
    let shown = if reverse {
        patch::reversed_hunk(hunk)
    } else {
        hunk
    };
    assert(text == surgeon::patch_text(shown));
}

/// An operation is refused for want of hunks exactly where none are selected; otherwise it is run
/// with the patch, or refused for what stops the patch from being built.
pub proof fn law_run_or_reason(
    args: Seq<Seq<char>>,
    specs: Seq<SpecView>,
    reverse: bool,
    mode: ApplyMode,
)
    ensures
        ({
            let patch = patch::combined_patch(specs, reverse);
            match operate::run_with(args, patch, mode) {
                Ok(run) => specs.len() > 0 && patch == Ok::<Seq<char>, PatchErrorView>(run.patch)
                    && run.args == args && run.mode == mode,
                Err(ToolErrorView::NoHunks) => specs.len() == 0,
                Err(ToolErrorView::Patch(e)) => specs.len() > 0 && patch == Err::<
                    Seq<char>,
                    PatchErrorView,
                >(e),
                Err(ToolErrorView::CannotRemove(_)) => false,
            }
        }),
{
    if patch::combined_patch(specs, reverse) is Ok {
        law_patch_is_empty_iff_nothing_is_selected(specs, reverse);
    }
}

/// What a selection leaves over of hunks is what it leaves over of each.
proof fn lemma_leftovers(identified: Seq<(Seq<char>, HunkView)>, selected: Seq<SpecView>)
    ensures
        forall|i: int| #![trigger identified[i]]
            0 <= i < identified.len() ==> match selection::leftover(
                identified[i].0,
                identified[i].1,
                selected,
            ) {
                Some(spec) => selection::leftovers(identified, selected).contains(spec),
                None => true,
            },
        (forall|i: int|
            0 <= i < identified.len() ==> selection::leftover(
                (#[trigger] identified[i]).0,
                identified[i].1,
                selected,
            ) is None) ==> selection::leftovers(identified, selected).len() == 0,
    decreases identified.len(),
{
    if identified.len() > 0 {
        let front = identified.drop_last();
        let last = identified.len() - 1;
        lemma_leftovers(front, selected);
        let before = selection::leftovers(front, selected);
        let after = selection::leftovers(identified, selected);
        assert forall|i: int| #![trigger identified[i]]
            0 <= i < identified.len() implies match selection::leftover(
            identified[i].0,
            identified[i].1,
            selected,
        ) {
            Some(spec) => after.contains(spec),
            None => true,
        } by {
            if let Some(spec) = selection::leftover(
                identified[i].0,
                identified[i].1,
                selected,
            ) {
                if i < last {
                    assert(front[i] == identified[i]);
                    assert(before.contains(spec));
                    let k = choose|k: int| 0 <= k < before.len() && before[k] == spec;
                    assert(after[k] == spec);
                } else {
                    assert(after[before.len() as int] == spec);
                }
            }
        }
        if forall|i: int|
            0 <= i < identified.len() ==> selection::leftover(
                (#[trigger] identified[i]).0,
                identified[i].1,
                selected,
            ) is None {
            assert forall|i: int| 0 <= i < front.len() implies selection::leftover(
                (#[trigger] front[i]).0,
                front[i].1,
                selected,
            ) is None by {
                assert(front[i] == identified[i]);
            }
            assert(selection::leftover(
                identified[last].0,
                identified[last].1,
                selected,
            ) is None);
        }
    }
}

/// Keeping a selection fails closed: where it leaves over any part of a hunk that a text patch
/// cannot carry, nothing is run.
pub proof fn law_diffedit_fails_closed(
    identified: Seq<(Seq<char>, HunkView)>,
    selected: Seq<SpecView>,
    extra: Seq<Seq<char>>,
    i: int,
)
    requires
        selected.len() > 0,
        0 <= i < identified.len(),
        identified[i].1.unsupported_metadata is Some,
        selection::leftover(identified[i].0, identified[i].1, selected) is Some,
    ensures
        operate::diffedit_run(identified, selected, extra) matches Err(
            ToolErrorView::CannotRemove(_),
        ),
{
    let left = selection::leftovers(identified, selected);
    lemma_leftovers(identified, selected);
    let spec = selection::leftover(identified[i].0, identified[i].1, selected)->0;
    let k = choose|k: int| 0 <= k < left.len() && left[k] == spec;
    assert(spec.hunk == identified[i].1);
    assert(patch::single_patch(left[k], true) is Err);
    law_patch_needs_every_hunk(left, true);
}

/// Keeping a selection that leaves nothing over runs nothing.
pub proof fn law_diffedit_of_everything(
    identified: Seq<(Seq<char>, HunkView)>,
    selected: Seq<SpecView>,
    extra: Seq<Seq<char>>,
)
    requires
        selected.len() > 0,
        forall|i: int|
            0 <= i < identified.len() ==> selection::leftover(
                (#[trigger] identified[i]).0,
                identified[i].1,
                selected,
            ) is None,
    ensures
        operate::diffedit_run(identified, selected, extra) == Ok::<
            Option<RunView>,
            ToolErrorView,
        >(None),
{
    lemma_leftovers(identified, selected);
}

/// Keeping a selection runs a removal of what it leaves over, and nothing else, on the revision
/// as it is.
pub proof fn law_diffedit_removes_leftovers(
    identified: Seq<(Seq<char>, HunkView)>,
    selected: Seq<SpecView>,
    extra: Seq<Seq<char>>,
)
    ensures
        match operate::diffedit_run(identified, selected, extra) {
            Ok(Some(run)) => {
                let left = selection::leftovers(identified, selected);
                &&& left.len() > 0
                &&& run.mode == ApplyMode::InPlace
                &&& patch::combined_patch(left, true) == Ok::<Seq<char>, PatchErrorView>(
                    run.patch,
                )
            },
            Ok(None) => selected.len() > 0 && selection::leftovers(identified, selected).len()
                == 0,
            Err(ToolErrorView::NoHunks) => selected.len() == 0,
            Err(ToolErrorView::CannotRemove(_)) => selected.len() > 0,
            Err(ToolErrorView::Patch(_)) => false,
        },
{
    let left = selection::leftovers(identified, selected);
    if patch::combined_patch(left, true) is Ok {
        law_patch_is_empty_iff_nothing_is_selected(left, true);
    }
}

} // verus!
