//! What holds of hunks, patches and selections taken together.
use crate::header;
use crate::hunk;
use crate::hunk::HunkView;
use crate::patch;
use crate::patch::SpecView;
use crate::ranges;
use crate::selection;
use crate::surgeon;
use crate::text;
use vstd::prelude::*;

verus! {

// ---------------------------------------------------------------------------------------------
// Reversing
// ---------------------------------------------------------------------------------------------

/// Reversing a line keeps its content, and a second time gives the line back.
proof fn lemma_reversed_line(line: Seq<char>)
    ensures
        hunk::content(patch::reversed_line(line)) == hunk::content(line),
        hunk::is_added(patch::reversed_line(line)) == hunk::is_removed(line),
        hunk::is_removed(patch::reversed_line(line)) == hunk::is_added(line),
        patch::reversed_line(patch::reversed_line(line)) == line,
{
    let r = patch::reversed_line(line);
    if hunk::is_change(line) {
        assert(r.drop_first() =~= line.drop_first());
        assert(patch::reversed_line(r) =~= line);
    }
}

/// Reversing a body swaps its two sides: what it expected to find is what it leaves behind, and
/// the other way round.
pub proof fn law_reversed_sides(lines: Seq<Seq<char>>)
    ensures
        hunk::old_side(patch::reversed_lines(lines)) == hunk::new_side(lines),
        hunk::new_side(patch::reversed_lines(lines)) == hunk::old_side(lines),
    decreases lines.len(),
{
    let r = patch::reversed_lines(lines);
    if lines.len() > 0 {
        law_reversed_sides(lines.drop_last());
        assert(r.drop_last() =~= patch::reversed_lines(lines.drop_last()));
        lemma_reversed_line(lines.last());
    }
}

/// Reversing a body twice gives it back.
pub proof fn law_reversed_lines_twice(lines: Seq<Seq<char>>)
    ensures
        patch::reversed_lines(patch::reversed_lines(lines)) == lines,
{
    let twice = patch::reversed_lines(patch::reversed_lines(lines));
    assert forall|i: int| 0 <= i < lines.len() implies twice[i] == lines[i] by {
        lemma_reversed_line(lines[i]);
    }
    assert(twice =~= lines);
}

/// Reversing a hunk twice gives it back, where its path lines are those that its paths call for
/// and its `@@` line has no third range.
pub proof fn law_reversed_hunk_twice(h: HunkView)
    requires
        h.file_header == patch::path_lines(h.old_file, h.new_file),
        header::header_parts(h.header) matches Some((_, new, _)) ==> text::find(new, " +"@) is None,
    ensures
        patch::reversed_hunk(patch::reversed_hunk(h)) == h,
{
    law_reversed_lines_twice(h.lines);
    header::law_reversed_header_twice(h.header);
    assert(patch::reversed_hunk(patch::reversed_hunk(h)) =~= h);
}

// ---------------------------------------------------------------------------------------------
// Slicing
// ---------------------------------------------------------------------------------------------

/// A hunk cut down for applying forward still expects the text that the whole hunk expects; one
/// cut down for undoing still leaves behind the text that the whole hunk leaves behind.
pub proof fn law_slice_keeps_base(lines: Seq<Seq<char>>, picked: Seq<(usize, usize)>)
    ensures
        hunk::old_side(surgeon::sliced_lines(lines, picked, false)) == hunk::old_side(lines),
        hunk::new_side(surgeon::sliced_lines(lines, picked, true)) == hunk::new_side(lines),
    decreases lines.len(),
{
    if lines.len() > 0 {
        law_slice_keeps_base(lines.drop_last(), picked);
        let line = lines.last();
        let hit = ranges::covered(picked, lines.len() as int);
        lemma_slice_step(lines, picked, false);
        lemma_slice_step(lines, picked, true);
        assert((seq![' '] + line.drop_first()).drop_first() =~= line.drop_first());
    }
}

/// The last line of a body, cut down.
proof fn lemma_slice_step(lines: Seq<Seq<char>>, picked: Seq<(usize, usize)>, reverse: bool)
    requires
        lines.len() > 0,
    ensures
        ({
            let front = surgeon::sliced_lines(lines.drop_last(), picked, reverse);
            let all = surgeon::sliced_lines(lines, picked, reverse);
            match surgeon::sliced_line(
                lines.last(),
                ranges::covered(picked, lines.len() as int),
                reverse,
            ) {
                Some(line) => {
                    &&& all == front.push(line)
                    &&& all.drop_last() == front
                    &&& all.last() == line
                },
                None => all == front,
            }
        }),
{
    let front = surgeon::sliced_lines(lines.drop_last(), picked, reverse);
    let all = surgeon::sliced_lines(lines, picked, reverse);
    match surgeon::sliced_line(
        lines.last(),
        ranges::covered(picked, lines.len() as int),
        reverse,
    ) {
        Some(line) => {
            assert(front.push(line).drop_last() =~= front);
        },
        None => {},
    }
}

/// The patch that undoes selected changes applies to the state that contains them all: what it
/// expects to find is what the whole hunk leaves behind.
pub proof fn law_undo_applies_to_result(lines: Seq<Seq<char>>, picked: Seq<(usize, usize)>)
    ensures
        hunk::old_side(patch::reversed_lines(surgeon::sliced_lines(lines, picked, true)))
            == hunk::new_side(lines),
{
    law_reversed_sides(surgeon::sliced_lines(lines, picked, true));
    law_slice_keeps_base(lines, picked);
}

/// Undoing the changes in some ranges leaves behind what doing the changes in the other ranges
/// alone leaves behind.
pub proof fn law_undo_rest_is_do_picked(
    lines: Seq<Seq<char>>,
    picked: Seq<(usize, usize)>,
    rest: Seq<(usize, usize)>,
)
    requires
        forall|i: int|
            1 <= i <= lines.len() ==> #[trigger] ranges::covered(rest, i) == !ranges::covered(
                picked,
                i,
            ),
    ensures
        hunk::new_side(patch::reversed_lines(surgeon::sliced_lines(lines, rest, true)))
            == hunk::new_side(surgeon::sliced_lines(lines, picked, false)),
    decreases lines.len(),
{
    law_reversed_sides(surgeon::sliced_lines(lines, rest, true));
    if lines.len() > 0 {
        let n = lines.len() as int;
        let line = lines.last();
        law_undo_rest_is_do_picked(lines.drop_last(), picked, rest);
        law_reversed_sides(surgeon::sliced_lines(lines.drop_last(), rest, true));
        lemma_slice_step(lines, rest, true);
        lemma_slice_step(lines, picked, false);
        assert(ranges::covered(rest, n) == !ranges::covered(picked, n));
        assert((seq![' '] + line.drop_first()).drop_first() =~= line.drop_first());
    }
}

/// Where every change is picked, cutting down changes nothing.
pub proof fn law_slice_of_all_changes(
    lines: Seq<Seq<char>>,
    picked: Seq<(usize, usize)>,
    reverse: bool,
)
    requires
        forall|i: int|
            0 <= i < lines.len() && hunk::is_change(#[trigger] lines[i]) ==> ranges::covered(
                picked,
                i + 1,
            ),
    ensures
        surgeon::sliced_lines(lines, picked, reverse) == lines,
    decreases lines.len(),
{
    if lines.len() > 0 {
        let front = lines.drop_last();
        assert forall|i: int|
            0 <= i < front.len() && hunk::is_change(#[trigger] front[i]) implies ranges::covered(
            picked,
            i + 1,
        ) by {
            assert(front[i] == lines[i]);
        }
        law_slice_of_all_changes(front, picked, reverse);
        assert(hunk::is_change(lines[lines.len() - 1]) ==> ranges::covered(
            picked,
            lines.len() as int,
        ));
        assert(lines =~= front.push(lines.last()));
    } else {
        assert(surgeon::sliced_lines(lines, picked, reverse) =~= lines);
    }
}

/// Where no change is picked, nothing is changed: the body leaves behind what it expects.
proof fn lemma_slice_of_nothing(lines: Seq<Seq<char>>, picked: Seq<(usize, usize)>)
    requires
        picked.len() == 0,
    ensures
        hunk::new_side(surgeon::sliced_lines(lines, picked, false)) == hunk::old_side(lines),
    decreases lines.len(),
{
    if lines.len() > 0 {
        let line = lines.last();
        lemma_slice_of_nothing(lines.drop_last(), picked);
        lemma_slice_step(lines, picked, false);
        assert((seq![' '] + line.drop_first()).drop_first() =~= line.drop_first());
    }
}

// ---------------------------------------------------------------------------------------------
// Selections
// ---------------------------------------------------------------------------------------------

/// Where nothing of a hunk is chosen, no ranges are.
proof fn lemma_not_chosen(selected: Seq<SpecView>, id: Seq<char>)
    requires
        !selection::is_chosen(selected, id),
    ensures
        selection::chosen_ranges(selected, id).len() == 0,
    decreases selected.len(),
{
    if selected.len() > 0 {
        let front = selected.drop_last();
        assert(selected[selected.len() - 1].id != id);
        assert forall|k: int| 0 <= k < front.len() implies (#[trigger] front[k]).id != id by {
            assert(selected[k].id != id);
        }
        lemma_not_chosen(front, id);
    }
}

/// The text that a hunk leaves behind once what a selection leaves over has been taken out of it.
pub open spec fn after_removal(
    id: Seq<char>,
    h: HunkView,
    selected: Seq<SpecView>,
) -> Seq<Seq<char>> {
    match selection::leftover(id, h, selected) {
        None => hunk::new_side(h.lines),
        Some(spec) => {
            let removed = if spec.ranges.len() == 0 {
                h.lines
            } else {
                surgeon::sliced_lines(h.lines, spec.ranges, true)
            };
            hunk::new_side(patch::reversed_lines(removed))
        },
    }
}

/// The text that a hunk leaves behind with only its selected changes.
pub open spec fn with_selected_only(
    id: Seq<char>,
    h: HunkView,
    selected: Seq<SpecView>,
) -> Seq<Seq<char>> {
    if selection::is_chosen_whole(selected, id) {
        hunk::new_side(h.lines)
    } else {
        hunk::new_side(
            surgeon::sliced_lines(h.lines, selection::chosen_ranges(selected, id), false),
        )
    }
}

/// Taking what a selection leaves over out of a revision keeps exactly the selected changes.
pub proof fn law_removal_keeps_selection(id: Seq<char>, h: HunkView, selected: Seq<SpecView>)
    requires
        h.lines.len() <= usize::MAX,
    ensures
        after_removal(id, h, selected) == with_selected_only(id, h, selected),
{
    let chosen = selection::chosen_ranges(selected, id);
    if selection::is_chosen_whole(selected, id) {
    } else if !selection::is_chosen(selected, id) {
        lemma_not_chosen(selected, id);
        lemma_slice_of_nothing(h.lines, chosen);
        law_reversed_sides(h.lines);
    } else {
        let len = h.lines.len() as usize;
        let rest = ranges::inverse(chosen, len);
        ranges::lemma_inverse_inverts(chosen, len);
        assert forall|i: int| 1 <= i <= h.lines.len() implies #[trigger] ranges::covered(rest, i)
            == !ranges::covered(chosen, i) by {}
        if selection::has_change_in(h.lines, rest) {
            let i = choose|i: int|
                0 <= i < h.lines.len() && hunk::is_change(#[trigger] h.lines[i])
                    && ranges::covered(rest, i + 1);
            assert(rest.len() > 0);
            law_undo_rest_is_do_picked(h.lines, chosen, rest);
        } else {
            assert forall|i: int|
                0 <= i < h.lines.len() && hunk::is_change(
                    #[trigger] h.lines[i],
                ) implies ranges::covered(chosen, i + 1) by {
                assert(!ranges::covered(rest, i + 1));
            }
            law_slice_of_all_changes(h.lines, chosen, false);
        }
    }
}

/// What a selection leaves over, and what it takes, are all changes: each changed line lies in
/// exactly one of the two.
pub proof fn law_leftover_is_complement(
    id: Seq<char>,
    h: HunkView,
    selected: Seq<SpecView>,
    i: int,
)
    requires
        h.lines.len() <= usize::MAX,
        0 <= i < h.lines.len(),
        hunk::is_change(h.lines[i]),
    ensures
        ({
            let taken = selection::is_chosen_whole(selected, id) || ranges::covered(
                selection::chosen_ranges(selected, id),
                i + 1,
            );
            let left = selection::leftover(id, h, selected) matches Some(spec) && (
            spec.ranges.len() == 0 || ranges::covered(spec.ranges, i + 1));
            taken == !left
        }),
{
    let chosen = selection::chosen_ranges(selected, id);
    if selection::is_chosen_whole(selected, id) {
    } else if !selection::is_chosen(selected, id) {
        lemma_not_chosen(selected, id);
    } else {
        let len = h.lines.len() as usize;
        let rest = ranges::inverse(chosen, len);
        ranges::lemma_inverse_inverts(chosen, len);
        assert(ranges::covered(rest, i + 1) == !ranges::covered(chosen, i + 1));
        if selection::has_change_in(h.lines, rest) {
            let k = choose|k: int|
                0 <= k < h.lines.len() && hunk::is_change(#[trigger] h.lines[k])
                    && ranges::covered(rest, k + 1);
            assert(rest.len() > 0);
        } else if ranges::covered(rest, i + 1) {
            assert(hunk::is_change(h.lines[i]));
        }
    }
}

} // verus!
