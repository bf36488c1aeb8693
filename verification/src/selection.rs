//! What a selection of hunks leaves over.
use crate::hunk;
use crate::hunk::{DiffHunk, HunkView};
use crate::patch;
use crate::patch::{HunkSpec, SpecView};
use crate::ranges;
use crate::text;
use vstd::prelude::*;

verus! {

/// What hunks with ids hold.
pub open spec fn identified_views(identified: Seq<(String, &DiffHunk)>) -> Seq<(
    Seq<char>,
    HunkView,
)> {
    Seq::new(identified.len(), |i: int| (identified[i].0@, identified[i].1@))
}

/// The selection takes something of the hunk with this id.
pub open spec fn is_chosen(selected: Seq<SpecView>, id: Seq<char>) -> bool {
    exists|k: int| 0 <= k < selected.len() && (#[trigger] selected[k]).id == id
}

/// The selection takes the whole hunk with this id.
pub open spec fn is_chosen_whole(selected: Seq<SpecView>, id: Seq<char>) -> bool {
    exists|k: int|
        0 <= k < selected.len() && (#[trigger] selected[k]).id == id && selected[k].ranges.len()
            == 0
}

/// All line ranges that the selection takes of the hunk with this id.
pub open spec fn chosen_ranges(selected: Seq<SpecView>, id: Seq<char>) -> Seq<(usize, usize)>
    decreases selected.len(),
{
    if selected.len() == 0 {
        Seq::empty()
    } else {
        let front = chosen_ranges(selected.drop_last(), id);
        if selected.last().id == id {
            front + selected.last().ranges
        } else {
            front
        }
    }
}

/// A changed line lies in one of the ranges.
pub open spec fn has_change_in(lines: Seq<Seq<char>>, picked: Seq<(usize, usize)>) -> bool {
    exists|i: int|
        0 <= i < lines.len() && hunk::is_change(#[trigger] lines[i]) && ranges::covered(
            picked,
            i + 1,
        )
}

/// What the selection leaves over of one hunk: the whole hunk where it takes nothing of it,
/// nothing where it takes all changes, and otherwise the lines outside the chosen ranges.
pub open spec fn leftover(
    id: Seq<char>,
    hunk: HunkView,
    selected: Seq<SpecView>,
) -> Option<SpecView> {
    if is_chosen_whole(selected, id) {
        None
    } else if !is_chosen(selected, id) {
        Some(SpecView { id, hunk, ranges: Seq::empty() })
    } else {
        let rest = ranges::inverse(chosen_ranges(selected, id), hunk.lines.len() as usize);
        if has_change_in(hunk.lines, rest) {
            Some(SpecView { id, hunk, ranges: rest })
        } else {
            None
        }
    }
}

/// What the selection leaves over, hunk by hunk.
pub open spec fn leftovers(
    identified: Seq<(Seq<char>, HunkView)>,
    selected: Seq<SpecView>,
) -> Seq<SpecView>
    decreases identified.len(),
{
    if identified.len() == 0 {
        Seq::empty()
    } else {
        let front = leftovers(identified.drop_last(), selected);
        match leftover(identified.last().0, identified.last().1, selected) {
            Some(spec) => front.push(spec),
            None => front,
        }
    }
}

/// How a selection treats one hunk.
enum Chosen {
    Whole,
    Nothing,
    Lines(Vec<(usize, usize)>),
}

/// Looks up what the selection takes of the hunk with this id.
fn choice(selected: &[HunkSpec<'_>], id: &str) -> (r: Chosen)
    ensures
        match r {
            Chosen::Whole => is_chosen_whole(patch::spec_views(selected@), id@),
            Chosen::Nothing => !is_chosen(patch::spec_views(selected@), id@),
            Chosen::Lines(kept) => {
                &&& !is_chosen_whole(patch::spec_views(selected@), id@)
                &&& is_chosen(patch::spec_views(selected@), id@)
                &&& kept@ == chosen_ranges(patch::spec_views(selected@), id@)
            },
        },
{
    let ghost all = patch::spec_views(selected@);
    let mut kept: Vec<(usize, usize)> = Vec::new();
    let mut any = false;
    let mut k: usize = 0;
    assert(all.take(0) =~= Seq::empty());
    while k < selected.len()
        invariant
            k <= selected@.len(),
            all == patch::spec_views(selected@),
            any == is_chosen(all.take(k as int), id@),
            !is_chosen_whole(all.take(k as int), id@),
            kept@ == chosen_ranges(all.take(k as int), id@),
        decreases selected@.len() - k,
    {
        let spec = &selected[k];
        let ghost seen = all.take(k as int);
        let ghost more = all.take(k + 1);
        proof {
            assert(more.drop_last() =~= seen);
            assert(more.last() == patch::spec_view(*spec));
            assert(all[k as int] == more[k as int]);
            assert(forall|j: int| 0 <= j < k ==> #[trigger] more[j] == seen[j]);
        }
        if text::same_text(spec.0, id) {
            if spec.2.len() == 0 {
                assert(all[k as int].id == id@);
                return Chosen::Whole;
            }
            any = true;
            append_ranges(&mut kept, &spec.2);
        }
        proof {
            assert(is_chosen(more, id@) == (is_chosen(seen, id@) || more[k as int].id == id@)) by {
                if is_chosen(seen, id@) {
                    let j = choose|j: int| 0 <= j < seen.len() && (#[trigger] seen[j]).id == id@;
                    assert(more[j].id == id@);
                }
            }
            assert(!is_chosen_whole(more, id@)) by {
                if is_chosen_whole(more, id@) {
                    let j = choose|j: int|
                        0 <= j < more.len() && (#[trigger] more[j]).id == id@
                            && more[j].ranges.len() == 0;
                    assert(seen[j] == more[j]);
                }
            }
        }
        k = k + 1;
    }
    assert(all.take(k as int) =~= all);
    if any {
        Chosen::Lines(kept)
    } else {
        Chosen::Nothing
    }
}

/// Adds more ranges behind those that are there.
fn append_ranges(kept: &mut Vec<(usize, usize)>, more: &Vec<(usize, usize)>)
    ensures
        final(kept)@ == old(kept)@ + more@,
{
    let mut i: usize = 0;
    assert(kept@ =~= old(kept)@ + more@.take(0));
    while i < more.len()
        invariant
            i <= more@.len(),
            kept@ =~= old(kept)@ + more@.take(i as int),
        decreases more@.len() - i,
    {
        kept.push(more[i]);
        i = i + 1;
    }
    assert(more@.take(i as int) =~= more@);
}

/// Tells whether one of the ranges covers line `i`.
pub fn in_ranges(picked: &Vec<(usize, usize)>, i: usize) -> (r: bool)
    ensures
        r == ranges::covered(picked@, i as int),
{
    let mut k: usize = 0;
    while k < picked.len()
        invariant
            k <= picked@.len(),
            forall|j: int| 0 <= j < k ==> !ranges::within(#[trigger] picked@[j], i as int),
        decreases picked@.len() - k,
    {
        let (start, end) = picked[k];
        if start <= i && i <= end {
            assert(ranges::within(picked@[k as int], i as int));
            return true;
        }
        k = k + 1;
    }
    false
}

/// Tells whether a changed line lies in one of the ranges.
fn change_in(lines: &Vec<String>, picked: &Vec<(usize, usize)>) -> (r: bool)
    ensures
        r == has_change_in(text::views(lines@), picked@),
{
    let ghost all = text::views(lines@);
    let n: usize = lines.len();
    let mut i: usize = 0;
    while i < n
        invariant
            i <= n,
            n == lines@.len(),
            all == text::views(lines@),
            forall|j: int|
                0 <= j < i ==> !(hunk::is_change(#[trigger] all[j]) && ranges::covered(
                    picked@,
                    j + 1,
                )),
        decreases n - i,
    {
        if hunk::changes(&lines[i]) && in_ranges(picked, i + 1) {
            assert(hunk::is_change(all[i as int]));
            return true;
        }
        i = i + 1;
    }
    false
}

/// Computes the complement of a hunk selection: specs covering every change in `identified` not
/// covered by `selected`.
pub fn complement_specs<'a>(
    identified: &'a [(String, &'a DiffHunk)],
    selected: &[HunkSpec<'a>],
) -> (r: Vec<HunkSpec<'a>>)
    ensures
        patch::spec_views(r@) == leftovers(
            identified_views(identified@),
            patch::spec_views(selected@),
        ),
{
    let ghost all = identified_views(identified@);
    let ghost chosen = patch::spec_views(selected@);
    let mut out: Vec<HunkSpec<'a>> = Vec::new();
    let mut n: usize = 0;
    assert(patch::spec_views(out@) =~= leftovers(all.take(0), chosen));
    while n < identified.len()
        invariant
            n <= identified@.len(),
            all == identified_views(identified@),
            chosen == patch::spec_views(selected@),
            patch::spec_views(out@) == leftovers(all.take(n as int), chosen),
        decreases identified@.len() - n,
    {
        let (id, hunk) = &identified[n];
        let ghost before = out@;
        proof {
            assert(all.take(n + 1).drop_last() =~= all.take(n as int));
            assert(all.take(n + 1).last() == (id@, hunk@));
        }
        let next: Option<HunkSpec<'a>> = match choice(selected, id) {
            Chosen::Whole => None,
            Chosen::Nothing => Some((id.as_str(), *hunk, Vec::new())),
            Chosen::Lines(kept) => {
                let rest = ranges::invert_ranges(kept.as_slice(), hunk.lines.len());
                if change_in(&hunk.lines, &rest) {
                    Some((id.as_str(), *hunk, rest))
                } else {
                    None
                }
            },
        };
        match next {
            Some(spec) => {
                out.push(spec);
                assert(patch::spec_views(out@) =~= patch::spec_views(before).push(
                    patch::spec_view(spec),
                ));
            },
            None => {},
        }
        n = n + 1;
    }
    assert(all.take(n as int) =~= all);
    out
}

} // verus!
