//! What the answers in a review do, and what is shown with the questions.
use crate::absorb_laws;
use crate::hunk::HunkView;
use crate::jj;
use crate::review;
use crate::review::{AnswerView, ReviewView};
use crate::route::RoutingView;
use crate::terminal;
use crate::text;
use crate::text_laws;
use vstd::prelude::*;

verus! {

// ---------------------------------------------------------------------------------------------
// Picking a target
// ---------------------------------------------------------------------------------------------

/// A row of the list that a target is picked from.
pub open spec fn numbered_row(n: nat, shown: Seq<char>) -> Seq<char> {
    "  "@ + text::decimal(n) + ": "@ + shown + "\n"@
}

/// `row` stands in `menu` behind `front`.
pub open spec fn has_row_behind(
    menu: Seq<char>,
    front: Seq<char>,
    row: Seq<char>,
    back: Seq<char>,
) -> bool {
    menu == front + row + back
}

/// Row `n` of the list shows the ancestor at position `n - 1`, behind the rows of those in front
/// of it.
pub proof fn law_menu_row(
    ancestors: Seq<(Seq<char>, Seq<char>)>,
    ids: Seq<Seq<char>>,
    n: nat,
)
    requires
        1 <= n <= ids.len(),
    ensures
        exists|back: Seq<char>| #[trigger]
            has_row_behind(
                review::menu_rows(ancestors, ids),
                review::menu_rows(ancestors, ids.take(n - 1)),
                numbered_row(n, review::described(ancestors, ids[n - 1])),
                back,
            ),
        review::menu_rows(ancestors, ids.take(0)).len() == 0,
        n == ids.len() ==> review::menu_rows(ancestors, ids) == review::menu_rows(
            ancestors,
            ids.take(n - 1),
        ) + numbered_row(n, review::described(ancestors, ids[n - 1])),
    decreases ids.len(),
{
    let menu = review::menu_rows(ancestors, ids);
    let front = review::menu_rows(ancestors, ids.take(n - 1));
    let row = numbered_row(n, review::described(ancestors, ids[n - 1]));
    if n == ids.len() {
        assert(ids.take(n - 1) =~= ids.drop_last());
        assert(menu =~= front + row);
        assert(has_row_behind(menu, front, row, Seq::empty())) by {
            assert(front + row + Seq::<char>::empty() =~= front + row);
        }
    } else {
        let shorter = ids.drop_last();
        law_menu_row(ancestors, shorter, n);
        assert(shorter.take(n - 1) =~= ids.take(n - 1));
        let less = review::menu_rows(ancestors, shorter);
        let back = choose|back: Seq<char>| #[trigger] has_row_behind(less, front, row, back);
        let last = "  "@ + text::decimal(ids.len()) + ": "@ + review::described(
            ancestors,
            ids.last(),
        ) + "\n"@;
        assert(menu =~= front + row + (back + last));
        assert(has_row_behind(menu, front, row, back + last));
    }
}

/// A line that reads as `n` picks the ancestor that row `n` of the list shows, and the hunk that
/// is up goes into it.
pub proof fn law_number_picks_its_row(
    review: ReviewView,
    line: Seq<char>,
    ancestors: Seq<(Seq<char>, Seq<char>)>,
    n: nat,
)
    requires
        absorb_laws::is_waiting(review),
        1 <= n <= jj::ancestor_ids(ancestors).len(),
        text::number(text::trim(line)) == Some(n),
    ensures
        ({
            let ids = jj::ancestor_ids(ancestors);
            let after = review.after_number(line, ancestors);
            let (was, fingerprint) = review.routed[review.at as int];
            &&& review::picked(line, ancestors) == Some(ids[n - 1])
            &&& exists|back: Seq<char>| #[trigger]
                has_row_behind(
                    review::menu_rows(ancestors, ids),
                    review::menu_rows(ancestors, ids.take(n - 1)),
                    numbered_row(n, review::described(ancestors, ids[n - 1])),
                    back,
                )
            &&& after.at == review.at + 1
            &&& after.routed == review.routed.update(
                review.at as int,
                (
                    RoutingView { target: Some(ids[n - 1]), reason: "retargeted"@, ..was },
                    fingerprint,
                ),
            )
            &&& review::picked_text(line, ancestors) == "→ Retargeted to "@ + review::described(
                ancestors,
                ids[n - 1],
            )
        }),
{
    law_menu_row(ancestors, jj::ancestor_ids(ancestors), n);
}

/// The number of a row picks it however it is typed: with white space round it.
pub proof fn law_typed_number_picks(
    ancestors: Seq<(Seq<char>, Seq<char>)>,
    n: nat,
    front: Seq<char>,
    back: Seq<char>,
)
    requires
        1 <= n <= jj::ancestor_ids(ancestors).len(),
        n <= usize::MAX,
        text_laws::all_white(front),
        text_laws::all_white(back),
    ensures
        review::picked(front + text::decimal(n) + back, ancestors) == Some(
            jj::ancestor_ids(ancestors)[n - 1],
        ),
{
    let digits = text::decimal(n);
    text::lemma_decimal_reads_back(n);
    assert(text::is_digit(digits[0]));
    assert(text::is_digit(digits[digits.len() - 1]));
    text_laws::law_trim_gives_the_middle(front, digits, back);
}

/// Two rows with different numbers pick different ancestors.
pub proof fn law_rows_differ(
    ancestors: Seq<(Seq<char>, Seq<char>)>,
    line: Seq<char>,
    other: Seq<char>,
)
    requires
        review::picked(line, ancestors) is Some,
        review::picked(other, ancestors) is Some,
    ensures
        review::picked(line, ancestors) == review::picked(other, ancestors) <==> text::number(
            text::trim(line),
        ) == text::number(text::trim(other)),
{
    absorb_laws::lemma_ids_are_ancestors(ancestors);
}

/// A line that reads as no number of a row picks nothing: the review stays as it is, and the line
/// is called invalid.
pub proof fn law_other_lines_pick_nothing(
    review: ReviewView,
    line: Seq<char>,
    ancestors: Seq<(Seq<char>, Seq<char>)>,
)
    requires
        text::number(text::trim(line)) matches Some(n) ==> n == 0 || n > jj::ancestor_ids(
            ancestors,
        ).len(),
    ensures
        review::picked(line, ancestors) is None,
        review.after_number(line, ancestors) == review,
        review::picked_text(line, ancestors) == "Invalid selection."@,
{
}

/// The list has a row for each ancestor, once, in the order in which they are first named: one
/// more ancestor at the end adds one more row there, unless it has one already.
pub proof fn law_ids_of_one_more(
    ancestors: Seq<(Seq<char>, Seq<char>)>,
    id: Seq<char>,
    description: Seq<char>,
)
    ensures
        jj::ancestor_ids(Seq::empty()) == Seq::<Seq<char>>::empty(),
        jj::ancestor_ids(ancestors.push((id, description))) == if jj::ancestor_ids(
            ancestors,
        ).contains(id) {
            jj::ancestor_ids(ancestors)
        } else {
            jj::ancestor_ids(ancestors).push(id)
        },
        jj::is_ancestor(ancestors, id) <==> jj::ancestor_ids(ancestors).contains(id),
{
    let more = ancestors.push((id, description));
    assert(more.drop_last() =~= ancestors);
    absorb_laws::lemma_ids_are_ancestors(ancestors);
}

/// The description of a change is the one that was given last for its id; a change without any has
/// none.
pub proof fn law_last_description_counts(
    ancestors: Seq<(Seq<char>, Seq<char>)>,
    id: Seq<char>,
    other: Seq<char>,
    description: Seq<char>,
)
    requires
        other != id,
    ensures
        jj::description(Seq::empty(), id) == Seq::<char>::empty(),
        jj::description(ancestors.push((id, description)), id) == description,
        jj::description(ancestors.push((other, description)), id) == jj::description(
            ancestors,
            id,
        ),
{
    assert(ancestors.push((id, description)).drop_last() =~= ancestors);
    assert(ancestors.push((other, description)).drop_last() =~= ancestors);
}

// ---------------------------------------------------------------------------------------------
// Keys
// ---------------------------------------------------------------------------------------------

/// Absorbing leaves the hunk that is up as it is routed and goes to the next one. A hunk without a
/// target cannot be absorbed, alone or with its file.
pub proof fn law_absorb_key(review: ReviewView)
    requires
        absorb_laws::is_waiting(review),
    ensures
        review.current().target is Some ==> {
            let (after, answer) = review.after_key(Some('a'));
            &&& answer is Next
            &&& after.routed == review.routed
            &&& after.at == review.at + 1
        },
        review.current().target is None ==> review.after_key(Some('a')) == (
            review,
            AnswerView::Again("No target set. Use [t] to pick a target first."@),
        ) && review.after_key(Some('A')) == review.after_key(Some('a')),
        review.current().target is Some ==> review.after_key(Some('A')).1 is Next,
{
}

/// Skipping sends the hunk that is up nowhere, and goes to the next one. No other hunk changes.
pub proof fn law_skip_key(review: ReviewView)
    requires
        absorb_laws::is_waiting(review),
    ensures
        ({
            let (after, answer) = review.after_key(Some('s'));
            let (was, fingerprint) = review.routed[review.at as int];
            &&& answer is Next
            &&& after.at == review.at + 1
            &&& after.routed == review.routed.update(
                review.at as int,
                (RoutingView { target: None, reason: "skipped"@, ..was }, fingerprint),
            )
        }),
        review.after_key(Some('S')).1 is Next,
        review.after_key(Some('q')).1 is Next,
        review.after_key(Some('Q')) == review.after_key(Some('q')),
        review.after_key(None) == review.after_key(Some('q')),
{
}

/// Asking for the list of targets changes nothing yet; blanks ask again without a word, and any
/// other key with one.
pub proof fn law_other_keys(review: ReviewView, key: char)
    ensures
        key == 't' || key == 'T' ==> review.after_key(Some(key)) == (
            review,
            AnswerView::PickTarget,
        ),
        key == '\n' || key == '\r' || key == ' ' ==> review.after_key(Some(key)) == (
            review,
            AnswerView::Again(Seq::empty()),
        ),
        key != 'a' && key != 'A' && key != 's' && key != 'S' && key != 't' && key != 'T' && key
            != 'q' && key != 'Q' && key != '\n' && key != '\r' && key != ' ' ==> review.after_key(
            Some(key),
        ) == (review, AnswerView::Again("Unknown action. Use a/A/s/S/t/q."@)),
{
}

// ---------------------------------------------------------------------------------------------
// What is shown
// ---------------------------------------------------------------------------------------------

/// An id finds the first of the hunks that have it, and nothing where none has it.
pub proof fn law_first_hunk_with_id(selected: Seq<(Seq<char>, HunkView)>, id: Seq<char>)
    ensures
        forall|i: int|
            0 <= i < selected.len() && (#[trigger] selected[i]).0 == id && (forall|j: int|
                0 <= j < i ==> (#[trigger] selected[j]).0 != id) ==> review::hunk_with_id(
                selected,
                id,
            ) == Some(selected[i].1),
        (forall|i: int| 0 <= i < selected.len() ==> (#[trigger] selected[i]).0 != id)
            ==> review::hunk_with_id(selected, id) is None,
    decreases selected.len(),
{
    if selected.len() > 0 {
        let rest = selected.drop_first();
        law_first_hunk_with_id(rest, id);
        assert forall|i: int|
            0 <= i < selected.len() && (#[trigger] selected[i]).0 == id && (forall|j: int|
                0 <= j < i ==> (#[trigger] selected[j]).0 != id) implies review::hunk_with_id(
            selected,
            id,
        ) == Some(selected[i].1) by {
            if i > 0 {
                assert(selected[0].0 != id);
                assert(rest[i - 1] == selected[i]);
                assert forall|j: int| 0 <= j < i - 1 implies (#[trigger] rest[j]).0 != id by {
                    assert(rest[j] == selected[j + 1]);
                }
            }
        }
        if forall|i: int| 0 <= i < selected.len() ==> (#[trigger] selected[i]).0 != id {
            assert(selected[0].0 != id);
            assert forall|i: int| 0 <= i < rest.len() implies (#[trigger] rest[i]).0 != id by {
                assert(rest[i] == selected[i + 1]);
            }
        }
    }
}

/// A change is shown by its whole id, and behind that its whole description in brackets, where it
/// has one.
pub proof fn law_described(ancestors: Seq<(Seq<char>, Seq<char>)>, id: Seq<char>)
    ensures
        ({
            let shown = review::described(ancestors, id);
            let description = jj::description(ancestors, id);
            &&& id.is_prefix_of(shown)
            &&& description.len() == 0 ==> shown == id
            &&& description.len() > 0 ==> shown.skip(id.len() as int) == seq![' ', '(']
                + description + seq![')']
        }),
{
    reveal_strlit(" (");
    reveal_strlit(")");
    let shown = review::described(ancestors, id);
    let description = jj::description(ancestors, id);
    if description.len() > 0 {
        assert(shown.skip(id.len() as int) =~= seq![' ', '('] + description + seq![')']);
    }
}

/// Lists of changes one behind the other are shown with a comma between them.
pub proof fn law_described_lists_add(
    ancestors: Seq<(Seq<char>, Seq<char>)>,
    a: Seq<Seq<char>>,
    b: Seq<Seq<char>>,
)
    requires
        a.len() > 0,
        b.len() > 0,
    ensures
        review::described_list(ancestors, a + b) == review::described_list(ancestors, a) + ", "@
            + review::described_list(ancestors, b),
        a.len() == 1 ==> review::described_list(ancestors, a) == review::described(
            ancestors,
            a[0],
        ),
        review::described_list(ancestors, Seq::empty()).len() == 0,
    decreases b.len(),
{
    let all = a + b;
    assert(all.drop_last() =~= a + b.drop_last());
    assert(all.last() == b.last());
    if b.len() == 1 {
        assert(a + b.drop_last() =~= a);
    } else {
        law_described_lists_add(ancestors, a, b.drop_last());
        assert(review::described_list(ancestors, all) =~= review::described_list(ancestors, a)
            + ", "@ + review::described_list(ancestors, b));
    }
}

/// What is said of where a hunk goes: into its target; or that it is ambiguous, with all
/// candidates; or why it stays.
pub proof fn law_target_text(routing: RoutingView, ancestors: Seq<(Seq<char>, Seq<char>)>)
    ensures
        ({
            let said = review::target_text(routing, ancestors);
            &&& routing.target matches Some(id) ==> said == "Target: "@ + review::described(
                ancestors,
                id,
            )
            &&& routing.target is None && routing.reason == "ambiguous"@ ==> said
                == "Ambiguous: "@ + review::described_list(ancestors, routing.candidates)
            &&& routing.target is None && routing.reason != "ambiguous"@ ==> said
                == "Unmatched: "@ + routing.reason
        }),
{
}

/// The heading of a hunk shows its id, its whole path and how many lines it adds and removes. Bold
/// headings show the same, with codes round the id and the path.
pub proof fn law_heading(r: RoutingView)
    ensures
        review::shown_heading(r, false) == "\n"@ + r.hunk_id + " "@ + r.file + " (+"@
            + text::decimal(r.additions) + " -"@ + text::decimal(r.deletions) + ")\n"@,
        review::shown_heading(r, true) == review::shown_heading(
            (RoutingView {
                hunk_id: "\u{1b}[1m"@ + r.hunk_id + "\u{1b}[0m"@,
                file: "\u{1b}[1m"@ + r.file + "\u{1b}[0m"@,
                ..r
            }),
            false,
        ),
{
}

/// Painted text is the text between the code and the one that resets it, and the bare text where
/// styles are off.
pub proof fn law_painted(plain: Seq<char>, code: Seq<char>)
    ensures
        terminal::painted(plain, code, false) == plain,
        terminal::painted(plain, code, true) == code + plain + "\u{1b}[0m"@,
{
}

} // verus!
