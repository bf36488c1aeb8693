//! What holds of absorbing as a whole.
use crate::absorb;
use crate::diff;
use crate::header;
use crate::hunk;
use crate::hunk::HunkView;
use crate::jj;
use crate::patch::SpecView;
use crate::report;
use crate::review;
use crate::review::{AnswerView, ReviewView};
use crate::route;
use crate::route::{FactsView, FingerprintView, RoutingView};
use crate::surgeon;
use vstd::prelude::*;

verus! {

// ---------------------------------------------------------------------------------------------
// Finding hunks again
// ---------------------------------------------------------------------------------------------

/// The changes of two bodies, one behind the other.
proof fn lemma_change_lines_add(a: Seq<Seq<char>>, b: Seq<Seq<char>>)
    ensures
        route::change_lines(a + b) == route::change_lines(a) + route::change_lines(b),
    decreases b.len(),
{
    reveal(Seq::filter);
    if b.len() == 0 {
        assert(a + b =~= a);
        assert(route::change_lines(a) + route::change_lines(b) =~= route::change_lines(a));
    } else {
        lemma_change_lines_add(a, b.drop_last());
        assert((a + b).drop_last() =~= a + b.drop_last());
        assert((a + b).last() == b.last());
        assert(route::change_lines(a + b) =~= route::change_lines(a) + route::change_lines(b));
    }
}

/// A fingerprint is that of the path and the changes alone: a hunk that gains a context line
/// anywhere in its body, and has another `@@` line, keeps its fingerprint.
pub proof fn law_fingerprint_ignores_context(
    less: HunkView,
    more: HunkView,
    front: Seq<Seq<char>>,
    context: Seq<char>,
    back: Seq<Seq<char>>,
)
    requires
        !hunk::is_change(context),
        less.file == more.file,
        less.lines == front + back,
        more.lines == front + seq![context] + back,
    ensures
        route::fingerprint(less) == route::fingerprint(more),
{
    lemma_change_lines_add(front, back);
    lemma_change_lines_add(front + seq![context], back);
    lemma_change_lines_add(front, seq![context]);
    assert(route::change_lines(seq![context]) =~= Seq::empty()) by {
        reveal_with_fuel(Seq::filter, 2);
    }
    assert(route::change_lines(front) + Seq::<Seq<char>>::empty() =~= route::change_lines(front));
}

/// Ids are made from paths and bodies: hunks that moved to other line numbers keep theirs.
pub proof fn law_ids_survive_line_shifts(before: Seq<HunkView>, after: Seq<HunkView>)
    requires
        before.len() == after.len(),
        forall|i: int|
            0 <= i < before.len() ==> (#[trigger] before[i]).file == after[i].file
                && before[i].lines == after[i].lines,
    ensures
        surgeon::ids_of(before) == surgeon::ids_of(after),
{
    assert(Seq::new(
        before.len(),
        |i: int| surgeon::short_id(before[i].file, before[i].lines),
    ) =~= Seq::new(after.len(), |i: int| surgeon::short_id(after[i].file, after[i].lines)));
}

// ---------------------------------------------------------------------------------------------
// Routing
// ---------------------------------------------------------------------------------------------

/// Removed line `i` of a body comes from the mutable ancestor `id`.
pub open spec fn comes_from(
    lines: Seq<Seq<char>>,
    start: nat,
    annotations: Seq<Seq<char>>,
    ancestors: Seq<(Seq<char>, Seq<char>)>,
    i: int,
    id: Seq<char>,
) -> bool {
    let at = route::annotation_index(start + hunk::old_side(lines.take(i)).len());
    &&& 0 <= i < lines.len()
    &&& hunk::is_removed(lines[i])
    &&& at < annotations.len()
    &&& annotations[at] == id
    &&& jj::is_ancestor(ancestors, id)
}

/// The ancestors that a body hits are those that its removed lines come from, each once.
pub proof fn law_hits(
    lines: Seq<Seq<char>>,
    start: nat,
    annotations: Seq<Seq<char>>,
    ancestors: Seq<(Seq<char>, Seq<char>)>,
)
    ensures
        route::hits(lines, start, annotations, ancestors).no_duplicates(),
        forall|id: Seq<char>| #[trigger]
            route::hits(lines, start, annotations, ancestors).contains(id) <==> exists|i: int|
                comes_from(lines, start, annotations, ancestors, i, id),
    decreases lines.len(),
{
    if lines.len() > 0 {
        let front = lines.drop_last();
        let last = lines.len() - 1;
        law_hits(front, start, annotations, ancestors);
        let before = route::hits(front, start, annotations, ancestors);
        let after = route::hits(lines, start, annotations, ancestors);
        assert(lines.take(last) =~= front);
        let at = route::annotation_index(start + hunk::old_side(front).len());
        assert forall|id: Seq<char>| #[trigger] after.contains(id) <==> exists|i: int|
            comes_from(lines, start, annotations, ancestors, i, id) by {
            if after.contains(id) {
                let k = choose|k: int| 0 <= k < after.len() && after[k] == id;
                if k < before.len() {
                    assert(before[k] == id);
                    assert(before.contains(id));
                    let i = choose|i: int|
                        comes_from(front, start, annotations, ancestors, i, id);
                    assert(lines.take(i) =~= front.take(i));
                    assert(comes_from(lines, start, annotations, ancestors, i, id));
                } else {
                    assert(comes_from(lines, start, annotations, ancestors, last, id));
                }
            }
            if exists|i: int| comes_from(lines, start, annotations, ancestors, i, id) {
                let i = choose|i: int| comes_from(lines, start, annotations, ancestors, i, id);
                if i < last {
                    assert(lines.take(i) =~= front.take(i));
                    assert(comes_from(front, start, annotations, ancestors, i, id));
                    assert(before.contains(id));
                    let k = choose|k: int| 0 <= k < before.len() && before[k] == id;
                    assert(after[k] == id);
                } else if before.contains(id) {
                    let k = choose|k: int| 0 <= k < before.len() && before[k] == id;
                    assert(after[k] == id);
                } else {
                    assert(after[before.len() as int] == id);
                }
            }
        }
    } else {
        assert forall|id: Seq<char>| #[trigger]
            route::hits(lines, start, annotations, ancestors).contains(id) <==> exists|i: int|
                comes_from(lines, start, annotations, ancestors, i, id) by {}
    }
}

/// The reasons for which a hunk goes into an ancestor.
pub open spec fn is_reason_to_go(reason: Seq<char>) -> bool {
    reason == "matched"@ || reason == "matched (file)"@ || reason == "retargeted"@
}

/// A routing names a target exactly where its reason is one to go.
pub open spec fn is_consistent(routing: RoutingView) -> bool {
    routing.target is Some <==> is_reason_to_go(routing.reason)
}

/// The reasons to stay are none to go.
proof fn lemma_reasons()
    ensures
        !is_reason_to_go("new file"@),
        !is_reason_to_go("annotation failed"@),
        !is_reason_to_go("no overlapping ancestor hunk"@),
        !is_reason_to_go("ambiguous"@),
        !is_reason_to_go("skipped"@),
        !is_reason_to_go("skipped (file)"@),
        !is_reason_to_go("skipped (quit)"@),
        "new file"@ != "ambiguous"@,
        "annotation failed"@ != "ambiguous"@,
        "no overlapping ancestor hunk"@ != "ambiguous"@,
        "matched"@ != "matched (file)"@,
        "matched"@ != "ambiguous"@,
        "matched (file)"@ != "ambiguous"@,
{
    reveal_strlit("matched");
    reveal_strlit("matched (file)");
    reveal_strlit("retargeted");
    reveal_strlit("new file");
    reveal_strlit("annotation failed");
    reveal_strlit("no overlapping ancestor hunk");
    reveal_strlit("ambiguous");
    reveal_strlit("skipped");
    reveal_strlit("skipped (file)");
    reveal_strlit("skipped (quit)");
    assert("matched"@[0] == 'm');
    assert("matched (file)"@[0] == 'm');
    assert("retargeted"@[0] == 'r');
    assert("new file"@[0] == 'n');
    assert("annotation failed"@[0] == 'a');
    assert("no overlapping ancestor hunk"@[0] == 'n');
    assert("ambiguous"@[0] == 'a');
    assert("skipped"@[0] == 's');
    assert("skipped (file)"@[0] == 's');
    assert("skipped (quit)"@[0] == 's');
    assert("annotation failed"@.len() != "ambiguous"@.len());
    assert("matched (file)"@.len() != "matched"@.len());
}

/// A hunk goes into an ancestor by its lines only where all removed lines that come from mutable
/// ancestors come from that one. It is ambiguous exactly where they come from several, and then
/// those are the candidates. A hunk of a new file goes nowhere, and neither does one of a file
/// without annotations.
pub proof fn law_route(
    id: Seq<char>,
    hunk: HunkView,
    facts: FactsView,
    ancestors: Seq<(Seq<char>, Seq<char>)>,
)
    ensures
        ({
            let routing = route::route(id, hunk, facts, ancestors);
            let known = !diff::dev_null(hunk.old_file) && facts.annotations is Some;
            let found = route::hunk_hits(hunk, facts.annotations->0, ancestors);
            &&& is_consistent(routing)
            &&& !known ==> routing.target is None && routing.candidates.len() == 0
            &&& routing.reason == "matched"@ ==> known && routing.target is Some
                && jj::is_ancestor(ancestors, routing.target->0) && forall|other: Seq<char>|
                found.contains(other) <==> other == routing.target->0
            &&& routing.reason == "ambiguous"@ <==> known && found.len() > 1
            &&& routing.reason == "ambiguous"@ ==> routing.candidates == found
            &&& routing.reason != "ambiguous"@ ==> routing.candidates.len() == 0
        }),
{
    lemma_reasons();
    let routing = route::route(id, hunk, facts, ancestors);
    let found = route::hunk_hits(hunk, facts.annotations->0, ancestors);
    if routing.reason == "matched"@ {
        match header::header_starts(hunk.header) {
            Some((start, _)) => {
                law_hits(hunk.lines, start, facts.annotations->0, ancestors);
                assert(found.contains(found[0]));
                let i = choose|i: int|
                    comes_from(
                        hunk.lines,
                        start,
                        facts.annotations->0,
                        ancestors,
                        i,
                        found[0],
                    );
                assert(jj::is_ancestor(ancestors, found[0]));
            },
            None => {},
        }
        assert forall|other: Seq<char>| found.contains(other) <==> other
            == routing.target->0 by {
            assert(found[0] == routing.target->0);
        }
    }
}

/// In how many parts of the report a routing is.
pub open spec fn parts_with(routing: RoutingView) -> nat {
    (if report::is_absorbed(routing) {
        1nat
    } else {
        0
    }) + (if report::is_ambiguous(routing) {
        1nat
    } else {
        0
    }) + (if report::is_unmatched(routing) {
        1nat
    } else {
        0
    })
}

/// Every routing is in exactly one part of the report, and the three parts together hold as many
/// hunks as were routed.
pub proof fn law_report_is_partition(routed: Seq<(RoutingView, FingerprintView)>)
    requires
        forall|i: int| 0 <= i < routed.len() ==> is_consistent((#[trigger] routed[i]).0),
    ensures
        forall|i: int| 0 <= i < routed.len() ==> parts_with((#[trigger] routed[i]).0) == 1,
        report::absorbed(routed).len() + report::ambiguous(routed).len() + report::unmatched(
            routed,
        ).len() == routed.len(),
    decreases routed.len(),
{
    lemma_reasons();
    reveal(Seq::filter);
    if routed.len() > 0 {
        let front = routed.drop_last();
        assert forall|i: int| 0 <= i < front.len() implies is_consistent(
            (#[trigger] front[i]).0,
        ) by {
            assert(front[i] == routed[i]);
        }
        law_report_is_partition(front);
        assert(is_consistent(routed[routed.len() - 1].0));
    }
}

// ---------------------------------------------------------------------------------------------
// Reviewing
// ---------------------------------------------------------------------------------------------

/// All routings of a review are consistent.
pub open spec fn all_consistent(review: ReviewView) -> bool {
    forall|i: int| 0 <= i < review.routed.len() ==> is_consistent((#[trigger] review.routed[i]).0)
}

/// A review that waits for an answer: it has a hunk to decide on, and nothing decides it without
/// asking.
pub open spec fn is_waiting(review: ReviewView) -> bool {
    &&& !review.done()
    &&& !review.quit
    &&& review.skip_file is None
    &&& review.absorb_file is None
}

/// `after` differs from `before` at most in where the hunks from the current one on go, and why.
pub open spec fn only_decides(before: ReviewView, after: ReviewView) -> bool {
    &&& after.at >= before.at
    &&& after.routed.len() == before.routed.len()
    &&& forall|i: int|
        0 <= i < before.routed.len() && (i < before.at || i >= after.at) ==> #[trigger]
            after.routed[i] == before.routed[i]
    &&& forall|i: int|
        0 <= i < before.routed.len() ==> {
            let (r, fingerprint) = #[trigger] after.routed[i];
            let (was, had) = before.routed[i];
            fingerprint == had && r == (RoutingView { target: r.target, reason: r.reason, ..was })
        }
}

/// What deciding without asking does.
proof fn lemma_settled(review: ReviewView)
    ensures
        only_decides(review, review.settled()),
        review.settled().done() || is_waiting(review.settled()),
        all_consistent(review) ==> all_consistent(review.settled()),
        review.quit ==> review.settled().done(),
        forall|i: int|
            review.at <= i < review.settled().at && i < review.routed.len() ==> {
                let (r, _) = #[trigger] review.settled().routed[i];
                ||| review.quit && r.target is None && r.reason == "skipped (quit)"@
                ||| !review.quit && review.skip_file == Some(r.file) && r.target is None && r.reason
                    == "skipped (file)"@
                ||| !review.quit && review.absorb_file == Some(r.file)
                    && review.settled().routed[i] == review.routed[i]
            },
    decreases review.routed.len() - review.at,
{
    lemma_reasons();
    if !review.done() {
        if review.quit {
            lemma_settled(review.decided(None, "skipped (quit)"@));
        } else if review.skip_file == Some(review.current().file) {
            lemma_settled(review.decided(None, "skipped (file)"@));
        } else if review.absorb_file == Some(review.current().file) {
            lemma_settled(ReviewView { skip_file: None, ..review.kept() });
        }
    }
}

/// A review starts with nothing changed: it waits for an answer on the first hunk, or has none.
pub proof fn law_review_starts(routed: Seq<(RoutingView, FingerprintView)>)
    ensures
        ({
            let start = ReviewView {
                routed,
                at: 0,
                quit: false,
                skip_file: None,
                absorb_file: None,
            };
            &&& start.settled() == start
            &&& start.done() || is_waiting(start)
        }),
{
}

/// Whatever the key, a review decides only on hunks that were not decided before, and only where
/// they go and why. Every routing stays consistent, and the review then waits for another answer
/// or is done.
pub proof fn law_key_only_decides(review: ReviewView, key: Option<char>)
    requires
        is_waiting(review),
        all_consistent(review),
    ensures
        ({
            let (after, answer) = review.after_key(key);
            &&& only_decides(review, after)
            &&& all_consistent(after)
            &&& after.done() || is_waiting(after)
            &&& (answer is Next) ==> after.at > review.at
            &&& !(answer is Next) ==> after == review
        }),
{
    lemma_reasons();
    let file = review.current().file;
    lemma_settled(review.kept());
    lemma_settled(ReviewView { absorb_file: Some(file), ..review.kept() });
    lemma_settled(review.decided(None, "skipped"@));
    lemma_settled(
        ReviewView { skip_file: Some(file), ..review.decided(None, "skipped (file)"@) },
    );
    lemma_settled(ReviewView { quit: true, ..review.decided(None, "skipped (quit)"@) });
}

/// Whatever the line, picking a target decides at most on the hunk that is up, and sends it only
/// into one of the ancestors.
pub proof fn law_number_only_decides(
    review: ReviewView,
    line: Seq<char>,
    ancestors: Seq<(Seq<char>, Seq<char>)>,
)
    requires
        is_waiting(review),
        all_consistent(review),
    ensures
        ({
            let after = review.after_number(line, ancestors);
            &&& only_decides(review, after)
            &&& all_consistent(after)
            &&& after.done() || is_waiting(after)
            &&& match review::picked(line, ancestors) {
                Some(target) => {
                    &&& jj::is_ancestor(ancestors, target)
                    &&& after.at == review.at + 1
                    &&& after.routed[review.at as int].0.target == Some(target)
                },
                None => after == review,
            }
        }),
{
    lemma_reasons();
    if let Some(target) = review::picked(line, ancestors) {
        let next = review.decided(Some(target), "retargeted"@);
        lemma_settled(next);
        lemma_ids_are_ancestors(ancestors);
        assert(jj::ancestor_ids(ancestors).contains(target));
        assert(next.settled().at == next.at);
    }
}

/// The ids of ancestors are those of ancestors, each once.
pub proof fn lemma_ids_are_ancestors(ancestors: Seq<(Seq<char>, Seq<char>)>)
    ensures
        jj::ancestor_ids(ancestors).no_duplicates(),
        forall|id: Seq<char>| #[trigger]
            jj::ancestor_ids(ancestors).contains(id) <==> jj::is_ancestor(ancestors, id),
    decreases ancestors.len(),
{
    let after = jj::ancestor_ids(ancestors);
    if ancestors.len() > 0 {
        let front = ancestors.drop_last();
        let last = ancestors.last().0;
        lemma_ids_are_ancestors(front);
        let before = jj::ancestor_ids(front);
        assert(before.contains(last) <==> jj::is_ancestor(front, last));
        assert forall|id: Seq<char>| #[trigger] after.contains(id) <==> jj::is_ancestor(
            ancestors,
            id,
        ) by {
            assert(before.contains(id) <==> jj::is_ancestor(front, id));
            if after.contains(id) {
                let k = choose|k: int| 0 <= k < after.len() && after[k] == id;
                if k < before.len() {
                    assert(before[k] == id);
                    let i = choose|i: int| 0 <= i < front.len() && (#[trigger] front[i]).0 == id;
                    assert(ancestors[i].0 == id);
                } else {
                    assert(ancestors[ancestors.len() - 1].0 == id);
                }
            }
            if jj::is_ancestor(ancestors, id) {
                let i = choose|i: int|
                    0 <= i < ancestors.len() && (#[trigger] ancestors[i]).0 == id;
                if i < front.len() {
                    assert(front[i].0 == id);
                    let k = choose|k: int| 0 <= k < before.len() && before[k] == id;
                    assert(after[k] == id);
                } else if before.contains(id) {
                    let k = choose|k: int| 0 <= k < before.len() && before[k] == id;
                    assert(after[k] == id);
                } else {
                    assert(after[before.len() as int] == id);
                }
            }
        }
    }
}

/// Quitting, or the end of the input, ends the review: the hunk that is up and all behind it stay
/// where they are, and those in front of it go where they were sent.
pub proof fn law_quit(review: ReviewView, key: Option<char>)
    requires
        !review.done(),
        key == Some('q') || key == Some('Q') || key is None,
    ensures
        ({
            let after = review.after_key(key).0;
            &&& after.done()
            &&& forall|i: int|
                0 <= i < review.at ==> #[trigger] after.routed[i] == review.routed[i]
            &&& forall|i: int|
                review.at <= i < after.routed.len() ==> (#[trigger] after.routed[i]).0.target
                    is None && after.routed[i].0.reason == "skipped (quit)"@
        }),
{
    let next = ReviewView { quit: true, ..review.decided(None, "skipped (quit)"@) };
    lemma_settled(next);
    assert(next.routed[review.at as int].0.target is None);
}

/// Skipping a file skips the hunk that is up and those of the same file that follow it directly,
/// and no others.
pub proof fn law_skip_file(review: ReviewView)
    requires
        is_waiting(review),
    ensures
        ({
            let after = review.after_key(Some('S')).0;
            let file = review.current().file;
            &&& only_decides(review, after)
            &&& forall|i: int|
                review.at <= i < after.at && i < after.routed.len() ==> {
                    let (r, _) = #[trigger] after.routed[i];
                    r.file == file && r.target is None && r.reason == "skipped (file)"@
                }
            &&& after.done() || after.current().file != file
        }),
{
    let file = review.current().file;
    let next = ReviewView { skip_file: Some(file), ..review.decided(None, "skipped (file)"@) };
    lemma_settled(next);
    lemma_settled_stops(next);
    assert(next.routed[review.at as int].0.file == file);
}

/// Absorbing a file leaves the hunk that is up and those of the same file that follow it directly
/// as they were routed, and asks about no other.
pub proof fn law_absorb_file(review: ReviewView)
    requires
        is_waiting(review),
        review.current().target is Some,
    ensures
        ({
            let after = review.after_key(Some('A')).0;
            let file = review.current().file;
            &&& after.routed == review.routed
            &&& forall|i: int|
                review.at <= i < after.at && i < after.routed.len() ==> (
                #[trigger] after.routed[i]).0.file == file
            &&& after.done() || after.current().file != file
        }),
{
    let file = review.current().file;
    let next = ReviewView { absorb_file: Some(file), ..review.kept() };
    lemma_settled(next);
    lemma_settled_stops(next);
    assert(next.settled().routed =~= review.routed);
}

/// Deciding without asking stops only at a hunk of another file than the skipped and the absorbed
/// one.
proof fn lemma_settled_stops(review: ReviewView)
    requires
        !review.quit,
        review.skip_file is None || review.absorb_file is None,
    ensures
        ({
            let after = review.settled();
            after.done() || (review.skip_file != Some(after.current().file)
                && review.absorb_file != Some(after.current().file))
        }),
    decreases review.routed.len() - review.at,
{
    if !review.done() {
        if review.skip_file == Some(review.current().file) {
            lemma_settled_stops(review.decided(None, "skipped (file)"@));
        } else if review.absorb_file == Some(review.current().file) {
            lemma_settled_stops(ReviewView { skip_file: None, ..review.kept() });
        }
    }
}

// ---------------------------------------------------------------------------------------------
// Moving
// ---------------------------------------------------------------------------------------------

/// The targets of routed hunks are named once each, and only where a hunk goes into them.
proof fn lemma_targets(routed: Seq<(RoutingView, FingerprintView)>)
    ensures
        absorb::targets(routed).no_duplicates(),
        forall|target: Seq<char>| #[trigger]
            absorb::targets(routed).contains(target) <==> exists|i: int|
                0 <= i < routed.len() && (#[trigger] routed[i]).0.target == Some(target),
    decreases routed.len(),
{
    let after = absorb::targets(routed);
    if routed.len() > 0 {
        let front = routed.drop_last();
        lemma_targets(front);
        let before = absorb::targets(front);
        let last = routed.len() - 1;
        assert forall|target: Seq<char>| #[trigger] after.contains(target) <==> exists|i: int|
            0 <= i < routed.len() && (#[trigger] routed[i]).0.target == Some(target) by {
            assert(before.contains(target) <==> exists|i: int|
                0 <= i < front.len() && (#[trigger] front[i]).0.target == Some(target));
            if after.contains(target) {
                let k = choose|k: int| 0 <= k < after.len() && after[k] == target;
                if k < before.len() {
                    assert(before[k] == target);
                    let i = choose|i: int|
                        0 <= i < front.len() && (#[trigger] front[i]).0.target == Some(target);
                    assert(routed[i].0.target == Some(target));
                } else {
                    assert(routed[last].0.target == Some(target));
                }
            }
            if exists|i: int|
                0 <= i < routed.len() && (#[trigger] routed[i]).0.target == Some(target) {
                let i = choose|i: int|
                    0 <= i < routed.len() && (#[trigger] routed[i]).0.target == Some(target);
                if i < last {
                    assert(front[i].0.target == Some(target));
                    let k = choose|k: int| 0 <= k < before.len() && before[k] == target;
                    assert(after[k] == target);
                } else if before.contains(target) {
                    let k = choose|k: int| 0 <= k < before.len() && before[k] == target;
                    assert(after[k] == target);
                } else {
                    assert(after[before.len() as int] == target);
                }
            }
        }
    }
}

/// The fingerprints bound for a target are those of the hunks that go into it.
proof fn lemma_bound_for(routed: Seq<(RoutingView, FingerprintView)>, target: Seq<char>)
    ensures
        forall|fingerprint: FingerprintView| #[trigger]
            absorb::bound_for(routed, target).contains(fingerprint) <==> exists|i: int|
                0 <= i < routed.len() && (#[trigger] routed[i]).0.target == Some(target)
                    && routed[i].1 == fingerprint,
    decreases routed.len(),
{
    let after = absorb::bound_for(routed, target);
    if routed.len() > 0 {
        let front = routed.drop_last();
        lemma_bound_for(front, target);
        let before = absorb::bound_for(front, target);
        let last = routed.len() - 1;
        assert forall|fp: FingerprintView| #[trigger] after.contains(fp) <==> exists|i: int|
            0 <= i < routed.len() && (#[trigger] routed[i]).0.target == Some(target)
                && routed[i].1 == fp by {
            assert(before.contains(fp) <==> exists|i: int|
                0 <= i < front.len() && (#[trigger] front[i]).0.target == Some(target)
                    && front[i].1 == fp);
            if after.contains(fp) {
                let k = choose|k: int| 0 <= k < after.len() && after[k] == fp;
                if k < before.len() {
                    assert(before[k] == fp);
                    let i = choose|i: int|
                        0 <= i < front.len() && (#[trigger] front[i]).0.target == Some(target)
                            && front[i].1 == fp;
                    assert(routed[i].0.target == Some(target) && routed[i].1 == fp);
                } else {
                    assert(routed[last].0.target == Some(target) && routed[last].1 == fp);
                }
            }
            if exists|i: int|
                0 <= i < routed.len() && (#[trigger] routed[i]).0.target == Some(target)
                    && routed[i].1 == fp {
                let i = choose|i: int|
                    0 <= i < routed.len() && (#[trigger] routed[i]).0.target == Some(target)
                        && routed[i].1 == fp;
                if i < last {
                    assert(front[i].0.target == Some(target) && front[i].1 == fp);
                    let k = choose|k: int| 0 <= k < before.len() && before[k] == fp;
                    assert(after[k] == fp);
                } else {
                    assert(after[before.len() as int] == fp);
                }
            }
        }
    }
}

/// Each ancestor that a hunk goes into has exactly one group, and the group holds the
/// fingerprints of exactly the hunks that go into that ancestor.
pub proof fn law_groups(routed: Seq<(RoutingView, FingerprintView)>)
    ensures
        forall|a: int, b: int|
            0 <= a < b < absorb::groups(routed).len() ==> (#[trigger] absorb::groups(routed)[a]).0
                != (#[trigger] absorb::groups(routed)[b]).0,
        forall|i: int| #![trigger routed[i]]
            0 <= i < routed.len() && routed[i].0.target is Some ==> exists|g: int|
                0 <= g < absorb::groups(routed).len() && routed[i].0.target == Some(
                    (#[trigger] absorb::groups(routed)[g]).0,
                ) && absorb::groups(routed)[g].1.contains(routed[i].1),
        forall|g: int, fingerprint: FingerprintView|
            0 <= g < absorb::groups(routed).len() && #[trigger] absorb::groups(
                routed,
            )[g].1.contains(fingerprint) ==> exists|i: int|
                0 <= i < routed.len() && (#[trigger] routed[i]).0.target == Some(
                    absorb::groups(routed)[g].0,
                ) && routed[i].1 == fingerprint,
{
    let groups = absorb::groups(routed);
    let targets = absorb::targets(routed);
    lemma_targets(routed);
    assert forall|a: int, b: int| 0 <= a < b < groups.len() implies (#[trigger] groups[a]).0 != (
    #[trigger] groups[b]).0 by {
        assert(groups[a].0 == targets[a] && groups[b].0 == targets[b]);
    }
    assert forall|i: int| #![trigger routed[i]]
        0 <= i < routed.len() && routed[i].0.target is Some implies exists|g: int|
        0 <= g < groups.len() && routed[i].0.target == Some((#[trigger] groups[g]).0)
            && groups[g].1.contains(routed[i].1) by {
        let target = routed[i].0.target->0;
        assert(targets.contains(target));
        let g = choose|g: int| 0 <= g < targets.len() && targets[g] == target;
        lemma_bound_for(routed, target);
        assert(absorb::bound_for(routed, target).contains(routed[i].1));
        assert(groups[g].0 == target);
    }
    assert forall|g: int, fingerprint: FingerprintView|
        0 <= g < groups.len() && #[trigger] groups[g].1.contains(fingerprint) implies exists|
        i: int,
    |
        0 <= i < routed.len() && (#[trigger] routed[i]).0.target == Some(groups[g].0)
            && routed[i].1 == fingerprint by {
        lemma_bound_for(routed, targets[g]);
    }
}

/// How many hunks go into these targets.
spec fn bound_total(
    routed: Seq<(RoutingView, FingerprintView)>,
    targets: Seq<Seq<char>>,
) -> nat
    decreases targets.len(),
{
    if targets.len() == 0 {
        0
    } else {
        bound_total(routed, targets.drop_last()) + absorb::bound_for(routed, targets.last()).len()
    }
}

/// One more routed hunk makes one more that goes into the targets, if it goes into one of them.
proof fn lemma_bound_total(
    routed: Seq<(RoutingView, FingerprintView)>,
    targets: Seq<Seq<char>>,
)
    requires
        routed.len() > 0,
        targets.no_duplicates(),
    ensures
        bound_total(routed, targets) == bound_total(routed.drop_last(), targets) + if
            routed.last().0.target is Some && targets.contains(routed.last().0.target->0) {
            1nat
        } else {
            0nat
        },
    decreases targets.len(),
{
    if targets.len() > 0 {
        let front = targets.drop_last();
        lemma_bound_total(routed, front);
        let last = targets.len() - 1;
        if let Some(target) = routed.last().0.target {
            if front.contains(target) {
                let k = choose|k: int| 0 <= k < front.len() && front[k] == target;
                assert(targets[k] == target);
                assert(targets[last] != target);
            } else if targets.contains(target) {
                let k = choose|k: int| 0 <= k < targets.len() && targets[k] == target;
                if k < last {
                    assert(front[k] == target);
                }
                assert(targets[last] == target);
            } else {
                assert(targets[last] != target);
            }
        }
    }
}

/// No hunk goes into a target that no routing names.
proof fn lemma_bound_for_none(routed: Seq<(RoutingView, FingerprintView)>, target: Seq<char>)
    requires
        forall|i: int|
            0 <= i < routed.len() ==> (#[trigger] routed[i]).0.target != Some(target),
    ensures
        absorb::bound_for(routed, target).len() == 0,
    decreases routed.len(),
{
    if routed.len() > 0 {
        let front = routed.drop_last();
        assert forall|i: int| 0 <= i < front.len() implies (#[trigger] front[i]).0.target != Some(
            target,
        ) by {
            assert(front[i] == routed[i]);
        }
        lemma_bound_for_none(front, target);
        assert(routed[routed.len() - 1].0.target != Some(target));
    }
}

/// The targets that are named have as many hunks as go anywhere.
proof fn lemma_total_is_absorbed(routed: Seq<(RoutingView, FingerprintView)>)
    ensures
        bound_total(routed, absorb::targets(routed)) == report::absorbed(routed).len(),
    decreases routed.len(),
{
    reveal(Seq::filter);
    if routed.len() > 0 {
        let front = routed.drop_last();
        let before = absorb::targets(front);
        let after = absorb::targets(routed);
        lemma_total_is_absorbed(front);
        lemma_targets(front);
        lemma_targets(routed);
        lemma_bound_total(routed, after);
        if let Some(target) = routed.last().0.target {
            assert(routed[routed.len() - 1].0.target == Some(target));
            assert(after.contains(target));
            if !before.contains(target) {
                assert forall|i: int| 0 <= i < front.len() implies (#[trigger] front[i]).0.target
                    != Some(target) by {}
                lemma_bound_for_none(front, target);
                assert(after.drop_last() =~= before);
                assert(after.last() == target);
            }
        }
    }
}

/// How many fingerprints groups hold together.
pub open spec fn group_total(groups: Seq<(Seq<char>, Seq<FingerprintView>)>) -> nat
    decreases groups.len(),
{
    if groups.len() == 0 {
        0
    } else {
        group_total(groups.drop_last()) + groups.last().1.len()
    }
}

/// The groups hold as many fingerprints as the report says hunks are absorbed.
pub proof fn law_groups_hold_all(routed: Seq<(RoutingView, FingerprintView)>)
    ensures
        group_total(absorb::groups(routed)) == report::absorbed(routed).len(),
{
    lemma_total_is_absorbed(routed);
    let targets = absorb::targets(routed);
    lemma_group_total(routed, absorb::groups(routed), targets);
}

/// Groups with the hunks for these targets hold as many as go into the targets.
proof fn lemma_group_total(
    routed: Seq<(RoutingView, FingerprintView)>,
    groups: Seq<(Seq<char>, Seq<FingerprintView>)>,
    targets: Seq<Seq<char>>,
)
    requires
        groups.len() == targets.len(),
        forall|i: int|
            0 <= i < groups.len() ==> (#[trigger] groups[i]).1 == absorb::bound_for(
                routed,
                targets[i],
            ),
    ensures
        group_total(groups) == bound_total(routed, targets),
    decreases groups.len(),
{
    if groups.len() > 0 {
        let front = groups.drop_last();
        assert forall|i: int| 0 <= i < front.len() implies (#[trigger] front[i]).1
            == absorb::bound_for(routed, targets.drop_last()[i]) by {
            assert(front[i] == groups[i]);
        }
        lemma_group_total(routed, front, targets.drop_last());
        assert(groups[groups.len() - 1].1 == absorb::bound_for(routed, targets.last()));
    }
}

/// Exactly the hunks with one of the fingerprints are moved, each of them whole.
pub proof fn law_matching(
    identified: Seq<(Seq<char>, HunkView)>,
    fingerprints: Seq<FingerprintView>,
)
    ensures
        forall|spec: SpecView| #[trigger]
            absorb::matching(identified, fingerprints).contains(spec) <==> exists|i: int|
                0 <= i < identified.len() && (#[trigger] identified[i]).0 == spec.id
                    && identified[i].1 == spec.hunk && fingerprints.contains(
                    route::fingerprint(spec.hunk),
                ) && spec.ranges == Seq::<(usize, usize)>::empty(),
    decreases identified.len(),
{
    let after = absorb::matching(identified, fingerprints);
    if identified.len() > 0 {
        let front = identified.drop_last();
        law_matching(front, fingerprints);
        let before = absorb::matching(front, fingerprints);
        let last = identified.len() - 1;
        assert forall|spec: SpecView| #[trigger] after.contains(spec) <==> exists|i: int|
            0 <= i < identified.len() && (#[trigger] identified[i]).0 == spec.id
                && identified[i].1 == spec.hunk && fingerprints.contains(
                route::fingerprint(spec.hunk),
            ) && spec.ranges == Seq::<(usize, usize)>::empty() by {
            assert(before.contains(spec) <==> exists|i: int|
                0 <= i < front.len() && (#[trigger] front[i]).0 == spec.id && front[i].1
                    == spec.hunk && fingerprints.contains(route::fingerprint(spec.hunk))
                    && spec.ranges == Seq::<(usize, usize)>::empty());
            if after.contains(spec) {
                let k = choose|k: int| 0 <= k < after.len() && after[k] == spec;
                if k < before.len() {
                    assert(before[k] == spec);
                    let i = choose|i: int|
                        0 <= i < front.len() && (#[trigger] front[i]).0 == spec.id && front[i].1
                            == spec.hunk;
                    assert(identified[i].0 == spec.id && identified[i].1 == spec.hunk);
                } else {
                    assert(identified[last].0 == spec.id && identified[last].1 == spec.hunk);
                }
            }
            if exists|i: int|
                0 <= i < identified.len() && (#[trigger] identified[i]).0 == spec.id
                    && identified[i].1 == spec.hunk && fingerprints.contains(
                    route::fingerprint(spec.hunk),
                ) && spec.ranges == Seq::<(usize, usize)>::empty() {
                let i = choose|i: int|
                    0 <= i < identified.len() && (#[trigger] identified[i]).0 == spec.id
                        && identified[i].1 == spec.hunk;
                if i < last {
                    assert(front[i].0 == spec.id && front[i].1 == spec.hunk);
                    let k = choose|k: int| 0 <= k < before.len() && before[k] == spec;
                    assert(after[k] == spec);
                } else {
                    assert(after[before.len() as int] == spec);
                }
            }
        }
    }
}

// ---------------------------------------------------------------------------------------------
// Targets
// ---------------------------------------------------------------------------------------------

/// Every hunk that goes anywhere goes into one of the ancestors.
pub open spec fn goes_into_ancestors(
    routed: Seq<(RoutingView, FingerprintView)>,
    ancestors: Seq<(Seq<char>, Seq<char>)>,
) -> bool {
    forall|i: int|
        0 <= i < routed.len() && (#[trigger] routed[i]).0.target is Some ==> jj::is_ancestor(
            ancestors,
            routed[i].0.target->0,
        )
}

/// What is said to have touched a file are ancestors.
pub open spec fn touched_by_ancestors(
    facts: FactsView,
    ancestors: Seq<(Seq<char>, Seq<char>)>,
) -> bool {
    facts.touched_by matches Some(ids) ==> forall|k: int|
        0 <= k < ids.len() ==> jj::is_ancestor(ancestors, #[trigger] ids[k])
}

/// The facts on a file are among those that are given, or none.
proof fn lemma_facts_on(
    facts: Seq<FactsView>,
    file: Seq<char>,
    ancestors: Seq<(Seq<char>, Seq<char>)>,
)
    requires
        forall|i: int|
            0 <= i < facts.len() ==> touched_by_ancestors(#[trigger] facts[i], ancestors),
    ensures
        touched_by_ancestors(route::facts_on(facts, file), ancestors),
    decreases facts.len(),
{
    if facts.len() > 0 {
        assert(touched_by_ancestors(facts[0], ancestors));
        let rest = facts.drop_first();
        assert forall|i: int| 0 <= i < rest.len() implies touched_by_ancestors(
            #[trigger] rest[i],
            ancestors,
        ) by {
            assert(rest[i] == facts[i + 1]);
        }
        lemma_facts_on(rest, file, ancestors);
    }
}

/// Routing sends hunks into ancestors only, where all that touched the files are ancestors. So
/// without ancestors no hunk goes anywhere.
pub proof fn law_routes_go_into_ancestors(
    selected: Seq<(Seq<char>, HunkView)>,
    facts: Seq<FactsView>,
    ancestors: Seq<(Seq<char>, Seq<char>)>,
)
    requires
        forall|i: int|
            0 <= i < facts.len() ==> touched_by_ancestors(#[trigger] facts[i], ancestors),
    ensures
        goes_into_ancestors(route::routes(selected, facts, ancestors), ancestors),
        ancestors.len() == 0 ==> absorb::groups(
            route::routes(selected, facts, ancestors),
        ).len() == 0,
{
    let routed = route::routes(selected, facts, ancestors);
    assert forall|i: int|
        0 <= i < routed.len() && (#[trigger] routed[i]).0.target is Some implies jj::is_ancestor(
        ancestors,
        routed[i].0.target->0,
    ) by {
        let (id, hunk) = selected[i];
        let known = route::facts_on(facts, hunk.file);
        lemma_facts_on(facts, hunk.file, ancestors);
        law_route(id, hunk, known, ancestors);
        lemma_reasons();
        if routed[i].0.reason != "matched"@ {
            let ids = known.touched_by->0;
            assert(routed[i].0.target->0 == ids[0]);
        }
    }
    law_moves_go_into_ancestors(routed, ancestors);
}

/// Where every hunk that goes anywhere goes into one of the ancestors, every move is into one of
/// them; without ancestors there is no move.
pub proof fn law_moves_go_into_ancestors(
    routed: Seq<(RoutingView, FingerprintView)>,
    ancestors: Seq<(Seq<char>, Seq<char>)>,
)
    requires
        goes_into_ancestors(routed, ancestors),
    ensures
        forall|g: int|
            0 <= g < absorb::groups(routed).len() ==> jj::is_ancestor(
                ancestors,
                (#[trigger] absorb::groups(routed)[g]).0,
            ),
        ancestors.len() == 0 ==> absorb::groups(routed).len() == 0,
{
    let groups = absorb::groups(routed);
    let targets = absorb::targets(routed);
    lemma_targets(routed);
    assert forall|g: int| 0 <= g < groups.len() implies jj::is_ancestor(
        ancestors,
        (#[trigger] groups[g]).0,
    ) by {
        assert(targets.contains(targets[g]));
        let i = choose|i: int|
            0 <= i < routed.len() && (#[trigger] routed[i]).0.target == Some(targets[g]);
        assert(routed[i].0.target is Some);
    }
    if groups.len() > 0 {
        assert(jj::is_ancestor(ancestors, groups[0].0));
    }
}

/// Deciding without asking sends no hunk anywhere new.
proof fn lemma_settled_adds_no_target(review: ReviewView)
    ensures
        review.settled().routed.len() == review.routed.len(),
        forall|i: int|
            0 <= i < review.routed.len() && (#[trigger] review.settled().routed[i]).0.target is Some
                ==> review.settled().routed[i].0.target == review.routed[i].0.target,
    decreases review.routed.len() - review.at,
{
    if !review.done() {
        if review.quit {
            lemma_settled_adds_no_target(review.decided(None, "skipped (quit)"@));
        } else if review.skip_file == Some(review.current().file) {
            lemma_settled_adds_no_target(review.decided(None, "skipped (file)"@));
        } else if review.absorb_file == Some(review.current().file) {
            lemma_settled_adds_no_target(ReviewView { skip_file: None, ..review.kept() });
        }
    }
}

/// A review in which hunks go into ancestors only stays one when it decides without asking.
proof fn lemma_settled_stays_in_ancestors(
    review: ReviewView,
    ancestors: Seq<(Seq<char>, Seq<char>)>,
)
    requires
        goes_into_ancestors(review.routed, ancestors),
    ensures
        goes_into_ancestors(review.settled().routed, ancestors),
{
    lemma_settled_adds_no_target(review);
    let after = review.settled().routed;
    assert forall|i: int|
        0 <= i < after.len() && (#[trigger] after[i]).0.target is Some implies jj::is_ancestor(
        ancestors,
        after[i].0.target->0,
    ) by {
        assert(review.routed[i].0.target is Some);
    }
}

/// Whatever the key, and whatever number is typed, a review sends hunks into ancestors only.
pub proof fn law_review_goes_into_ancestors(
    review: ReviewView,
    key: Option<char>,
    line: Seq<char>,
    ancestors: Seq<(Seq<char>, Seq<char>)>,
)
    requires
        is_waiting(review),
        goes_into_ancestors(review.routed, ancestors),
    ensures
        goes_into_ancestors(review.after_key(key).0.routed, ancestors),
        goes_into_ancestors(review.after_number(line, ancestors).routed, ancestors),
{
    let file = review.current().file;
    let skipped = review.decided(None, "skipped"@);
    let skipped_file = ReviewView {
        skip_file: Some(file),
        ..review.decided(None, "skipped (file)"@)
    };
    let quit = ReviewView { quit: true, ..review.decided(None, "skipped (quit)"@) };
    lemma_decided_stays_in_ancestors(review, None, ancestors);
    lemma_settled_stays_in_ancestors(review.kept(), ancestors);
    lemma_settled_stays_in_ancestors(
        ReviewView { absorb_file: Some(file), ..review.kept() },
        ancestors,
    );
    lemma_settled_stays_in_ancestors(skipped, ancestors);
    lemma_settled_stays_in_ancestors(skipped_file, ancestors);
    lemma_settled_stays_in_ancestors(quit, ancestors);
    if let Some(target) = review::picked(line, ancestors) {
        lemma_ids_are_ancestors(ancestors);
        assert(jj::ancestor_ids(ancestors).contains(target));
        lemma_decided_stays_in_ancestors(review, Some(target), ancestors);
        lemma_settled_stays_in_ancestors(
            review.decided(Some(target), "retargeted"@),
            ancestors,
        );
    }
}

/// Sending the current hunk into an ancestor, or nowhere, keeps hunks in ancestors.
proof fn lemma_decided_stays_in_ancestors(
    review: ReviewView,
    target: Option<Seq<char>>,
    ancestors: Seq<(Seq<char>, Seq<char>)>,
)
    requires
        !review.done(),
        goes_into_ancestors(review.routed, ancestors),
        target matches Some(id) ==> jj::is_ancestor(ancestors, id),
    ensures
        forall|reason: Seq<char>|
            goes_into_ancestors((#[trigger] review.decided(target, reason)).routed, ancestors),
{
    assert forall|reason: Seq<char>|
        goes_into_ancestors((#[trigger] review.decided(target, reason)).routed, ancestors) by {
        let after = review.decided(target, reason).routed;
        assert forall|i: int|
            0 <= i < after.len() && (#[trigger] after[i]).0.target is Some implies jj::is_ancestor(
            ancestors,
            after[i].0.target->0,
        ) by {
            if i != review.at {
                assert(after[i] == review.routed[i]);
            }
        }
    }
}

} // verus!
