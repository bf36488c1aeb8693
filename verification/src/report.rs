//! The report on where hunks go and which stay where they are.
use crate::jj::Ancestors;
use crate::review;
use crate::route;
use crate::route::{FingerprintView, HunkFingerprint, HunkRouting, RoutingView};
use crate::text;
use vstd::prelude::*;

verus! {

/// The hunk goes into an ancestor.
pub open spec fn is_absorbed(routing: RoutingView) -> bool {
    routing.target is Some
}

/// The hunk stays because it overlaps several ancestors.
pub open spec fn is_ambiguous(routing: RoutingView) -> bool {
    routing.reason == "ambiguous"@
}

/// The hunk stays for another reason.
pub open spec fn is_unmatched(routing: RoutingView) -> bool {
    !is_absorbed(routing) && !is_ambiguous(routing)
}

/// The hunks that go into an ancestor.
pub open spec fn absorbed(routed: Seq<(RoutingView, FingerprintView)>) -> Seq<
    (RoutingView, FingerprintView),
> {
    routed.filter(|r: (RoutingView, FingerprintView)| is_absorbed(r.0))
}

/// The hunks that stay because they overlap several ancestors.
pub open spec fn ambiguous(routed: Seq<(RoutingView, FingerprintView)>) -> Seq<
    (RoutingView, FingerprintView),
> {
    routed.filter(|r: (RoutingView, FingerprintView)| is_ambiguous(r.0))
}

/// The hunks that stay for another reason.
pub open spec fn unmatched(routed: Seq<(RoutingView, FingerprintView)>) -> Seq<
    (RoutingView, FingerprintView),
> {
    routed.filter(|r: (RoutingView, FingerprintView)| is_unmatched(r.0))
}

/// What a row says of the hunk itself.
pub open spec fn row_front(r: RoutingView) -> Seq<char> {
    "  "@ + r.hunk_id + " ("@ + r.file + " +"@ + text::decimal(r.additions) + " -"@ + text::decimal(
        r.deletions,
    ) + ")"@
}

/// The row of a hunk that goes into an ancestor.
pub open spec fn absorbed_row(
    r: RoutingView,
    ancestors: Seq<(Seq<char>, Seq<char>)>,
) -> Seq<char> {
    row_front(r) + " → "@ + review::described(ancestors, r.target->0) + "\n"@
}

/// The row of a hunk that overlaps several ancestors.
pub open spec fn ambiguous_row(
    r: RoutingView,
    ancestors: Seq<(Seq<char>, Seq<char>)>,
) -> Seq<char> {
    row_front(r) + " — overlaps "@ + review::described_list(ancestors, r.candidates) + "\n"@
}

/// The row of a hunk that stays for another reason.
pub open spec fn unmatched_row(r: RoutingView) -> Seq<char> {
    row_front(r) + " — "@ + r.reason + "\n"@
}

/// The rows of hunks that go into ancestors.
pub open spec fn absorbed_rows(
    rows: Seq<(RoutingView, FingerprintView)>,
    ancestors: Seq<(Seq<char>, Seq<char>)>,
) -> Seq<char>
    decreases rows.len(),
{
    if rows.len() == 0 {
        Seq::empty()
    } else {
        absorbed_rows(rows.drop_last(), ancestors) + absorbed_row(rows.last().0, ancestors)
    }
}

/// The rows of hunks that overlap several ancestors.
pub open spec fn ambiguous_rows(
    rows: Seq<(RoutingView, FingerprintView)>,
    ancestors: Seq<(Seq<char>, Seq<char>)>,
) -> Seq<char>
    decreases rows.len(),
{
    if rows.len() == 0 {
        Seq::empty()
    } else {
        ambiguous_rows(rows.drop_last(), ancestors) + ambiguous_row(rows.last().0, ancestors)
    }
}

/// The rows of hunks that stay for another reason.
pub open spec fn unmatched_rows(rows: Seq<(RoutingView, FingerprintView)>) -> Seq<char>
    decreases rows.len(),
{
    if rows.len() == 0 {
        Seq::empty()
    } else {
        unmatched_rows(rows.drop_last()) + unmatched_row(rows.last().0)
    }
}

/// The part of the report on hunks that stay in `source`.
pub open spec fn staying_text(
    routed: Seq<(RoutingView, FingerprintView)>,
    ancestors: Seq<(Seq<char>, Seq<char>)>,
    source: Seq<char>,
) -> Seq<char> {
    (if ambiguous(routed).len() == 0 {
        Seq::empty()
    } else {
        "\nAmbiguous (staying in "@ + source + "):\n"@ + ambiguous_rows(
            ambiguous(routed),
            ancestors,
        )
    }) + if unmatched(routed).len() == 0 {
        Seq::empty()
    } else {
        "\nUnmatched (staying in "@ + source + "):\n"@ + unmatched_rows(unmatched(routed))
    }
}

/// The report.
pub open spec fn plan_text(
    routed: Seq<(RoutingView, FingerprintView)>,
    ancestors: Seq<(Seq<char>, Seq<char>)>,
    source: Seq<char>,
    dry_run: bool,
) -> Seq<char> {
    let goes = absorbed(routed);
    (if goes.len() == 0 {
        "Nothing to absorb: no hunks matched any ancestor.\n"@
    } else {
        (if dry_run {
            "Would absorb"@
        } else {
            "Absorbed"@
        }) + " "@ + text::decimal(goes.len()) + " hunk(s):\n"@ + absorbed_rows(goes, ancestors)
    }) + staying_text(routed, ancestors, source)
}

/// What a row says of the hunk itself.
fn format_front(r: &HunkRouting) -> (out: String)
    ensures
        out@ == row_front(r@),
{
    let mut out = "  ".to_string();
    out.append(&r.hunk_id);
    out.append(" (");
    out.append(&r.file);
    out.append(" +");
    out.append(&text::decimal_text(r.additions));
    out.append(" -");
    out.append(&text::decimal_text(r.deletions));
    out.append(")");
    out
}

/// Adds a section with a heading, unless it has no rows.
fn add_section(out: &mut String, title: &str, source: &str, rows: &str, count: usize)
    ensures
        final(out)@ == old(out)@ + if count == 0 {
            Seq::empty()
        } else {
            title@ + source@ + "):\n"@ + rows@
        },
{
    if count > 0 {
        out.append(title);
        out.append(source);
        out.append("):\n");
        out.append(rows);
    }
    assert(out@ =~= old(out)@ + if count == 0 {
        Seq::empty()
    } else {
        title@ + source@ + "):\n"@ + rows@
    });
}

/// Adds the row of a hunk that goes into an ancestor.
fn add_absorbed(rows: &mut String, r: &HunkRouting, target: &str, ancestors: &Ancestors)
    requires
        r@.target == Some(target@),
    ensures
        final(rows)@ == old(rows)@ + absorbed_row(r@, ancestors@),
{
    rows.append(&format_front(r));
    rows.append(" → ");
    rows.append(&review::describe(ancestors, target));
    rows.append("\n");
    assert(rows@ =~= old(rows)@ + absorbed_row(r@, ancestors@));
}

/// Adds the row of a hunk that overlaps several ancestors.
fn add_ambiguous(rows: &mut String, r: &HunkRouting, ancestors: &Ancestors)
    ensures
        final(rows)@ == old(rows)@ + ambiguous_row(r@, ancestors@),
{
    rows.append(&format_front(r));
    rows.append(" — overlaps ");
    rows.append(&review::describe_list(ancestors, &r.candidates));
    rows.append("\n");
    assert(rows@ =~= old(rows)@ + ambiguous_row(r@, ancestors@));
}

/// Adds the row of a hunk that stays for another reason.
fn add_unmatched(rows: &mut String, r: &HunkRouting)
    ensures
        final(rows)@ == old(rows)@ + unmatched_row(r@),
{
    rows.append(&format_front(r));
    rows.append(" — ");
    rows.append(r.reason);
    rows.append("\n");
    assert(rows@ =~= old(rows)@ + unmatched_row(r@));
}

/// One more routed hunk, in each of the three lists.
proof fn lemma_one_more(routed: Seq<(RoutingView, FingerprintView)>, i: int)
    requires
        0 <= i < routed.len(),
    ensures
        absorbed(routed.take(i + 1)) == if is_absorbed(routed[i].0) {
            absorbed(routed.take(i)).push(routed[i])
        } else {
            absorbed(routed.take(i))
        },
        ambiguous(routed.take(i + 1)) == if is_ambiguous(routed[i].0) {
            ambiguous(routed.take(i)).push(routed[i])
        } else {
            ambiguous(routed.take(i))
        },
        unmatched(routed.take(i + 1)) == if is_unmatched(routed[i].0) {
            unmatched(routed.take(i)).push(routed[i])
        } else {
            unmatched(routed.take(i))
        },
{
    reveal(Seq::filter);
    assert(routed.take(i + 1).drop_last() =~= routed.take(i));
    assert(routed.take(i + 1).last() == routed[i]);
}

/// No routed hunks, in each of the three lists.
proof fn lemma_none(routed: Seq<(RoutingView, FingerprintView)>)
    requires
        routed.len() == 0,
    ensures
        absorbed(routed).len() == 0,
        ambiguous(routed).len() == 0,
        unmatched(routed).len() == 0,
{
    reveal(Seq::filter);
}

/// Writes the report on where hunks go: how many go into ancestors and which, then those that
/// stay because they overlap several, then those that stay for another reason.
pub fn format_plan(
    routed: &Vec<(HunkRouting, HunkFingerprint)>,
    ancestors: &Ancestors,
    source: &str,
    dry_run: bool,
) -> (r: String)
    ensures
        r@ == plan_text(route::routed_views(routed@), ancestors@, source@, dry_run),
{
    let ghost all = route::routed_views(routed@);
    let mut goes: usize = 0;
    let mut torn: usize = 0;
    let mut stays: usize = 0;
    let mut goes_rows = String::new();
    let mut torn_rows = String::new();
    let mut stays_rows = String::new();
    let mut i: usize = 0;
    proof {
        lemma_none(all.take(0));
    }
    assert(goes_rows@ =~= absorbed_rows(absorbed(all.take(0)), ancestors@));
    assert(torn_rows@ =~= ambiguous_rows(ambiguous(all.take(0)), ancestors@));
    assert(stays_rows@ =~= unmatched_rows(unmatched(all.take(0))));
    while i < routed.len()
        invariant
            i <= routed@.len(),
            all == route::routed_views(routed@),
            goes <= i,
            torn <= i,
            stays <= i,
            goes == absorbed(all.take(i as int)).len(),
            torn == ambiguous(all.take(i as int)).len(),
            stays == unmatched(all.take(i as int)).len(),
            goes_rows@ == absorbed_rows(absorbed(all.take(i as int)), ancestors@),
            torn_rows@ == ambiguous_rows(ambiguous(all.take(i as int)), ancestors@),
            stays_rows@ == unmatched_rows(unmatched(all.take(i as int))),
        decreases routed@.len() - i,
    {
        let routing = &routed[i].0;
        proof {
            lemma_one_more(all, i as int);
            assert(absorbed(all.take(i as int)).push(all[i as int]).drop_last() =~= absorbed(
                all.take(i as int),
            ));
            assert(ambiguous(all.take(i as int)).push(all[i as int]).drop_last() =~= ambiguous(
                all.take(i as int),
            ));
            assert(unmatched(all.take(i as int)).push(all[i as int]).drop_last() =~= unmatched(
                all.take(i as int),
            ));
        }
        let is_torn = text::same_text(routing.reason, "ambiguous");
        if let Some(target) = &routing.target {
            add_absorbed(&mut goes_rows, routing, target, ancestors);
            goes = goes + 1;
        } else if !is_torn {
            add_unmatched(&mut stays_rows, routing);
            stays = stays + 1;
        }
        if is_torn {
            add_ambiguous(&mut torn_rows, routing, ancestors);
            torn = torn + 1;
        }
        i = i + 1;
    }
    assert(all.take(i as int) =~= all);
    let mut out = String::new();
    if goes == 0 {
        out.append("Nothing to absorb: no hunks matched any ancestor.\n");
    } else {
        out.append(
            if dry_run {
                "Would absorb"
            } else {
                "Absorbed"
            },
        );
        out.append(" ");
        out.append(&text::decimal_text(goes));
        out.append(" hunk(s):\n");
        out.append(&goes_rows);
    }
    add_section(&mut out, "\nAmbiguous (staying in ", source, &torn_rows, torn);
    add_section(&mut out, "\nUnmatched (staying in ", source, &stays_rows, stays);
    assert(out@ =~= plan_text(all, ancestors@, source@, dry_run));
    out
}

} // verus!
