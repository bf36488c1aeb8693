//! Finding the ancestor that each hunk belongs into.
use crate::diff;
use crate::header;
use crate::hunk;
use crate::hunk::{DiffHunk, HunkView};
use crate::jj;
use crate::jj::Ancestors;
use crate::text;
use vstd::prelude::*;

verus! {

// ---------------------------------------------------------------------------------------------
// Fingerprints
// ---------------------------------------------------------------------------------------------

/// A fingerprint by which a hunk is found again in a later diff: its path and its changes,
/// without the context, which can shift.
#[derive(Debug, PartialEq, Eq, Hash)]
pub struct HunkFingerprint {
    pub file: String,
    pub change_lines: Vec<String>,
}

/// What a [`HunkFingerprint`] holds.
#[verifier::ext_equal]
pub struct FingerprintView {
    pub file: Seq<char>,
    pub change_lines: Seq<Seq<char>>,
}

impl View for HunkFingerprint {
    type V = FingerprintView;

    open spec fn view(&self) -> FingerprintView {
        FingerprintView { file: self.file@, change_lines: text::views(self.change_lines@) }
    }
}

impl Clone for HunkFingerprint {
    fn clone(&self) -> (r: Self)
        ensures
            r@ == self@,
    {
        HunkFingerprint {
            file: self.file.clone(),
            change_lines: hunk::copy_strings(&self.change_lines),
        }
    }
}

/// The lines that a body adds or removes.
pub open spec fn change_lines(lines: Seq<Seq<char>>) -> Seq<Seq<char>> {
    lines.filter(|line: Seq<char>| hunk::is_change(line))
}

/// The lines that a body adds.
pub open spec fn added_lines(lines: Seq<Seq<char>>) -> Seq<Seq<char>> {
    lines.filter(|line: Seq<char>| hunk::is_added(line))
}

/// The lines that a body removes.
pub open spec fn removed_lines(lines: Seq<Seq<char>>) -> Seq<Seq<char>> {
    lines.filter(|line: Seq<char>| hunk::is_removed(line))
}

/// The fingerprint of a hunk.
pub open spec fn fingerprint(hunk: HunkView) -> FingerprintView {
    FingerprintView { file: hunk.file, change_lines: change_lines(hunk.lines) }
}

impl HunkFingerprint {
    /// The fingerprint of a hunk.
    pub fn from_hunk(hunk: &DiffHunk) -> (r: Self)
        ensures
            r@ == fingerprint(hunk@),
    {
        let ghost all = hunk@.lines;
        let mut kept: Vec<String> = Vec::new();
        let mut i: usize = 0;
        proof {
            reveal(Seq::filter);
            assert(text::views(kept@) =~= change_lines(all.take(0)));
        }
        while i < hunk.lines.len()
            invariant
                i <= hunk.lines@.len(),
                all == text::views(hunk.lines@),
                text::views(kept@) == change_lines(all.take(i as int)),
            decreases hunk.lines@.len() - i,
        {
            proof {
                reveal(Seq::filter);
                assert(all.take(i + 1).drop_last() =~= all.take(i as int));
                assert(all.take(i + 1).last() == all[i as int]);
            }
            if hunk::changes(&hunk.lines[i]) {
                text::push_text(&mut kept, &hunk.lines[i]);
            }
            i = i + 1;
        }
        assert(all.take(i as int) =~= all);
        HunkFingerprint { file: hunk.file.clone(), change_lines: kept }
    }

    /// Whether two fingerprints are the same.
    pub fn same(&self, other: &HunkFingerprint) -> (r: bool)
        ensures
            r == (self@ == other@),
    {
        text::same_text(&self.file, &other.file) && text::same_texts(
            &self.change_lines,
            &other.change_lines,
        )
    }
}

// ---------------------------------------------------------------------------------------------
// What is known of the files
// ---------------------------------------------------------------------------------------------

/// What jj says of a file.
#[derive(Debug, PartialEq, Eq)]
pub struct FileFacts {
    pub file: String,
    /// The change that each of its lines comes from, unless that could not be found out.
    pub annotations: Option<Vec<String>>,
    /// The mutable ancestors that touched it, most recent first, unless that could not be found
    /// out.
    pub touched_by: Option<Vec<String>>,
}

/// What a [`FileFacts`] holds.
#[verifier::ext_equal]
pub struct FactsView {
    pub file: Seq<char>,
    pub annotations: Option<Seq<Seq<char>>>,
    pub touched_by: Option<Seq<Seq<char>>>,
}

/// What an optional list holds.
pub open spec fn optional_list(list: Option<Vec<String>>) -> Option<Seq<Seq<char>>> {
    match list {
        Some(list) => Some(text::views(list@)),
        None => None,
    }
}

impl View for FileFacts {
    type V = FactsView;

    open spec fn view(&self) -> FactsView {
        FactsView {
            file: self.file@,
            annotations: optional_list(self.annotations),
            touched_by: optional_list(self.touched_by),
        }
    }
}

/// What the facts on several files hold.
pub open spec fn facts_views(facts: Seq<FileFacts>) -> Seq<FactsView> {
    Seq::new(facts.len(), |i: int| facts[i]@)
}

/// The facts on a file: the first that are given; none, where none are.
pub open spec fn facts_on(facts: Seq<FactsView>, file: Seq<char>) -> FactsView
    decreases facts.len(),
{
    if facts.len() == 0 {
        FactsView { file, annotations: None, touched_by: None }
    } else if facts[0].file == file {
        facts[0]
    } else {
        facts_on(facts.drop_first(), file)
    }
}

/// What the selected hunks hold, with their ids.
pub open spec fn selected_views(selected: Seq<(&str, &DiffHunk)>) -> Seq<(Seq<char>, HunkView)> {
    Seq::new(selected.len(), |i: int| (selected[i].0@, selected[i].1@))
}

/// The files to find out about, each once: those of the hunks that are not of a new file.
pub open spec fn files_to_annotate(selected: Seq<(Seq<char>, HunkView)>) -> Seq<Seq<char>>
    decreases selected.len(),
{
    if selected.len() == 0 {
        Seq::empty()
    } else {
        let front = files_to_annotate(selected.drop_last());
        let hunk = selected.last().1;
        if diff::dev_null(hunk.old_file) || front.contains(hunk.file) {
            front
        } else {
            front.push(hunk.file)
        }
    }
}

/// The files to find out about, each once: those of the hunks that are not of a new file.
pub fn unique_files(selected: &[(&str, &DiffHunk)]) -> (r: Vec<String>)
    ensures
        text::views(r@) == files_to_annotate(selected_views(selected@)),
{
    let ghost all = selected_views(selected@);
    let mut files: Vec<String> = Vec::new();
    let mut i: usize = 0;
    assert(text::views(files@) =~= files_to_annotate(all.take(0)));
    while i < selected.len()
        invariant
            i <= selected@.len(),
            all == selected_views(selected@),
            text::views(files@) == files_to_annotate(all.take(i as int)),
        decreases selected@.len() - i,
    {
        proof {
            assert(all.take(i + 1).drop_last() =~= all.take(i as int));
            assert(all.take(i + 1).last() == all[i as int]);
        }
        let hunk = selected[i].1;
        if !diff::is_dev_null(&hunk.old_file) && !text::holds(&files, &hunk.file) {
            text::push_text(&mut files, &hunk.file);
        }
        i = i + 1;
    }
    assert(all.take(i as int) =~= all);
    files
}

/// Says why there is nothing to absorb, where there are no ancestors to absorb into.
pub fn nothing_to_absorb(ancestors: &Ancestors) -> (r: Option<String>)
    ensures
        r is Some <==> ancestors@.len() == 0,
        r is Some ==> r->0@ == "Nothing to absorb: no mutable ancestors."@,
{
    if ancestors.entries.len() == 0 {
        Some("Nothing to absorb: no mutable ancestors.".to_string())
    } else {
        None
    }
}

/// How absorbing begins.
#[derive(Debug, PartialEq, Eq)]
pub enum FirstStep {
    /// It ends with this message.
    Stop(String),
    /// These files are annotated.
    Annotate(Vec<String>),
}

/// The files that absorbing asks about; none are asked about where there are no ancestors to absorb
/// into.
pub open spec fn files_asked_about(
    selected: Seq<(Seq<char>, HunkView)>,
    ancestors: Seq<(Seq<char>, Seq<char>)>,
) -> Option<Seq<Seq<char>>> {
    if ancestors.len() == 0 {
        None
    } else {
        Some(files_to_annotate(selected))
    }
}

/// Decides how absorbing begins: without ancestors it ends before anything is annotated.
pub fn first_step(selected: &[(&str, &DiffHunk)], ancestors: &Ancestors) -> (r: FirstStep)
    ensures
        match r {
            FirstStep::Stop(message) => files_asked_about(
                selected_views(selected@),
                ancestors@,
            ) is None && message@ == "Nothing to absorb: no mutable ancestors."@,
            FirstStep::Annotate(files) => files_asked_about(selected_views(selected@), ancestors@)
                == Some(text::views(files@)),
        },
{
    match nothing_to_absorb(ancestors) {
        Some(message) => FirstStep::Stop(message),
        None => FirstStep::Annotate(unique_files(selected)),
    }
}

// ---------------------------------------------------------------------------------------------
// Routing
// ---------------------------------------------------------------------------------------------

/// Where a hunk goes, and why.
#[derive(Debug, PartialEq, Eq)]
pub struct HunkRouting {
    pub hunk_id: String,
    pub file: String,
    pub additions: usize,
    pub deletions: usize,
    /// The ancestor that the hunk goes into.
    pub target: Option<String>,
    /// The ancestors that an ambiguous hunk overlaps.
    pub candidates: Vec<String>,
    pub reason: &'static str,
}

/// What a [`HunkRouting`] holds.
#[verifier::ext_equal]
pub struct RoutingView {
    pub hunk_id: Seq<char>,
    pub file: Seq<char>,
    pub additions: nat,
    pub deletions: nat,
    pub target: Option<Seq<char>>,
    pub candidates: Seq<Seq<char>>,
    pub reason: Seq<char>,
}

impl View for HunkRouting {
    type V = RoutingView;

    open spec fn view(&self) -> RoutingView {
        RoutingView {
            hunk_id: self.hunk_id@,
            file: self.file@,
            additions: self.additions as nat,
            deletions: self.deletions as nat,
            target: hunk::optional_view(self.target),
            candidates: text::views(self.candidates@),
            reason: self.reason@,
        }
    }
}

/// Where line number `n` stands in a list of annotations.
pub open spec fn annotation_index(n: nat) -> int {
    if n == 0 {
        0
    } else {
        n - 1
    }
}

/// The mutable ancestors that the removed lines of a body come from, each once, in the order of
/// the lines. `start` is the number of the first line on the old side; lines beyond the
/// annotations come from nowhere.
pub open spec fn hits(
    lines: Seq<Seq<char>>,
    start: nat,
    annotations: Seq<Seq<char>>,
    ancestors: Seq<(Seq<char>, Seq<char>)>,
) -> Seq<Seq<char>>
    decreases lines.len(),
{
    if lines.len() == 0 {
        Seq::empty()
    } else {
        let front = hits(lines.drop_last(), start, annotations, ancestors);
        let at = annotation_index(start + hunk::old_side(lines.drop_last()).len());
        if hunk::is_removed(lines.last()) && at < annotations.len() && jj::is_ancestor(
            ancestors,
            annotations[at],
        ) && !front.contains(annotations[at]) {
            front.push(annotations[at])
        } else {
            front
        }
    }
}

/// The mutable ancestors that a hunk's removed lines come from. A hunk whose `@@` line cannot be
/// read has none.
pub open spec fn hunk_hits(
    hunk: HunkView,
    annotations: Seq<Seq<char>>,
    ancestors: Seq<(Seq<char>, Seq<char>)>,
) -> Seq<Seq<char>> {
    match header::header_starts(hunk.header) {
        Some((old_start, _)) => hits(hunk.lines, old_start, annotations, ancestors),
        None => Seq::empty(),
    }
}

/// The target, the candidates and the reason for a hunk.
pub open spec fn verdict(
    hunk: HunkView,
    facts: FactsView,
    ancestors: Seq<(Seq<char>, Seq<char>)>,
) -> (Option<Seq<char>>, Seq<Seq<char>>, Seq<char>) {
    if diff::dev_null(hunk.old_file) {
        (None, Seq::empty(), "new file"@)
    } else {
        match facts.annotations {
            None => (None, Seq::empty(), "annotation failed"@),
            Some(annotations) => {
                let found = hunk_hits(hunk, annotations, ancestors);
                if found.len() == 1 {
                    (Some(found[0]), Seq::empty(), "matched"@)
                } else if found.len() == 0 {
                    match facts.touched_by {
                        Some(touched_by) if touched_by.len() > 0 => (
                            Some(touched_by[0]),
                            Seq::empty(),
                            "matched (file)"@,
                        ),
                        _ => (None, Seq::empty(), "no overlapping ancestor hunk"@),
                    }
                } else {
                    (None, found, "ambiguous"@)
                }
            },
        }
    }
}

/// Where a hunk goes.
pub open spec fn route(
    id: Seq<char>,
    hunk: HunkView,
    facts: FactsView,
    ancestors: Seq<(Seq<char>, Seq<char>)>,
) -> RoutingView {
    let (target, candidates, reason) = verdict(hunk, facts, ancestors);
    RoutingView {
        hunk_id: id,
        file: hunk.file,
        additions: added_lines(hunk.lines).len(),
        deletions: removed_lines(hunk.lines).len(),
        target,
        candidates,
        reason,
    }
}

/// Counts the lines that a body adds and those that it removes.
pub fn count_changes(lines: &Vec<String>) -> (r: (usize, usize))
    ensures
        r.0 == added_lines(text::views(lines@)).len(),
        r.1 == removed_lines(text::views(lines@)).len(),
{
    let ghost all = text::views(lines@);
    let mut additions: usize = 0;
    let mut deletions: usize = 0;
    let mut i: usize = 0;
    proof {
        reveal(Seq::filter);
    }
    while i < lines.len()
        invariant
            i <= lines@.len(),
            all == text::views(lines@),
            additions <= i,
            deletions <= i,
            additions == added_lines(all.take(i as int)).len(),
            deletions == removed_lines(all.take(i as int)).len(),
        decreases lines@.len() - i,
    {
        proof {
            reveal(Seq::filter);
            assert(all.take(i + 1).drop_last() =~= all.take(i as int));
            assert(all.take(i + 1).last() == all[i as int]);
        }
        if hunk::adds(&lines[i]) {
            additions = additions + 1;
        }
        if hunk::removes(&lines[i]) {
            deletions = deletions + 1;
        }
        i = i + 1;
    }
    assert(all.take(i as int) =~= all);
    (additions, deletions)
}

/// The mutable ancestors that the removed lines of a body come from.
fn collect_hits(
    lines: &Vec<String>,
    start: usize,
    annotations: &Vec<String>,
    ancestors: &Ancestors,
) -> (r: Vec<String>)
    ensures
        text::views(r@) == hits(
            text::views(lines@),
            start as nat,
            text::views(annotations@),
            ancestors@,
        ),
{
    let ghost all = text::views(lines@);
    let mut found: Vec<String> = Vec::new();
    // The number of the current line on the old side, if it can be written down.
    let mut old_line: Option<usize> = Some(start);
    let known: usize = annotations.len();
    let mut i: usize = 0;
    assert(text::views(found@) =~= hits(
        all.take(0),
        start as nat,
        text::views(annotations@),
        ancestors@,
    ));
    while i < lines.len()
        invariant
            i <= lines@.len(),
            all == text::views(lines@),
            known == annotations@.len(),
            text::views(found@) == hits(
                all.take(i as int),
                start as nat,
                text::views(annotations@),
                ancestors@,
            ),
            match old_line {
                Some(n) => n == start + hunk::old_side(all.take(i as int)).len(),
                None => start + hunk::old_side(all.take(i as int)).len() > usize::MAX,
            },
        decreases lines@.len() - i,
    {
        proof {
            assert(all.take(i + 1).drop_last() =~= all.take(i as int));
            assert(all.take(i + 1).last() == all[i as int]);
        }
        if hunk::removes(&lines[i]) {
            if let Some(n) = old_line {
                let at: usize = if n == 0 {
                    0
                } else {
                    n - 1
                };
                if at < known {
                    assert(text::views(annotations@)[at as int] == annotations@[at as int]@);
                    if ancestors.contains(&annotations[at]) && !text::holds(
                        &found,
                        &annotations[at],
                    ) {
                        text::push_text(&mut found, &annotations[at]);
                    }
                }
            }
        }
        if !hunk::adds(&lines[i]) {
            old_line = match old_line {
                Some(n) => n.checked_add(1),
                None => None,
            };
        }
        i = i + 1;
    }
    assert(all.take(i as int) =~= all);
    found
}

/// Finds out where a hunk goes: into the one mutable ancestor that the lines it removes come
/// from; where they come from none, into the most recent one that touched the file; where they
/// come from several, nowhere. A hunk of a new file, or of one whose annotations could not be
/// had, goes nowhere.
pub fn route_hunk(
    id: &str,
    hunk: &DiffHunk,
    annotations: Option<&Vec<String>>,
    touched_by: Option<&Vec<String>>,
    ancestors: &Ancestors,
) -> (r: HunkRouting)
    ensures
        r@ == route(
            id@,
            hunk@,
            (FactsView {
                file: hunk@.file,
                annotations: list_in(annotations),
                touched_by: list_in(touched_by),
            }),
            ancestors@,
        ),
{
    let (additions, deletions) = count_changes(&hunk.lines);
    let mut target: Option<String> = None;
    let mut candidates: Vec<String> = Vec::new();
    let reason: &'static str;
    assert(text::views(candidates@) =~= Seq::empty());
    if diff::is_dev_null(&hunk.old_file) {
        reason = "new file";
    } else {
        match annotations {
            None => {
                reason = "annotation failed";
            },
            Some(annotations) => {
                let found = match header::parse_header_starts(&hunk.header) {
                    Some((old_start, _)) => collect_hits(
                        &hunk.lines,
                        old_start,
                        annotations,
                        ancestors,
                    ),
                    None => Vec::new(),
                };
                assert(text::views(found@) =~= hunk_hits(
                    hunk@,
                    text::views(annotations@),
                    ancestors@,
                ));
                if found.len() == 1 {
                    target = Some(found[0].clone());
                    reason = "matched";
                } else if found.len() == 0 {
                    match touched_by {
                        Some(touched_by) if touched_by.len() > 0 => {
                            target = Some(touched_by[0].clone());
                            reason = "matched (file)";
                        },
                        _ => {
                            reason = "no overlapping ancestor hunk";
                        },
                    }
                } else {
                    candidates = found;
                    reason = "ambiguous";
                }
            },
        }
    }
    HunkRouting {
        hunk_id: id.to_string(),
        file: hunk.file.clone(),
        additions,
        deletions,
        target,
        candidates,
        reason,
    }
}

/// What a borrowed optional list holds.
pub open spec fn list_in(list: Option<&Vec<String>>) -> Option<Seq<Seq<char>>> {
    match list {
        Some(list) => Some(text::views(list@)),
        None => None,
    }
}

/// What routings with the fingerprints of their hunks hold.
pub open spec fn routed_views(routed: Seq<(HunkRouting, HunkFingerprint)>) -> Seq<
    (RoutingView, FingerprintView),
> {
    Seq::new(routed.len(), |i: int| (routed[i].0@, routed[i].1@))
}

/// Where the selected hunks go, with their fingerprints.
pub open spec fn routes(
    selected: Seq<(Seq<char>, HunkView)>,
    facts: Seq<FactsView>,
    ancestors: Seq<(Seq<char>, Seq<char>)>,
) -> Seq<(RoutingView, FingerprintView)> {
    Seq::new(
        selected.len(),
        |i: int|
            {
                let (id, hunk) = selected[i];
                (route(id, hunk, facts_on(facts, hunk.file), ancestors), fingerprint(hunk))
            },
    )
}

/// Finds the facts on a file.
fn find_facts<'a>(facts: &'a Vec<FileFacts>, file: &str) -> (r: Option<&'a FileFacts>)
    ensures
        match r {
            Some(found) => found@ == facts_on(facts_views(facts@), file@),
            None => facts_on(facts_views(facts@), file@) == (FactsView {
                file: file@,
                annotations: None,
                touched_by: None,
            }),
        },
{
    let ghost all = facts_views(facts@);
    let mut i: usize = 0;
    assert(all.skip(0) =~= all);
    while i < facts.len()
        invariant
            i <= facts@.len(),
            all == facts_views(facts@),
            facts_on(all, file@) == facts_on(all.skip(i as int), file@),
        decreases facts@.len() - i,
    {
        proof {
            assert(all.skip(i as int).drop_first() =~= all.skip(i + 1));
            assert(all.skip(i as int)[0] == all[i as int]);
        }
        if text::same_text(&facts[i].file, file) {
            return Some(&facts[i]);
        }
        i = i + 1;
    }
    None
}

/// Finds out where each of the selected hunks goes.
pub fn route_hunks(
    selected: &[(&str, &DiffHunk)],
    facts: &Vec<FileFacts>,
    ancestors: &Ancestors,
) -> (r: Vec<(HunkRouting, HunkFingerprint)>)
    ensures
        routed_views(r@) == routes(
            selected_views(selected@),
            facts_views(facts@),
            ancestors@,
        ),
{
    let ghost expected = routes(selected_views(selected@), facts_views(facts@), ancestors@);
    let mut out: Vec<(HunkRouting, HunkFingerprint)> = Vec::new();
    let mut i: usize = 0;
    while i < selected.len()
        invariant
            i <= selected@.len(),
            expected == routes(selected_views(selected@), facts_views(facts@), ancestors@),
            out@.len() == i,
            forall|j: int|
                0 <= j < i ==> (#[trigger] out@[j]).0@ == expected[j].0 && out@[j].1@
                    == expected[j].1,
        decreases selected@.len() - i,
    {
        let (id, hunk) = selected[i];
        let (annotations, touched_by) = match find_facts(facts, &hunk.file) {
            Some(found) => (found.annotations.as_ref(), found.touched_by.as_ref()),
            None => (None, None),
        };
        let routing = route_hunk(id, hunk, annotations, touched_by, ancestors);
        assert(expected[i as int].0 == routing@);
        out.push((routing, HunkFingerprint::from_hunk(hunk)));
        i = i + 1;
    }
    assert(routed_views(out@) =~= expected);
    out
}

} // verus!
