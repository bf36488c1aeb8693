//! Going through the routed hunks one by one: what each answer decides, and what is shown.
use crate::hunk;
use crate::hunk::{DiffHunk, HunkView};
use crate::jj;
use crate::jj::Ancestors;
use crate::route;
use crate::route::{FingerprintView, HunkFingerprint, HunkRouting, RoutingView};
use crate::terminal;
use crate::text;
use vstd::prelude::*;

verus! {

// ---------------------------------------------------------------------------------------------
// Decisions
// ---------------------------------------------------------------------------------------------

/// A review of routed hunks.
#[derive(Debug, PartialEq, Eq)]
pub struct Review {
    /// The hunks, with where they go and their fingerprints.
    pub routed: Vec<(HunkRouting, HunkFingerprint)>,
    /// The hunk to decide on; as many as there are, where all are decided.
    pub at: usize,
    /// Nothing more is absorbed.
    pub quit: bool,
    /// The file whose hunks are skipped without asking.
    pub skip_file: Option<String>,
    /// The file whose hunks go where they are routed, without asking.
    pub absorb_file: Option<String>,
}

/// What a [`Review`] holds.
#[verifier::ext_equal]
pub struct ReviewView {
    pub routed: Seq<(RoutingView, FingerprintView)>,
    pub at: nat,
    pub quit: bool,
    pub skip_file: Option<Seq<char>>,
    pub absorb_file: Option<Seq<char>>,
}

impl View for Review {
    type V = ReviewView;

    open spec fn view(&self) -> ReviewView {
        ReviewView {
            routed: route::routed_views(self.routed@),
            at: self.at as nat,
            quit: self.quit,
            skip_file: hunk::optional_view(self.skip_file),
            absorb_file: hunk::optional_view(self.absorb_file),
        }
    }
}

/// What an answer leads to.
#[derive(Debug, Clone, Copy, PartialEq, Eq)]
pub enum Answer {
    /// The hunk is decided.
    Next,
    /// The question is asked again, behind this message if it is not empty.
    Again(&'static str),
    /// A target is to be picked from the list of the ancestors.
    PickTarget,
}

/// What an [`Answer`] holds.
pub enum AnswerView {
    Next,
    Again(Seq<char>),
    PickTarget,
}

impl View for Answer {
    type V = AnswerView;

    open spec fn view(&self) -> AnswerView {
        match self {
            Answer::Next => AnswerView::Next,
            Answer::Again(message) => AnswerView::Again(message@),
            Answer::PickTarget => AnswerView::PickTarget,
        }
    }
}

impl ReviewView {
    /// The routing to decide on.
    pub open spec fn current(self) -> RoutingView {
        self.routed[self.at as int].0
    }

    /// All hunks are decided.
    pub open spec fn done(self) -> bool {
        self.at >= self.routed.len()
    }

    /// The current hunk goes into `target`, for this reason, and the next one is up.
    pub open spec fn decided(self, target: Option<Seq<char>>, reason: Seq<char>) -> ReviewView {
        let (routing, fingerprint) = self.routed[self.at as int];
        ReviewView {
            routed: self.routed.update(
                self.at as int,
                (RoutingView { target, reason, ..routing }, fingerprint),
            ),
            at: self.at + 1,
            ..self
        }
    }

    /// The current hunk goes where it is routed, and the next one is up.
    pub open spec fn kept(self) -> ReviewView {
        ReviewView { at: self.at + 1, ..self }
    }

    /// Decides on hunks as long as nothing needs to be asked: all of them after quitting, and
    /// those of the file that is skipped or absorbed as a whole.
    pub open spec fn settled(self) -> ReviewView
        decreases self.routed.len() - self.at,
    {
        if self.done() {
            self
        } else if self.quit {
            self.decided(None, "skipped (quit)"@).settled()
        } else if self.skip_file == Some(self.current().file) {
            self.decided(None, "skipped (file)"@).settled()
        } else if self.absorb_file == Some(self.current().file) {
            ReviewView { skip_file: None, ..self.kept() }.settled()
        } else {
            ReviewView { skip_file: None, absorb_file: None, ..self }
        }
    }

    /// What a key does; none stands for the end of the input.
    pub open spec fn after_key(self, key: Option<char>) -> (ReviewView, AnswerView) {
        let file = self.current().file;
        match key {
            Some('a') | Some('A') => if self.current().target is None {
                (
                    self,
                    AnswerView::Again("No target set. Use [t] to pick a target first."@),
                )
            } else if key == Some('a') {
                (self.kept().settled(), AnswerView::Next)
            } else {
                (ReviewView { absorb_file: Some(file), ..self.kept() }.settled(), AnswerView::Next)
            },
            Some('s') => (self.decided(None, "skipped"@).settled(), AnswerView::Next),
            Some('S') => (
                ReviewView {
                    skip_file: Some(file),
                    ..self.decided(None, "skipped (file)"@)
                }.settled(),
                AnswerView::Next,
            ),
            Some('t') | Some('T') => (self, AnswerView::PickTarget),
            Some('q') | Some('Q') | None => (
                ReviewView { quit: true, ..self.decided(None, "skipped (quit)"@) }.settled(),
                AnswerView::Next,
            ),
            Some('\n') | Some('\r') | Some(' ') => (self, AnswerView::Again(Seq::empty())),
            Some(_) => (self, AnswerView::Again("Unknown action. Use a/A/s/S/t/q."@)),
        }
    }

    /// What a line with the number of an ancestor does.
    pub open spec fn after_number(
        self,
        line: Seq<char>,
        ancestors: Seq<(Seq<char>, Seq<char>)>,
    ) -> ReviewView {
        match picked(line, ancestors) {
            Some(target) => self.decided(Some(target), "retargeted"@).settled(),
            None => self,
        }
    }
}

/// The ancestor that a line with a number picks.
pub open spec fn picked(
    line: Seq<char>,
    ancestors: Seq<(Seq<char>, Seq<char>)>,
) -> Option<Seq<char>> {
    let ids = jj::ancestor_ids(ancestors);
    match text::number(text::trim(line)) {
        Some(n) => if 1 <= n <= ids.len() {
            Some(ids[n - 1])
        } else {
            None
        },
        None => None,
    }
}

/// What is said of a line with the number of an ancestor.
pub open spec fn picked_text(
    line: Seq<char>,
    ancestors: Seq<(Seq<char>, Seq<char>)>,
) -> Seq<char> {
    match picked(line, ancestors) {
        Some(target) => "→ Retargeted to "@ + described(ancestors, target),
        None => "Invalid selection."@,
    }
}

/// Whether an optional text is this one.
fn is_text(optional: &Option<String>, wanted: &str) -> (r: bool)
    ensures
        r == (hunk::optional_view(*optional) == Some(wanted@)),
{
    match optional {
        Some(held) => text::same_text(held, wanted),
        None => false,
    }
}

impl Review {
    /// Starts a review.
    pub fn new(routed: Vec<(HunkRouting, HunkFingerprint)>) -> (r: Self)
        ensures
            r@ == (ReviewView {
                routed: route::routed_views(routed@),
                at: 0,
                quit: false,
                skip_file: None,
                absorb_file: None,
            }).settled(),
    {
        let mut review = Review {
            routed,
            at: 0,
            quit: false,
            skip_file: None,
            absorb_file: None,
        };
        review.settle();
        review
    }

    /// Whether all hunks are decided.
    pub fn is_done(&self) -> (r: bool)
        ensures
            r == self@.done(),
    {
        self.at >= self.routed.len()
    }

    /// The current hunk goes into `target`, for this reason, and the next one is up.
    fn decide(&mut self, target: Option<String>, reason: &'static str)
        requires
            !old(self)@.done(),
        ensures
            final(self)@ == old(self)@.decided(hunk::optional_view(target), reason@),
    {
        let at: usize = self.at;
        let count: usize = self.routed.len();
        assert(at < count);
        self.routed[at].0.target = target;
        self.routed[at].0.reason = reason;
        self.at = at + 1;
        assert(self@.routed =~= old(self)@.decided(hunk::optional_view(target), reason@).routed);
    }

    /// Decides on hunks as long as nothing needs to be asked.
    fn settle(&mut self)
        ensures
            final(self)@ == old(self)@.settled(),
    {
        while self.at < self.routed.len()
            invariant
                self@.settled() == old(self)@.settled(),
            decreases self.routed@.len() - self.at,
        {
            if self.quit {
                self.decide(None, "skipped (quit)");
            } else if is_text(&self.skip_file, &self.routed[self.at].0.file) {
                self.decide(None, "skipped (file)");
            } else if is_text(&self.absorb_file, &self.routed[self.at].0.file) {
                self.skip_file = None;
                self.at = self.at + 1;
            } else {
                self.skip_file = None;
                self.absorb_file = None;
                return ;
            }
        }
    }

    /// Takes a key; none stands for the end of the input.
    pub fn on_key(&mut self, key: Option<char>) -> (r: Answer)
        requires
            !old(self)@.done(),
        ensures
            (final(self)@, r@) == old(self)@.after_key(key),
    {
        let file = self.routed[self.at].0.file.clone();
        let count: usize = self.routed.len();
        assert(self.at < count);
        match key {
            Some('a') | Some('A') => {
                if self.routed[self.at].0.target.is_none() {
                    return Answer::Again("No target set. Use [t] to pick a target first.");
                }
                if key == Some('A') {
                    self.absorb_file = Some(file);
                }
                self.at = self.at + 1;
                self.settle();
                Answer::Next
            },
            Some('s') => {
                self.decide(None, "skipped");
                self.settle();
                Answer::Next
            },
            Some('S') => {
                self.decide(None, "skipped (file)");
                self.skip_file = Some(file);
                self.settle();
                Answer::Next
            },
            Some('t') | Some('T') => Answer::PickTarget,
            Some('q') | Some('Q') | None => {
                self.decide(None, "skipped (quit)");
                self.quit = true;
                self.settle();
                Answer::Next
            },
            Some('\n') | Some('\r') | Some(' ') => {
                proof {
                    reveal_strlit("");
                    assert(""@ =~= Seq::empty());
                }
                Answer::Again("")
            },
            Some(_) => Answer::Again("Unknown action. Use a/A/s/S/t/q."),
        }
    }

    /// Takes a line with the number of an ancestor. Returns whether it picked one, and what is to
    /// be said of it.
    pub fn on_number(&mut self, line: &str, ancestors: &Ancestors) -> (r: (bool, String))
        requires
            !old(self)@.done(),
        ensures
            final(self)@ == old(self)@.after_number(line@, ancestors@),
            r.0 == (picked(line@, ancestors@) is Some),
            r.1@ == picked_text(line@, ancestors@),
    {
        let ids = ancestors.ids();
        let ghost all = jj::ancestor_ids(ancestors@);
        if let Some(n) = text::parse_usize(text::trimmed(line)) {
            if n >= 1 && n <= ids.len() {
                let target = ids[n - 1].clone();
                assert(all[n - 1] == target@);
                let mut message = "→ Retargeted to ".to_string();
                message.append(&describe(ancestors, &target));
                self.decide(Some(target), "retargeted");
                self.settle();
                return (true, message);
            }
        }
        (false, "Invalid selection.".to_string())
    }
}

// ---------------------------------------------------------------------------------------------
// What is shown
// ---------------------------------------------------------------------------------------------

/// The first of the selected hunks with this id.
pub open spec fn hunk_with_id(
    selected: Seq<(Seq<char>, HunkView)>,
    id: Seq<char>,
) -> Option<HunkView>
    decreases selected.len(),
{
    if selected.len() == 0 {
        None
    } else if selected[0].0 == id {
        Some(selected[0].1)
    } else {
        hunk_with_id(selected.drop_first(), id)
    }
}

/// Finds the first of the selected hunks with this id.
pub fn find_hunk<'a>(selected: &[(&str, &'a DiffHunk)], id: &str) -> (r: Option<&'a DiffHunk>)
    ensures
        (match r {
            Some(found) => Some(found@),
            None => None,
        }) == hunk_with_id(route::selected_views(selected@), id@),
{
    let ghost all = route::selected_views(selected@);
    let mut i: usize = 0;
    assert(all.skip(0) =~= all);
    while i < selected.len()
        invariant
            i <= selected@.len(),
            all == route::selected_views(selected@),
            hunk_with_id(all, id@) == hunk_with_id(all.skip(i as int), id@),
        decreases selected@.len() - i,
    {
        proof {
            assert(all.skip(i as int).drop_first() =~= all.skip(i + 1));
            assert(all.skip(i as int)[0] == all[i as int]);
        }
        if text::same_text(selected[i].0, id) {
            return Some(selected[i].1);
        }
        i = i + 1;
    }
    None
}

/// A change id, with the description of the change where it has one.
pub open spec fn described(
    ancestors: Seq<(Seq<char>, Seq<char>)>,
    id: Seq<char>,
) -> Seq<char> {
    let description = jj::description(ancestors, id);
    if description.len() == 0 {
        id
    } else {
        id + " ("@ + description + ")"@
    }
}

/// A change id, with the description of the change where it has one.
pub fn describe(ancestors: &Ancestors, id: &str) -> (r: String)
    ensures
        r@ == described(ancestors@, id@),
{
    let description = ancestors.description(id);
    let mut out = id.to_string();
    if !description.as_str().is_empty() {
        out.append(" (");
        out.append(&description);
        out.append(")");
    }
    out
}

/// Changes with their descriptions, with commas between them.
pub open spec fn described_list(
    ancestors: Seq<(Seq<char>, Seq<char>)>,
    ids: Seq<Seq<char>>,
) -> Seq<char>
    decreases ids.len(),
{
    if ids.len() == 0 {
        Seq::empty()
    } else if ids.len() == 1 {
        described(ancestors, ids[0])
    } else {
        described_list(ancestors, ids.drop_last()) + ", "@ + described(ancestors, ids.last())
    }
}

/// Changes with their descriptions, with commas between them.
pub fn describe_list(ancestors: &Ancestors, ids: &Vec<String>) -> (r: String)
    ensures
        r@ == described_list(ancestors@, text::views(ids@)),
{
    let ghost all = text::views(ids@);
    let mut out = String::new();
    let mut i: usize = 0;
    assert(out@ =~= described_list(ancestors@, all.take(0)));
    while i < ids.len()
        invariant
            i <= ids@.len(),
            all == text::views(ids@),
            out@ == described_list(ancestors@, all.take(i as int)),
        decreases ids@.len() - i,
    {
        proof {
            assert(all.take(i + 1).drop_last() =~= all.take(i as int));
            assert(all.take(i + 1).last() == all[i as int]);
        }
        let ghost front = out@;
        if i > 0 {
            out.append(", ");
        }
        out.append(&describe(ancestors, &ids[i]));
        assert(out@ =~= described_list(ancestors@, all.take(i + 1)));
        i = i + 1;
    }
    assert(all.take(i as int) =~= all);
    out
}

/// What is said of where a hunk goes.
pub open spec fn target_text(
    routing: RoutingView,
    ancestors: Seq<(Seq<char>, Seq<char>)>,
) -> Seq<char> {
    match routing.target {
        Some(target) => "Target: "@ + described(ancestors, target),
        None => if routing.reason == "ambiguous"@ {
            "Ambiguous: "@ + described_list(ancestors, routing.candidates)
        } else {
            "Unmatched: "@ + routing.reason
        },
    }
}

/// What is said of where a hunk goes.
pub fn target_line(routing: &HunkRouting, ancestors: &Ancestors) -> (r: String)
    ensures
        r@ == target_text(routing@, ancestors@),
{
    match &routing.target {
        Some(target) => {
            let mut out = "Target: ".to_string();
            out.append(&describe(ancestors, target));
            out
        },
        None => if text::same_text(routing.reason, "ambiguous") {
            let mut out = "Ambiguous: ".to_string();
            out.append(&describe_list(ancestors, &routing.candidates));
            out
        } else {
            let mut out = "Unmatched: ".to_string();
            out.append(routing.reason);
            out
        },
    }
}

/// The rows of the list that a target is picked from.
pub open spec fn menu_rows(
    ancestors: Seq<(Seq<char>, Seq<char>)>,
    ids: Seq<Seq<char>>,
) -> Seq<char>
    decreases ids.len(),
{
    if ids.len() == 0 {
        Seq::empty()
    } else {
        menu_rows(ancestors, ids.drop_last()) + "  "@ + text::decimal(ids.len()) + ": "@
            + described(ancestors, ids.last()) + "\n"@
    }
}

/// The list that a target is picked from: a numbered row for each ancestor.
pub fn target_menu(ancestors: &Ancestors) -> (r: String)
    ensures
        r@ == "Select target:\n"@ + menu_rows(ancestors@, jj::ancestor_ids(ancestors@)),
{
    let ids = ancestors.ids();
    let ghost all = text::views(ids@);
    let count: usize = ids.len();
    let mut out = "Select target:\n".to_string();
    let mut i: usize = 0;
    assert(out@ =~= "Select target:\n"@ + menu_rows(ancestors@, all.take(0)));
    while i < count
        invariant
            i <= count == ids@.len(),
            all == text::views(ids@),
            out@ == "Select target:\n"@ + menu_rows(ancestors@, all.take(i as int)),
        decreases count - i,
    {
        proof {
            assert(all.take(i + 1).drop_last() =~= all.take(i as int));
            assert(all.take(i + 1).last() == all[i as int]);
        }
        out.append("  ");
        out.append(&text::decimal_text(i + 1));
        out.append(": ");
        out.append(&describe(ancestors, &ids[i]));
        out.append("\n");
        assert(out@ =~= "Select target:\n"@ + menu_rows(ancestors@, all.take(i + 1)));
        i = i + 1;
    }
    assert(all.take(i as int) =~= all);
    out
}

/// The heading above a hunk.
pub open spec fn heading_text(
    id: Seq<char>,
    file: Seq<char>,
    additions: nat,
    deletions: nat,
) -> Seq<char> {
    "\n"@ + id + " "@ + file + " (+"@ + text::decimal(additions) + " -"@ + text::decimal(deletions)
        + ")\n"@
}

/// The heading above a hunk, with its id and its path as they are shown.
pub fn format_heading(id: &str, file: &str, additions: usize, deletions: usize) -> (r: String)
    ensures
        r@ == heading_text(id@, file@, additions as nat, deletions as nat),
{
    let mut out = "\n".to_string();
    out.append(id);
    out.append(" ");
    out.append(file);
    out.append(" (+");
    out.append(&text::decimal_text(additions));
    out.append(" -");
    out.append(&text::decimal_text(deletions));
    out.append(")\n");
    out
}

/// The heading above a hunk, with its id and its path in bold or not.
pub open spec fn shown_heading(r: RoutingView, bold: bool) -> Seq<char> {
    heading_text(
        terminal::painted(r.hunk_id, terminal::bold_code(), bold),
        terminal::painted(r.file, terminal::bold_code(), bold),
        r.additions,
        r.deletions,
    )
}

/// The heading above a hunk, with its id and its path in bold or not.
pub fn heading_in(routing: &HunkRouting, bold: bool) -> (r: String)
    ensures
        r@ == shown_heading(routing@, bold),
{
    let id = terminal::bold(&routing.hunk_id, bold);
    let file = terminal::bold(&routing.file, bold);
    format_heading(&id, &file, routing.additions, routing.deletions)
}

/// The heading above a hunk. With `styled` its id and its path are bold where styles are on, which
/// the terminal and the environment decide.
pub fn heading(routing: &HunkRouting, styled: bool) -> (r: String)
    ensures
        exists|bold: bool| (bold ==> styled) && r@ == #[trigger] shown_heading(routing@, bold),
{
    heading_in(routing, styled && terminal::styles_are_on())
}

/// The question that is asked of each hunk.
pub open spec fn question() -> Seq<char> {
    "[a]bsorb / [A]bsorb file / [s]kip / [S]kip file / [t]arget / [q]uit: "@
}

/// The question that is asked of each hunk.
pub fn prompt() -> (r: &'static str)
    ensures
        r@ == question(),
{
    "[a]bsorb / [A]bsorb file / [s]kip / [S]kip file / [t]arget / [q]uit: "
}

} // verus!
