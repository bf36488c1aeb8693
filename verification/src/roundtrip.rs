//! Reading back what was written: diffs, patches and `@@` lines.
use crate::diff;
use crate::diff::ReaderView;
use crate::header;
use crate::hunk;
use crate::hunk::HunkView;
use crate::surgeon;
use crate::text;
use vstd::prelude::*;

verus! {

// ---------------------------------------------------------------------------------------------
// Line ends
// ---------------------------------------------------------------------------------------------

/// With its carriage returns protected, a text is read into lines that lack nothing but their
/// line feeds.
pub proof fn law_protected_lines(raw: Seq<char>)
    ensures
        text::lines(text::replaced(raw, "\r\n"@, "\r\r\n"@)) == text::raw_lines(raw),
    decreases raw.len(),
{
    reveal_strlit("\r\n");
    reveal_strlit("\r\r\n");
    let from = "\r\n"@;
    let to = "\r\r\n"@;
    let done = text::replaced(raw, from, to);
    text::lemma_first_line(raw);
    match text::find(raw, seq!['\n']) {
        None => {
            assert forall|j: int| 0 <= j <= raw.len() implies !#[trigger] text::occurs_at(
                raw,
                from,
                j,
            ) by {
                text::lemma_occurs_chars(raw, from, j);
                if text::occurs_at(raw, from, j) {
                    assert(raw[j + 1] == from[1]);
                }
            }
            text::lemma_find_none(raw, from);
        },
        Some(i) => {
            let line = raw.take(i);
            let rest = raw.skip(i + 1);
            law_protected_lines(rest);
            let more = text::replaced(rest, from, to);
            assert forall|j: int| 0 <= j < i && j + 1 != i implies !#[trigger] text::occurs_at(
                raw,
                from,
                j,
            ) by {
                text::lemma_occurs_chars(raw, from, j);
                if text::occurs_at(raw, from, j) {
                    assert(raw[j + 1] == from[1]);
                    assert(raw[j + 1] == line[j + 1]);
                }
            }
            if i > 0 && line.last() == '\r' {
                text::lemma_occurs_chars(raw, from, i - 1);
                assert(raw[i - 1] == line.last() && raw[i] == '\n');
                assert(text::occurs_at(raw, from, i - 1)) by {
                    assert(raw.subrange(i - 1, i + 1) =~= from);
                }
                text::lemma_find_is(raw, from, i - 1);
                assert(raw.skip(i - 1 + 2) =~= rest);
                assert(done =~= line.push('\r') + seq!['\n'] + more) by {
                    assert(raw.take(i - 1) + to =~= line.push('\r') + seq!['\n']);
                }
                assert(text::one_line(line.push('\r')));
                text::lemma_line_end(line.push('\r'), more);
                assert(text::strip_cr(line.push('\r')) =~= line);
            } else {
                let front = line.push('\n');
                assert(raw =~= front + rest);
                assert forall|j: int| 0 <= j < front.len() implies !#[trigger] text::occurs_at(
                    front + rest,
                    from,
                    j,
                ) by {
                    text::lemma_occurs_chars(raw, from, j);
                    if text::occurs_at(raw, from, j) {
                        assert(raw[j + 0] == from[0] && raw[j + 1] == from[1]);
                        if j + 1 == i {
                            assert(line.last() == raw[j]);
                        }
                    }
                }
                text::lemma_replaced_behind(front, rest, from, to);
                assert(done =~= line + seq!['\n'] + more);
                text::lemma_line_end(line, more);
                assert(text::strip_cr(line) == line);
            }
        },
    }
}

/// A diff of a file with carriage returns is read without losing any: its hunks are those of its
/// lines as they stand in the diff.
pub proof fn law_carriage_returns_survive(raw: Seq<char>)
    ensures
        diff::hunks_of(text::replaced(raw, "\r\n"@, "\r\r\n"@)) == diff::hunks_of_lines(
            text::raw_lines(raw),
        ),
{
    law_protected_lines(raw);
}

/// Lines that were joined are read back.
pub proof fn law_joined_lines(lines: Seq<Seq<char>>)
    requires
        forall|i: int| 0 <= i < lines.len() ==> text::one_line(#[trigger] lines[i]),
    ensures
        text::raw_lines(surgeon::joined(lines)) == lines,
    decreases lines.len(),
{
    if lines.len() > 0 {
        let first = lines[0];
        let rest = lines.drop_first();
        lemma_joined_front(lines);
        assert forall|i: int| 0 <= i < rest.len() implies text::one_line(#[trigger] rest[i]) by {
            assert(rest[i] == lines[i + 1]);
        }
        law_joined_lines(rest);
        text::lemma_line_end(first, surgeon::joined(rest));
        assert(seq![first] + rest =~= lines);
    } else {
        assert(text::raw_lines(surgeon::joined(lines)) =~= lines);
    }
}

/// The first of joined lines stands in front.
pub(crate) proof fn lemma_joined_front(lines: Seq<Seq<char>>)
    requires
        lines.len() > 0,
    ensures
        surgeon::joined(lines) == lines[0] + seq!['\n'] + surgeon::joined(lines.drop_first()),
    decreases lines.len(),
{
    if lines.len() == 1 {
        assert(lines.drop_last() =~= Seq::empty());
        assert(lines.drop_first() =~= Seq::empty());
        assert(surgeon::joined(Seq::<Seq<char>>::empty()) == Seq::<char>::empty());
        assert(surgeon::joined(lines) =~= lines[0] + seq!['\n'] + Seq::<char>::empty());
    } else {
        lemma_joined_front(lines.drop_last());
        assert(lines.drop_last().drop_first() =~= lines.drop_first().drop_last());
        let middle = surgeon::joined(lines.drop_first().drop_last());
        assert(lines[0] + seq!['\n'] + middle + lines.last() + seq!['\n'] =~= lines[0] + seq!['\n']
            + (middle + lines.last() + seq!['\n']));
    }
}

/// Joining two runs of lines joins the texts.
pub(crate) proof fn lemma_joined_add(a: Seq<Seq<char>>, b: Seq<Seq<char>>)
    ensures
        surgeon::joined(a + b) == surgeon::joined(a) + surgeon::joined(b),
    decreases b.len(),
{
    if b.len() == 0 {
        assert(a + b =~= a);
        assert(surgeon::joined(a) + surgeon::joined(b) =~= surgeon::joined(a));
    } else {
        lemma_joined_add(a, b.drop_last());
        assert((a + b).drop_last() =~= a + b.drop_last());
        assert(surgeon::joined(a) + surgeon::joined(b.drop_last()) + b.last() + seq!['\n']
            =~= surgeon::joined(a) + (surgeon::joined(b.drop_last()) + b.last() + seq!['\n']));
    }
}

// ---------------------------------------------------------------------------------------------
// Hunks
// ---------------------------------------------------------------------------------------------

/// Reading on after reading.
pub(crate) proof fn lemma_with_lines_add(state: ReaderView, a: Seq<Seq<char>>, b: Seq<Seq<char>>)
    ensures
        state.with_lines(a + b) == state.with_lines(a).with_lines(b),
    decreases b.len(),
{
    if b.len() == 0 {
        assert(a + b =~= a);
    } else {
        assert((a + b).drop_last() =~= a + b.drop_last());
        lemma_with_lines_add(state, a, b.drop_last());
    }
}

/// A line that neither starts a file or a hunk nor belongs to a preamble.
pub open spec fn is_trailer(line: Seq<char>) -> bool {
    &&& !text::starts_with(line, "diff --git"@)
    &&& !text::starts_with(line, "--- "@)
    &&& !text::starts_with(line, "+++ "@)
    &&& !text::starts_with(line, "@@ "@)
    &&& diff::unsupported_preamble(line) is None
}

/// How many of the announced body lines are still to come behind these.
pub open spec fn left_after(old: nat, new: nat, body: Seq<Seq<char>>) -> (nat, nat)
    decreases body.len(),
{
    if body.len() == 0 {
        (old, new)
    } else {
        let (o, n) = left_after(old, new, body.drop_last());
        let line = body.last();
        if o == 0 && n == 0 {
            (0, 0)
        } else {
            let marker = hunk::mark_of(line) == Some('\\');
            (
                diff::less_one_if(o, !(hunk::is_added(line) || marker)),
                diff::less_one_if(n, !(hunk::is_removed(line) || marker)),
            )
        }
    }
}

/// A `@@` line with a body that it announces: whatever the lines look like as long as announced
/// ones are to come, and trailers behind them.
pub open spec fn is_body_of(line: Seq<char>, body: Seq<Seq<char>>) -> bool {
    let (old, new) = header::header_counts(line);
    forall|i: int|
        0 <= i < body.len() && left_after(old, new, #[trigger] body.take(i)) == (0nat, 0nat)
            ==> is_trailer(body[i])
}

/// No announced line is missing from the body.
pub open spec fn is_complete(line: Seq<char>, body: Seq<Seq<char>>) -> bool {
    let (old, new) = header::header_counts(line);
    left_after(old, new, body) == (0nat, 0nat)
}

/// A line that begins with `prefix` begins with its first character.
pub(crate) proof fn lemma_first_char(line: Seq<char>, prefix: Seq<char>)
    requires
        text::starts_with(line, prefix),
        prefix.len() > 0,
    ensures
        line.len() > 0,
        line[0] == prefix[0],
{
    text::lemma_occurs_chars(line, prefix, 0);
    let k: int = 0;
    assert(line[0 + k] == prefix[k]);
}

/// Preamble lines begin with one of a few letters.
pub(crate) proof fn lemma_preamble_start(line: Seq<char>)
    requires
        text::starts_with(line, "diff --git"@) || diff::unsupported_preamble(line) is Some,
    ensures
        line.len() > 0,
        'c' <= line[0] <= 's',
{
    reveal_strlit("diff --git");
    reveal_strlit("rename from ");
    reveal_strlit("rename to ");
    reveal_strlit("copy from ");
    reveal_strlit("copy to ");
    reveal_strlit("old mode ");
    reveal_strlit("new mode ");
    reveal_strlit("similarity index ");
    reveal_strlit("dissimilarity index ");
    if text::starts_with(line, "diff --git"@) {
        lemma_first_char(line, "diff --git"@);
    } else if text::starts_with(line, "rename from "@) {
        lemma_first_char(line, "rename from "@);
    } else if text::starts_with(line, "rename to "@) {
        lemma_first_char(line, "rename to "@);
    } else if text::starts_with(line, "copy from "@) {
        lemma_first_char(line, "copy from "@);
    } else if text::starts_with(line, "copy to "@) {
        lemma_first_char(line, "copy to "@);
    } else if text::starts_with(line, "old mode "@) {
        lemma_first_char(line, "old mode "@);
    } else if text::starts_with(line, "new mode "@) {
        lemma_first_char(line, "new mode "@);
    } else if text::starts_with(line, "similarity index "@) {
        lemma_first_char(line, "similarity index "@);
    } else {
        lemma_first_char(line, "dissimilarity index "@);
    }
}

/// A line that begins with no letter belongs to no preamble.
pub(crate) proof fn lemma_no_preamble(line: Seq<char>)
    requires
        line.len() > 0,
        line[0] == '@' || line[0] == '-' || line[0] == '+' || line[0] == '\\',
    ensures
        !text::starts_with(line, "diff --git"@),
        diff::unsupported_preamble(line) is None,
{
    if text::starts_with(line, "diff --git"@) || diff::unsupported_preamble(line) is Some {
        lemma_preamble_start(line);
    }
}

/// Path lines and `@@` lines differ in their first character.
pub(crate) proof fn lemma_markers(line: Seq<char>)
    ensures
        text::starts_with(line, "--- "@) ==> line.len() > 0 && line[0] == '-' && !text::starts_with(
            line,
            "+++ "@,
        ) && !text::starts_with(line, "@@ "@),
        text::starts_with(line, "+++ "@) ==> line.len() > 0 && line[0] == '+' && !text::starts_with(
            line,
            "--- "@,
        ) && !text::starts_with(line, "@@ "@),
        text::starts_with(line, "@@ "@) ==> line.len() > 0 && line[0] == '@' && !text::starts_with(
            line,
            "--- "@,
        ) && !text::starts_with(line, "+++ "@),
{
    reveal_strlit("--- ");
    reveal_strlit("+++ ");
    reveal_strlit("@@ ");
    if text::starts_with(line, "--- "@) {
        lemma_first_char(line, "--- "@);
    }
    if text::starts_with(line, "+++ "@) {
        lemma_first_char(line, "+++ "@);
    }
    if text::starts_with(line, "@@ "@) {
        lemma_first_char(line, "@@ "@);
    }
}

/// Behind its `@@` line, a body is collected line by line.
proof fn lemma_read_body(state: ReaderView, line: Seq<char>, body: Seq<Seq<char>>)
    requires
        state.header == Some(line),
        state.lines.len() == 0,
        (state.old_left, state.new_left) == header::header_counts(line),
        is_body_of(line, body),
    ensures
        ({
            let (old_left, new_left) = left_after(state.old_left, state.new_left, body);
            state.with_lines(body) == (ReaderView { lines: body, old_left, new_left, ..state })
        }),
    decreases body.len(),
{
    reveal(ReaderView::with_line);
    if body.len() == 0 {
        assert(state.lines =~= body);
    } else {
        let front = body.drop_last();
        let last = body.last();
        assert forall|i: int|
            0 <= i < front.len() && left_after(
                state.old_left,
                state.new_left,
                #[trigger] front.take(i),
            ) == (0nat, 0nat) implies is_trailer(front[i]) by {
            assert(front.take(i) =~= body.take(i));
        }
        lemma_read_body(state, line, front);
        let so_far = state.with_lines(front);
        assert(body.take(body.len() - 1) =~= front);
        assert(front.push(last) =~= body);
        if !so_far.in_body() {
            assert(is_trailer(body[body.len() - 1]));
        }
        assert(so_far.with_line(last) =~= (ReaderView {
            lines: body,
            old_left: left_after(state.old_left, state.new_left, body).0,
            new_left: left_after(state.old_left, state.new_left, body).1,
            ..state
        }));
    }
}

/// Between hunks: no announced line is missing, and lines are collected for a hunk only.
pub open spec fn at_boundary(state: ReaderView) -> bool {
    &&& !state.in_body()
    &&& state.header is None ==> state.lines.len() == 0
}

/// A `@@` line with its body, read outside a body, completes the hunk before it and is the hunk
/// being collected.
pub(crate) proof fn lemma_read_hunk(state: ReaderView, line: Seq<char>, body: Seq<Seq<char>>)
    requires
        at_boundary(state),
        text::starts_with(line, "@@ "@),
        is_body_of(line, body),
    ensures
        ({
            let (old, new) = header::header_counts(line);
            let (old_left, new_left) = left_after(old, new, body);
            state.with_lines(seq![line] + body) == (ReaderView {
                header: Some(line),
                lines: body,
                old_left,
                new_left,
                ..state.flushed()
            })
        }),
{
    reveal(ReaderView::with_line);
    lemma_markers(line);
    lemma_no_preamble(line);
    let first = seq![line];
    assert(first.drop_last() =~= Seq::empty());
    assert(state.with_lines(first) == state.with_lines(first.drop_last()).with_line(line));
    lemma_with_lines_add(state, first, body);
    let started = state.with_line(line);
    assert(state.with_preamble(line) =~= state);
    assert(state.with_lines(Seq::empty()) == state);
    let (old_left, new_left) = header::header_counts(line);
    assert(started =~= (ReaderView {
        header: Some(line),
        lines: Seq::empty(),
        old_left,
        new_left,
        ..state.flushed()
    }));
    lemma_read_body(started, line, body);
}

// ---------------------------------------------------------------------------------------------
// Diffs
// ---------------------------------------------------------------------------------------------

/// What a diff says of one file.
pub struct FileDiff {
    /// The lines in front of the path lines, from `diff --git` on; a plain unified diff has none.
    pub preamble: Seq<Seq<char>>,
    /// The `---` and the `+++` line, where there are hunks.
    pub paths: Option<(Seq<char>, Seq<char>)>,
    /// The `@@` line and the body of each hunk.
    pub hunks: Seq<(Seq<char>, Seq<Seq<char>>)>,
}

/// The lines of hunks.
pub open spec fn hunk_lines(hunks: Seq<(Seq<char>, Seq<Seq<char>>)>) -> Seq<Seq<char>>
    decreases hunks.len(),
{
    if hunks.len() == 0 {
        Seq::empty()
    } else {
        hunk_lines(hunks.drop_last()) + (seq![hunks.last().0] + hunks.last().1)
    }
}

/// The first thing in a preamble that a text patch cannot carry.
pub open spec fn first_unsupported(preamble: Seq<Seq<char>>) -> Option<Seq<char>>
    decreases preamble.len(),
{
    if preamble.len() == 0 {
        None
    } else {
        match first_unsupported(preamble.drop_last()) {
            Some(found) => Some(found),
            None => diff::unsupported_preamble(preamble.last()),
        }
    }
}

/// A hunk with these path lines, this `@@` line, this body, and this in its preamble.
pub open spec fn hunk_with(
    paths: (Seq<char>, Seq<char>),
    line: Seq<char>,
    body: Seq<Seq<char>>,
    unsupported_metadata: Option<Seq<char>>,
) -> HunkView {
    let old_file = diff::diff_path(paths.0);
    let new_file = diff::diff_path(paths.1);
    HunkView {
        file: diff::shown_path(old_file, new_file),
        old_file,
        new_file,
        file_header: paths.0 + seq!['\n'] + paths.1,
        header: line,
        lines: body,
        unsupported_metadata,
    }
}

impl FileDiff {
    /// The lines of the diff of this file.
    pub open spec fn lines(self) -> Seq<Seq<char>> {
        match self.paths {
            Some((old, new)) => self.preamble + seq![old, new] + hunk_lines(self.hunks),
            None => self.preamble,
        }
    }

    /// The hunks of this file.
    pub open spec fn parsed(self) -> Seq<HunkView> {
        Seq::new(
            self.hunks.len(),
            |i: int|
                hunk_with(
                    self.paths->0,
                    self.hunks[i].0,
                    self.hunks[i].1,
                    first_unsupported(self.preamble),
                ),
        )
    }

    /// The parts are what they should be. All bodies are complete; with `cut`, the last one need
    /// not be.
    pub open spec fn well_formed(self, cut: bool) -> bool {
        &&& self.preamble.len() > 0 ==> text::starts_with(self.preamble[0], "diff --git"@)
        &&& self.preamble.len() == 0 ==> self.paths is Some
        &&& forall|i: int|
            0 < i < self.preamble.len() ==> is_preamble_line(#[trigger] self.preamble[i])
        &&& self.paths matches Some((old, new)) ==> {
            &&& text::starts_with(old, "--- "@)
            &&& text::starts_with(new, "+++ "@)
        }
        &&& self.paths is None ==> self.hunks.len() == 0
        &&& forall|i: int|
            0 <= i < self.hunks.len() ==> {
                &&& text::starts_with((#[trigger] self.hunks[i]).0, "@@ "@)
                &&& is_body_of(self.hunks[i].0, self.hunks[i].1)
                &&& (cut && i == self.hunks.len() - 1) || is_complete(
                    self.hunks[i].0,
                    self.hunks[i].1,
                )
            }
    }
}

/// A line that may follow `diff --git` in a preamble.
pub open spec fn is_preamble_line(line: Seq<char>) -> bool {
    &&& !text::starts_with(line, "diff --git"@)
    &&& !text::starts_with(line, "--- "@)
    &&& !text::starts_with(line, "+++ "@)
    &&& !text::starts_with(line, "@@ "@)
}

/// The lines of a diff.
pub open spec fn diff_lines(files: Seq<FileDiff>) -> Seq<Seq<char>>
    decreases files.len(),
{
    if files.len() == 0 {
        Seq::empty()
    } else {
        diff_lines(files.drop_last()) + files.last().lines()
    }
}

/// The hunks of a diff.
pub open spec fn diff_hunks(files: Seq<FileDiff>) -> Seq<HunkView>
    decreases files.len(),
{
    if files.len() == 0 {
        Seq::empty()
    } else {
        diff_hunks(files.drop_last()) + files.last().parsed()
    }
}

/// The preamble of a file completes the hunk before it and tells what cannot be carried.
proof fn lemma_read_preamble(state: ReaderView, preamble: Seq<Seq<char>>)
    requires
        at_boundary(state),
        preamble.len() > 0,
        text::starts_with(preamble[0], "diff --git"@),
        forall|i: int| 0 < i < preamble.len() ==> is_preamble_line(#[trigger] preamble[i]),
    ensures
        ({
            let fresh = ReaderView::fresh(state.flushed().hunks, state.old_left, state.new_left);
            state.with_lines(preamble) == (ReaderView {
                unsupported: first_unsupported(preamble),
                ..fresh
            })
        }),
    decreases preamble.len(),
{
    reveal(ReaderView::with_line);
    let fresh = ReaderView::fresh(state.flushed().hunks, state.old_left, state.new_left);
    let front = preamble.drop_last();
    let last = preamble.last();
    if preamble.len() == 1 {
        assert(front =~= Seq::empty());
        assert(state.with_lines(Seq::empty()) == state);
        lemma_diff_git(last);
        lemma_markers(last);
        assert(first_unsupported(Seq::<Seq<char>>::empty()) is None);
        assert(state.with_line(last) =~= (ReaderView { unsupported: None, ..fresh }));
    } else {
        assert forall|i: int| 0 < i < front.len() implies is_preamble_line(#[trigger] front[i]) by {
            assert(front[i] == preamble[i]);
        }
        lemma_read_preamble(state, front);
        assert(is_preamble_line(preamble[preamble.len() - 1]));
    }
}

/// A `diff --git` line is nothing else.
proof fn lemma_diff_git(line: Seq<char>)
    requires
        text::starts_with(line, "diff --git"@),
    ensures
        diff::unsupported_preamble(line) is None,
        !text::starts_with(line, "--- "@),
        !text::starts_with(line, "+++ "@),
        !text::starts_with(line, "@@ "@),
{
    reveal_strlit("diff --git");
    reveal_strlit("rename from ");
    reveal_strlit("rename to ");
    reveal_strlit("copy from ");
    reveal_strlit("copy to ");
    reveal_strlit("old mode ");
    reveal_strlit("new mode ");
    reveal_strlit("similarity index ");
    reveal_strlit("dissimilarity index ");
    lemma_first_char(line, "diff --git"@);
    lemma_markers(line);
    if text::starts_with(line, "rename from "@) {
        lemma_first_char(line, "rename from "@);
    }
    if text::starts_with(line, "rename to "@) {
        lemma_first_char(line, "rename to "@);
    }
    if text::starts_with(line, "copy from "@) {
        lemma_first_char(line, "copy from "@);
    }
    if text::starts_with(line, "copy to "@) {
        lemma_first_char(line, "copy to "@);
    }
    if text::starts_with(line, "old mode "@) {
        lemma_first_char(line, "old mode "@);
    }
    if text::starts_with(line, "new mode "@) {
        lemma_first_char(line, "new mode "@);
    }
    if text::starts_with(line, "similarity index "@) {
        lemma_first_char(line, "similarity index "@);
    }
    if text::starts_with(line, "dissimilarity index "@) {
        text::lemma_occurs_chars(line, "dissimilarity index "@, 0);
        text::lemma_occurs_chars(line, "diff --git"@, 0);
        let k: int = 2;
        assert(line[0 + k] == "dissimilarity index "@[k]);
        assert(line[0 + k] == "diff --git"@[k]);
    }
}

/// A `--- ` line outside a body completes the hunk before it and names the old path.
proof fn lemma_read_old_path(state: ReaderView, old: Seq<char>)
    requires
        !state.in_body(),
        text::starts_with(old, "--- "@),
    ensures
        state.with_line(old) == (ReaderView {
            file_header: old,
            old_file: diff::diff_path(old),
            ..state.flushed()
        }),
        !state.with_line(old).in_body(),
{
    reveal(ReaderView::with_line);
    lemma_markers(old);
    lemma_no_preamble(old);
    assert(state.with_preamble(old) =~= state);
}

/// A `+++ ` line outside a body names the new path.
proof fn lemma_read_new_path(state: ReaderView, new: Seq<char>)
    requires
        !state.in_body(),
        text::starts_with(new, "+++ "@),
    ensures
        state.with_line(new) == (ReaderView {
            file_header: state.file_header + seq!['\n'] + new,
            new_file: diff::diff_path(new),
            ..state
        }),
{
    reveal(ReaderView::with_line);
    lemma_markers(new);
    lemma_no_preamble(new);
    assert(state.with_preamble(new) =~= state);
}

/// The two path lines of a file complete the hunk before them and name the paths.
pub(crate) proof fn lemma_read_paths(state: ReaderView, old: Seq<char>, new: Seq<char>)
    requires
        !state.in_body(),
        text::starts_with(old, "--- "@),
        text::starts_with(new, "+++ "@),
    ensures
        state.with_lines(seq![old, new]) == (ReaderView {
            file_header: old + seq!['\n'] + new,
            old_file: diff::diff_path(old),
            new_file: diff::diff_path(new),
            ..state.flushed()
        }),
{
    let both = seq![old, new];
    let first = seq![old];
    assert(both.drop_last() =~= first);
    assert(first.drop_last() =~= Seq::empty());
    assert(state.with_lines(Seq::empty()) == state);
    assert(state.with_lines(first) == state.with_line(old));
    assert(state.with_lines(both) == state.with_lines(first).with_line(new));
    lemma_read_old_path(state, old);
    lemma_read_new_path(state.with_line(old), new);
}

/// A hunk that is being collected completes with the paths that are known.
proof fn lemma_collected(
    before: ReaderView,
    after: ReaderView,
    paths: (Seq<char>, Seq<char>),
    line: Seq<char>,
    body: Seq<Seq<char>>,
)
    requires
        before.old_file == diff::diff_path(paths.0),
        before.new_file == diff::diff_path(paths.1),
        before.file_header == paths.0 + seq!['\n'] + paths.1,
        after == (ReaderView {
            header: Some(line),
            lines: body,
            old_left: after.old_left,
            new_left: after.new_left,
            ..before.flushed()
        }),
    ensures
        after.flushed().hunks == before.flushed().hunks.push(
            hunk_with(paths, line, body, before.unsupported),
        ),
{
    assert(after.current() =~= hunk_with(paths, line, body, before.unsupported));
}

/// The hunks of a file, read behind its path lines: all but the last are complete, and the last
/// one is being collected.
proof fn lemma_read_hunks(
    state: ReaderView,
    paths: (Seq<char>, Seq<char>),
    hunks: Seq<(Seq<char>, Seq<Seq<char>>)>,
    cut: bool,
)
    requires
        at_boundary(state),
        state.header is None,
        state.old_file == diff::diff_path(paths.0),
        state.new_file == diff::diff_path(paths.1),
        state.file_header == paths.0 + seq!['\n'] + paths.1,
        forall|i: int|
            0 <= i < hunks.len() ==> {
                &&& text::starts_with((#[trigger] hunks[i]).0, "@@ "@)
                &&& is_body_of(hunks[i].0, hunks[i].1)
                &&& (cut && i == hunks.len() - 1) || is_complete(hunks[i].0, hunks[i].1)
            },
    ensures
        ({
            let done = state.with_lines(hunk_lines(hunks));
            let parsed = Seq::new(
                hunks.len(),
                |i: int| hunk_with(paths, hunks[i].0, hunks[i].1, state.unsupported),
            );
            &&& done.flushed().hunks == state.hunks + parsed
            &&& done.unsupported == state.unsupported
            &&& done.old_file == state.old_file
            &&& done.new_file == state.new_file
            &&& done.file_header == state.file_header
            &&& done.header is None ==> done.lines.len() == 0
            &&& !cut ==> at_boundary(done)
        }),
    decreases hunks.len(),
{
    let parsed = Seq::new(
        hunks.len(),
        |i: int| hunk_with(paths, hunks[i].0, hunks[i].1, state.unsupported),
    );
    if hunks.len() == 0 {
        assert(state.hunks + parsed =~= state.hunks);
        assert(state.with_lines(Seq::empty()) == state);
    } else {
        let front = hunks.drop_last();
        let (line, body) = hunks.last();
        assert forall|i: int| 0 <= i < front.len() implies {
            &&& text::starts_with((#[trigger] front[i]).0, "@@ "@)
            &&& is_body_of(front[i].0, front[i].1)
            &&& is_complete(front[i].0, front[i].1)
        } by {
            assert(front[i] == hunks[i]);
        }
        lemma_read_hunks(state, paths, front, false);
        let so_far = state.with_lines(hunk_lines(front));
        lemma_with_lines_add(state, hunk_lines(front), seq![line] + body);
        assert(hunks[hunks.len() - 1] == (line, body));
        lemma_read_hunk(so_far, line, body);
        let done = state.with_lines(hunk_lines(hunks));
        let front_parsed = Seq::new(
            front.len(),
            |i: int| hunk_with(paths, front[i].0, front[i].1, state.unsupported),
        );
        lemma_collected(so_far, done, paths, line, body);
        assert(state.hunks + parsed =~= (state.hunks + front_parsed).push(
            hunk_with(paths, line, body, state.unsupported),
        ));
    }
}

/// The preamble of a file, if it has one, read at a boundary.
proof fn lemma_read_head(state: ReaderView, file: FileDiff)
    requires
        at_boundary(state),
        file.well_formed(true),
        file.preamble.len() == 0 ==> state.unsupported is None,
    ensures
        ({
            let headed = state.with_lines(file.preamble);
            &&& at_boundary(headed)
            &&& headed.flushed().hunks == state.flushed().hunks
            &&& headed.unsupported == first_unsupported(file.preamble)
        }),
{
    if file.preamble.len() > 0 {
        lemma_read_preamble(state, file.preamble);
    } else {
        assert(file.preamble =~= Seq::empty());
        assert(state.with_lines(Seq::empty()) == state);
    }
}

/// Path lines with hunks behind them, read at a boundary.
proof fn lemma_read_named(
    state: ReaderView,
    paths: (Seq<char>, Seq<char>),
    hunks: Seq<(Seq<char>, Seq<Seq<char>>)>,
    cut: bool,
)
    requires
        at_boundary(state),
        text::starts_with(paths.0, "--- "@),
        text::starts_with(paths.1, "+++ "@),
        forall|i: int|
            0 <= i < hunks.len() ==> {
                &&& text::starts_with((#[trigger] hunks[i]).0, "@@ "@)
                &&& is_body_of(hunks[i].0, hunks[i].1)
                &&& (cut && i == hunks.len() - 1) || is_complete(hunks[i].0, hunks[i].1)
            },
    ensures
        ({
            let done = state.with_lines(seq![paths.0, paths.1]).with_lines(hunk_lines(hunks));
            let parsed = Seq::new(
                hunks.len(),
                |i: int| hunk_with(paths, hunks[i].0, hunks[i].1, state.unsupported),
            );
            &&& done.flushed().hunks == state.flushed().hunks + parsed
            &&& done.unsupported == state.unsupported
            &&& !cut ==> at_boundary(done)
        }),
{
    lemma_read_paths(state, paths.0, paths.1);
    lemma_read_hunks(state.with_lines(seq![paths.0, paths.1]), paths, hunks, cut);
}

/// One file of a diff, read at a boundary.
proof fn lemma_read_file(state: ReaderView, file: FileDiff, cut: bool)
    requires
        at_boundary(state),
        file.well_formed(cut),
        file.preamble.len() == 0 ==> state.unsupported is None,
    ensures
        ({
            let done = state.with_lines(file.lines());
            &&& done.flushed().hunks == state.flushed().hunks + file.parsed()
            &&& done.unsupported == first_unsupported(file.preamble)
            &&& !cut ==> at_boundary(done)
        }),
{
    lemma_read_head(state, file);
    let headed = state.with_lines(file.preamble);
    match file.paths {
        Some((old, new)) => {
            lemma_with_lines_add(state, file.preamble, seq![old, new]);
            lemma_with_lines_add(
                state,
                file.preamble + seq![old, new],
                hunk_lines(file.hunks),
            );
            lemma_read_named(headed, (old, new), file.hunks, cut);
            let parsed = Seq::new(
                file.hunks.len(),
                |i: int|
                    hunk_with((old, new), file.hunks[i].0, file.hunks[i].1, headed.unsupported),
            );
            assert(parsed =~= file.parsed());
        },
        None => {
            assert(state.flushed().hunks + file.parsed() =~= state.flushed().hunks);
        },
    }
}

/// A file without a preamble comes behind none with metadata that a text patch cannot carry: the
/// metadata stays until the next preamble.
pub open spec fn shares_no_metadata(files: Seq<FileDiff>) -> bool {
    forall|i: int, j: int|
        0 <= i < j < files.len() && (#[trigger] files[j]).preamble.len() == 0
            ==> first_unsupported((#[trigger] files[i]).preamble) is None
}

/// The files of a diff, read from the start.
proof fn lemma_read_files(files: Seq<FileDiff>)
    requires
        forall|i: int|
            0 <= i < files.len() ==> (#[trigger] files[i]).well_formed(i == files.len() - 1),
        shares_no_metadata(files),
    ensures
        diff::hunks_of_lines(diff_lines(files)) == diff_hunks(files),
        ({
            let done = ReaderView::fresh(Seq::empty(), 0, 0).with_lines(diff_lines(files));
            &&& done.unsupported == if files.len() > 0 {
                first_unsupported(files.last().preamble)
            } else {
                None
            }
            &&& (forall|i: int| 0 <= i < files.len() ==> (#[trigger] files[i]).well_formed(false))
                ==> at_boundary(done)
        }),
    decreases files.len(),
{
    let start = ReaderView::fresh(Seq::empty(), 0, 0);
    if files.len() == 0 {
        assert(start.with_lines(Seq::empty()) == start);
    } else {
        let front = files.drop_last();
        let last = files.last();
        assert forall|i: int| 0 <= i < front.len() implies (#[trigger] front[i]).well_formed(
            false,
        ) by {
            assert(front[i] == files[i]);
        }
        assert forall|i: int| 0 <= i < front.len() implies (#[trigger] front[i]).well_formed(
            i == front.len() - 1,
        ) by {
            assert(front[i].well_formed(false));
        }
        assert forall|i: int, j: int|
            0 <= i < j < front.len() && (#[trigger] front[j]).preamble.len()
                == 0 implies first_unsupported((#[trigger] front[i]).preamble) is None by {
            assert(files[i] == front[i] && files[j] == front[j]);
        }
        lemma_read_files(front);
        let so_far = start.with_lines(diff_lines(front));
        lemma_with_lines_add(start, diff_lines(front), last.lines());
        assert(files[files.len() - 1] == last);
        if last.preamble.len() == 0 && front.len() > 0 {
            assert(files[files.len() - 2] == front.last());
        }
        lemma_read_file(so_far, last, true);
        if forall|i: int| 0 <= i < files.len() ==> (#[trigger] files[i]).well_formed(false) {
            assert(files[files.len() - 1].well_formed(false));
            lemma_read_file(so_far, last, false);
        }
    }
}

/// A diff, git-style or plain, is read into the hunks that it was made of, in order, each with the
/// paths and the metadata of its file, whatever its body lines look like and whatever line ends
/// they have. The last body may be cut short.
pub proof fn law_diff_reads_back(files: Seq<FileDiff>)
    requires
        forall|i: int|
            0 <= i < files.len() ==> (#[trigger] files[i]).well_formed(i == files.len() - 1),
        shares_no_metadata(files),
        forall|i: int|
            0 <= i < diff_lines(files).len() ==> text::one_line(#[trigger] diff_lines(files)[i]),
    ensures
        diff::hunks_of(
            text::replaced(surgeon::joined(diff_lines(files)), "\r\n"@, "\r\r\n"@),
        ) == diff_hunks(files),
{
    let lines = diff_lines(files);
    law_joined_lines(lines);
    law_protected_lines(surgeon::joined(lines));
    lemma_read_files(files);
}

// ---------------------------------------------------------------------------------------------
// Diffs one behind the other
// ---------------------------------------------------------------------------------------------

/// A text that is empty or ends with a line feed.
pub open spec fn ends_lines(text: Seq<char>) -> bool {
    text.len() > 0 ==> text.last() == '\n'
}

/// The lines of two texts one behind the other, the first of which ends with a line feed.
proof fn lemma_lines_add(a: Seq<char>, b: Seq<char>)
    requires
        ends_lines(a),
    ensures
        text::lines(a + b) == text::lines(a) + text::lines(b),
    decreases a.len(),
{
    if a.len() == 0 {
        assert(a + b =~= b);
        assert(text::lines(a) + text::lines(b) =~= text::lines(b));
    } else {
        text::lemma_first_line(a);
        match text::find(a, seq!['\n']) {
            Some(i) => {
                let line = a.take(i);
                let rest = a.skip(i + 1);
                assert(a + b =~= line + seq!['\n'] + (rest + b));
                text::lemma_line_end(line, rest + b);
                if rest.len() > 0 {
                    assert(rest.last() == a.last());
                }
                lemma_lines_add(rest, b);
                let first = seq![text::strip_cr(line)];
                assert(first + (text::lines(rest) + text::lines(b)) =~= first + text::lines(rest)
                    + text::lines(b));
            },
            None => {
                assert(a[a.len() - 1] == '\n');
            },
        }
    }
}

/// The first line of a text begins as the text does.
proof fn lemma_first_line_starts(text: Seq<char>)
    requires
        text::starts_with(text, "diff --git"@),
    ensures
        text::lines(text).len() > 0,
        text::starts_with(text::lines(text)[0], "diff --git"@),
{
    reveal_strlit("diff --git");
    let start = "diff --git"@;
    text::lemma_occurs_chars(text, start, 0);
    text::lemma_first_line(text);
    if let Some(i) = text::find(text, seq!['\n']) {
        assert(text == text.take(i) + seq!['\n'] + text.skip(i + 1));
        assert(text[i] == '\n');
        if i < 10 {
            let k: int = i;
            assert(text[0 + k] == start[k]);
        }
        let line = text.take(i);
        let short = text::strip_cr(line);
        if line.len() == 10 {
            let k: int = 9;
            assert(text[0 + k] == start[k]);
            assert(line.last() == text[9]);
        }
        assert(short.subrange(0, 10) =~= start) by {
            assert(text.subrange(0, 10) == start);
            assert(short.subrange(0, 10) =~= text.subrange(0, 10));
        }
    }
}

/// The counts say what is still to come of the hunk being collected, and nothing between hunks.
spec fn counts_are_right(state: ReaderView) -> bool {
    match state.header {
        Some(line) => (state.old_left, state.new_left) == left_after(
            header::header_counts(line).0,
            header::header_counts(line).1,
            state.lines,
        ),
        None => state.old_left == 0 && state.new_left == 0 && state.lines.len() == 0,
    }
}

/// One more line keeps the counts right.
proof fn lemma_counts_stay_right(state: ReaderView, line: Seq<char>)
    requires
        counts_are_right(state),
    ensures
        counts_are_right(state.with_line(line)),
{
    reveal(ReaderView::with_line);
    let more = state.lines.push(line);
    assert(more.drop_last() =~= state.lines);
    assert(more.last() == line);
    if !state.in_body() {
        let headed = state.with_preamble(line);
        assert(counts_are_right(headed));
        assert(headed.lines.push(line).drop_last() =~= headed.lines);
        assert(!headed.in_body());
    }
}

/// More lines keep the counts right.
proof fn lemma_counts_are_right(state: ReaderView, lines: Seq<Seq<char>>)
    requires
        counts_are_right(state),
    ensures
        counts_are_right(state.with_lines(lines)),
    decreases lines.len(),
{
    if lines.len() > 0 {
        lemma_counts_are_right(state, lines.drop_last());
        lemma_counts_stay_right(state.with_lines(lines.drop_last()), lines.last());
    }
}

/// The state with other hunks in front of its own.
spec fn behind(hunks: Seq<HunkView>, state: ReaderView) -> ReaderView {
    ReaderView { hunks: hunks + state.hunks, ..state }
}

/// Hunks that are complete play no part in completing another.
proof fn lemma_flushed_behind(hunks: Seq<HunkView>, state: ReaderView)
    ensures
        behind(hunks, state).flushed() == behind(hunks, state.flushed()),
{
    assert(behind(hunks, state).current() == state.current());
    assert(hunks + state.hunks.push(state.current()) =~= (hunks + state.hunks).push(
        state.current(),
    ));
}

/// Hunks that are complete play no part in reading a line.
proof fn lemma_line_behind(hunks: Seq<HunkView>, state: ReaderView, line: Seq<char>)
    ensures
        behind(hunks, state).with_line(line) == behind(hunks, state.with_line(line)),
{
    reveal(ReaderView::with_line);
    lemma_flushed_behind(hunks, state);
    let headed = state.with_preamble(line);
    assert(behind(hunks, state).with_preamble(line) =~= behind(hunks, headed));
    lemma_flushed_behind(hunks, headed);
}

/// Hunks that are complete play no part in reading lines.
proof fn lemma_lines_behind(hunks: Seq<HunkView>, state: ReaderView, lines: Seq<Seq<char>>)
    ensures
        behind(hunks, state).with_lines(lines) == behind(hunks, state.with_lines(lines)),
    decreases lines.len(),
{
    if lines.len() > 0 {
        lemma_lines_behind(hunks, state, lines.drop_last());
        lemma_line_behind(hunks, state.with_lines(lines.drop_last()), lines.last());
    }
}

/// A `diff --git` line between hunks begins afresh.
proof fn lemma_begin_afresh(state: ReaderView, line: Seq<char>)
    requires
        counts_are_right(state),
        !state.in_body(),
        text::starts_with(line, "diff --git"@),
    ensures
        state.with_line(line) == ReaderView::fresh(state.flushed().hunks, 0, 0),
{
    reveal(ReaderView::with_line);
    lemma_diff_git(line);
}

/// Lines that begin with a `diff --git` line are read, between hunks, as if nothing stood in front
/// of them.
proof fn lemma_read_afresh(state: ReaderView, lines: Seq<Seq<char>>)
    requires
        counts_are_right(state),
        !state.in_body(),
        lines.len() > 0,
        text::starts_with(lines[0], "diff --git"@),
    ensures
        state.with_lines(lines) == behind(
            state.flushed().hunks,
            ReaderView::fresh(Seq::empty(), 0, 0).with_lines(lines),
        ),
{
    let start = ReaderView::fresh(Seq::empty(), 0, 0);
    let done = state.flushed().hunks;
    let first = seq![lines[0]];
    let rest = lines.drop_first();
    assert(first + rest =~= lines);
    assert(first.drop_last() =~= Seq::empty());
    lemma_with_lines_add(state, first, rest);
    lemma_with_lines_add(start, first, rest);
    assert(state.with_lines(Seq::empty()) == state);
    assert(start.with_lines(Seq::empty()) == start);
    assert(state.with_lines(first) == state.with_line(lines[0]));
    assert(start.with_lines(first) == start.with_line(lines[0]));
    lemma_begin_afresh(state, lines[0]);
    lemma_begin_afresh(start, lines[0]);
    assert(start.flushed().hunks =~= Seq::empty());
    assert(behind(done, start) =~= ReaderView::fresh(done, 0, 0));
    lemma_lines_behind(done, start, rest);
}

/// Reading two diffs one behind the other, the second of which begins with a `diff --git` line,
/// gives the hunks of the first and behind them those of the second. The first ends with a line
/// feed, and none of its hunks lacks a line that its `@@` line announces.
pub proof fn law_diffs_add(a: Seq<char>, b: Seq<char>)
    requires
        ends_lines(a),
        forall|i: int|
            0 <= i < diff::hunks_of(a).len() ==> is_complete(
                (#[trigger] diff::hunks_of(a)[i]).header,
                diff::hunks_of(a)[i].lines,
            ),
        text::starts_with(b, "diff --git"@),
    ensures
        diff::hunks_of(a + b) == diff::hunks_of(a) + diff::hunks_of(b),
{
    let start = ReaderView::fresh(Seq::empty(), 0, 0);
    let middle = start.with_lines(text::lines(a));
    let alone = start.with_lines(text::lines(b));
    let hunks = diff::hunks_of(a);
    lemma_lines_add(a, b);
    lemma_with_lines_add(start, text::lines(a), text::lines(b));
    lemma_counts_are_right(start, text::lines(a));
    if middle.header is Some {
        let last = hunks.len() - 1;
        assert(hunks[last] == middle.current());
        assert(is_complete(hunks[last].header, hunks[last].lines));
    }
    assert(!middle.in_body());
    lemma_first_line_starts(b);
    lemma_read_afresh(middle, text::lines(b));
    lemma_flushed_behind(hunks, alone);
}

} // verus!
