//! Reading a git-style diff into hunks.
use crate::header;
use crate::hunk;
use crate::hunk::{copy_optional, DiffHunk, HunkView};
use crate::text;
use vstd::prelude::*;

verus! {

// ---------------------------------------------------------------------------------------------
// Paths
// ---------------------------------------------------------------------------------------------

/// The path that a `--- a/...` or `+++ b/...` line names.
pub open spec fn diff_path(line: Seq<char>) -> Seq<char> {
    if text::starts_with(line, "--- a/"@) {
        line.skip(6)
    } else if text::starts_with(line, "+++ b/"@) {
        line.skip(6)
    } else if text::starts_with(line, "--- /"@) {
        line.skip(5)
    } else if text::starts_with(line, "+++ /"@) {
        line.skip(5)
    } else if text::starts_with(line, "+++ a/"@) {
        line.skip(6)
    } else if text::starts_with(line, "--- "@) {
        line.skip(4)
    } else if text::starts_with(line, "+++ "@) {
        line.skip(4)
    } else {
        line
    }
}

/// Extracts the path from a `--- a/...` or `+++ b/...` line.
pub fn strip_diff_prefix<'a>(line: &'a str) -> (r: &'a str)
    ensures
        r@ == diff_path(line@),
{
    proof {
        reveal_strlit("--- a/");
        reveal_strlit("+++ b/");
        reveal_strlit("--- /");
        reveal_strlit("+++ /");
        reveal_strlit("+++ a/");
        reveal_strlit("--- ");
        reveal_strlit("+++ ");
    }
    if let Some(path) = text::strip_prefix(line, "--- a/") {
        return path;
    }
    if let Some(path) = text::strip_prefix(line, "+++ b/") {
        return path;
    }
    if let Some(path) = text::strip_prefix(line, "--- /") {
        return path;
    }
    if let Some(path) = text::strip_prefix(line, "+++ /") {
        return path;
    }
    if let Some(path) = text::strip_prefix(line, "+++ a/") {
        return path;
    }
    if let Some(path) = text::strip_prefix(line, "--- ") {
        return path;
    }
    if let Some(path) = text::strip_prefix(line, "+++ ") {
        return path;
    }
    line
}

/// The path to show for a hunk: the new side's, or the old side's where there is no new file.
pub open spec fn shown_path(old: Seq<char>, new: Seq<char>) -> Seq<char> {
    if dev_null(new) || new.len() == 0 {
        old
    } else {
        new
    }
}

/// Chooses the path to show for a hunk.
pub fn display_file(old: &str, new: &str) -> (r: String)
    ensures
        r@ == shown_path(old@, new@),
{
    if is_dev_null(new) || new.is_empty() {
        old.to_string()
    } else {
        new.to_string()
    }
}

/// The path is the marker for a file that is not there, with or without its leading slash.
pub open spec fn dev_null(path: Seq<char>) -> bool {
    path == "/dev/null"@ || path == "dev/null"@
}

/// Tells whether a diff-side path is the `/dev/null` marker (file added or deleted).
/// [`parse_diff`] strips the leading slash, so both spellings match.
pub fn is_dev_null(path: &str) -> (r: bool)
    ensures
        r == dev_null(path@),
{
    text::same_text(path, "/dev/null") || text::same_text(path, "dev/null")
}

// ---------------------------------------------------------------------------------------------
// Line ends
// ---------------------------------------------------------------------------------------------

/// A diff with one more carriage return in front of each CRLF line end.
pub open spec fn protected(raw: Seq<char>) -> Seq<char> {
    text::replaced(raw, "\r\n"@, "\r\r\n"@)
}

/// Protects the carriage return of CRLF content lines from [`parse_diff`].
///
/// Content lines from CRLF files end with "\r\n" in the diff, where the '\r' is content.
/// Reading lines strips "\r\n" as a unit, so the '\r' is doubled and one survives.
pub fn preserve_crlf(raw: &str) -> (r: String)
    ensures
        r@ == protected(raw@),
{
    proof {
        reveal_strlit("\r\n");
    }
    text::replace_all(raw, "\r\n", "\r\r\n")
}

// ---------------------------------------------------------------------------------------------
// Parsing
// ---------------------------------------------------------------------------------------------

/// The preamble line announces something that a text patch cannot carry; the result is what.
/// New and deleted files are no such thing: their `/dev/null` path says it all.
pub open spec fn unsupported_preamble(line: Seq<char>) -> Option<Seq<char>> {
    if text::starts_with(line, "rename from "@) {
        Some("rename from"@)
    } else if text::starts_with(line, "rename to "@) {
        Some("rename to"@)
    } else if text::starts_with(line, "copy from "@) {
        Some("copy from"@)
    } else if text::starts_with(line, "copy to "@) {
        Some("copy to"@)
    } else if text::starts_with(line, "old mode "@) {
        Some("old mode"@)
    } else if text::starts_with(line, "new mode "@) {
        Some("new mode"@)
    } else if text::starts_with(line, "similarity index "@) {
        Some("similarity index"@)
    } else if text::starts_with(line, "dissimilarity index "@) {
        Some("dissimilarity index"@)
    } else {
        None
    }
}

/// What a preamble line announces that a text patch cannot carry.
fn unsupported(line: &str) -> (r: Option<String>)
    ensures
        hunk::optional_view(r) == unsupported_preamble(line@),
{
    if text::begins(line, "rename from ") {
        Some("rename from".to_string())
    } else if text::begins(line, "rename to ") {
        Some("rename to".to_string())
    } else if text::begins(line, "copy from ") {
        Some("copy from".to_string())
    } else if text::begins(line, "copy to ") {
        Some("copy to".to_string())
    } else if text::begins(line, "old mode ") {
        Some("old mode".to_string())
    } else if text::begins(line, "new mode ") {
        Some("new mode".to_string())
    } else if text::begins(line, "similarity index ") {
        Some("similarity index".to_string())
    } else if text::begins(line, "dissimilarity index ") {
        Some("dissimilarity index".to_string())
    } else {
        None
    }
}

/// How far a diff has been read: what is known of the current file, the hunk that is being
/// collected, and the hunks that are complete.
#[verifier::ext_equal]
pub struct ReaderView {
    pub old_file: Seq<char>,
    pub new_file: Seq<char>,
    pub file_header: Seq<char>,
    /// The `@@` line of the hunk being collected.
    pub header: Option<Seq<char>>,
    pub lines: Seq<Seq<char>>,
    pub unsupported: Option<Seq<char>>,
    /// Body lines of the current hunk that its `@@` line announced and that are still to come.
    pub old_left: nat,
    pub new_left: nat,
    pub hunks: Seq<HunkView>,
}

impl ReaderView {
    /// Nothing read of the current file, with these hunks complete.
    pub open spec fn fresh(hunks: Seq<HunkView>, old_left: nat, new_left: nat) -> Self {
        ReaderView {
            old_file: Seq::empty(),
            new_file: Seq::empty(),
            file_header: Seq::empty(),
            header: None,
            lines: Seq::empty(),
            unsupported: None,
            old_left,
            new_left,
            hunks,
        }
    }

    /// The announced body of the current hunk is not complete.
    pub open spec fn in_body(self) -> bool {
        self.header is Some && (self.old_left > 0 || self.new_left > 0)
    }

    /// The hunk being collected, as it stands.
    pub open spec fn current(self) -> HunkView {
        HunkView {
            file: shown_path(self.old_file, self.new_file),
            old_file: self.old_file,
            new_file: self.new_file,
            file_header: self.file_header,
            header: self.header->0,
            lines: self.lines,
            unsupported_metadata: self.unsupported,
        }
    }

    /// The hunk being collected, if any, is complete.
    pub open spec fn flushed(self) -> Self {
        if self.header is Some {
            ReaderView {
                header: None,
                lines: Seq::empty(),
                hunks: self.hunks.push(self.current()),
                ..self
            }
        } else {
            self
        }
    }

    /// One more line of the body. Removed lines count on the old side, added ones on the new
    /// side, the "no newline at end of file" marker on neither, anything else on both.
    pub open spec fn with_body_line(self, line: Seq<char>) -> Self {
        let counts_old = !(hunk::is_added(line) || hunk::mark_of(line) == Some('\\'));
        let counts_new = !(hunk::is_removed(line) || hunk::mark_of(line) == Some('\\'));
        ReaderView {
            lines: self.lines.push(line),
            old_left: less_one_if(self.old_left, counts_old),
            new_left: less_one_if(self.new_left, counts_new),
            ..self
        }
    }

    /// The part of reading a line outside a body that concerns the file's preamble.
    pub open spec fn with_preamble(self, line: Seq<char>) -> Self {
        if text::starts_with(line, "diff --git"@) {
            Self::fresh(self.flushed().hunks, self.old_left, self.new_left)
        } else if self.unsupported is None {
            ReaderView { unsupported: unsupported_preamble(line), ..self }
        } else {
            self
        }
    }

    /// The part of reading a line outside a body that concerns path lines, `@@` lines and what
    /// trails a complete body. A `--- ` line starts another file, so it completes the hunk before
    /// it.
    pub open spec fn with_marker(self, line: Seq<char>) -> Self {
        if text::starts_with(line, "--- "@) {
            ReaderView { file_header: line, old_file: diff_path(line), ..self.flushed() }
        } else if text::starts_with(line, "+++ "@) {
            ReaderView {
                file_header: self.file_header + seq!['\n'] + line,
                new_file: diff_path(line),
                ..self
            }
        } else if text::starts_with(line, "@@ "@) {
            let (old_left, new_left) = header::header_counts(line);
            ReaderView { header: Some(line), old_left, new_left, ..self.flushed() }
        } else if self.header is Some {
            ReaderView { lines: self.lines.push(line), ..self }
        } else {
            self
        }
    }

    /// One more line of the diff.
    #[verifier::opaque]
    pub open spec fn with_line(self, line: Seq<char>) -> Self {
        if self.in_body() {
            self.with_body_line(line)
        } else {
            self.with_preamble(line).with_marker(line)
        }
    }

    /// More lines of the diff.
    pub open spec fn with_lines(self, lines: Seq<Seq<char>>) -> Self
        decreases lines.len(),
    {
        if lines.len() == 0 {
            self
        } else {
            self.with_lines(lines.drop_last()).with_line(lines.last())
        }
    }
}

/// `n` less one where `yes` holds and `n` is not zero.
pub open spec fn less_one_if(n: nat, yes: bool) -> nat {
    if yes && n > 0 {
        (n - 1) as nat
    } else {
        n
    }
}

/// The hunks of a diff with these lines.
pub open spec fn hunks_of_lines(lines: Seq<Seq<char>>) -> Seq<HunkView> {
    ReaderView::fresh(Seq::empty(), 0, 0).with_lines(lines).flushed().hunks
}

/// The hunks of a diff.
pub open spec fn hunks_of(input: Seq<char>) -> Seq<HunkView> {
    hunks_of_lines(text::lines(input))
}

/// Collects hunks line by line.
struct Reader {
    old_file: String,
    new_file: String,
    file_header: String,
    header: Option<String>,
    lines: Vec<String>,
    unsupported: Option<String>,
    old_left: usize,
    new_left: usize,
    hunks: Vec<DiffHunk>,
}

impl View for Reader {
    type V = ReaderView;

    closed spec fn view(&self) -> ReaderView {
        ReaderView {
            old_file: self.old_file@,
            new_file: self.new_file@,
            file_header: self.file_header@,
            header: hunk::optional_view(self.header),
            lines: text::views(self.lines@),
            unsupported: hunk::optional_view(self.unsupported),
            old_left: self.old_left as nat,
            new_left: self.new_left as nat,
            hunks: hunk::hunk_views(self.hunks@),
        }
    }
}

impl Reader {
    fn new() -> (r: Self)
        ensures
            r@ == ReaderView::fresh(Seq::empty(), 0, 0),
    {
        let r = Reader {
            old_file: String::new(),
            new_file: String::new(),
            file_header: String::new(),
            header: None,
            lines: Vec::new(),
            unsupported: None,
            old_left: 0,
            new_left: 0,
            hunks: Vec::new(),
        };
        assert(r@ =~= ReaderView::fresh(Seq::empty(), 0, 0));
        r
    }

    fn flush(&mut self)
        ensures
            final(self)@ == old(self)@.flushed(),
    {
        if let Some(header) = self.header.take() {
            let mut lines: Vec<String> = Vec::new();
            std::mem::swap(&mut lines, &mut self.lines);
            let done = DiffHunk {
                file: display_file(&self.old_file, &self.new_file),
                old_file: self.old_file.clone(),
                new_file: self.new_file.clone(),
                file_header: self.file_header.clone(),
                header,
                lines,
                unsupported_metadata: copy_optional(&self.unsupported),
            };
            assert(done@ =~= old(self)@.current());
            assert(hunk::hunk_views(self.hunks@.push(done)) =~= hunk::hunk_views(self.hunks@).push(
                done@,
            ));
            self.hunks.push(done);
            assert(text::views(self.lines@) =~= Seq::empty());
        }
        assert(self@ =~= old(self)@.flushed());
    }

    fn push_line(&mut self, line: &str)
        ensures
            final(self)@ == (ReaderView { lines: old(self)@.lines.push(line@), ..old(self)@ }),
    {
        self.lines.push(line.to_string());
        assert(text::views(self.lines@) =~= text::views(old(self).lines@).push(line@));
    }

    fn body_line(&mut self, line: &str)
        ensures
            final(self)@ == old(self)@.with_body_line(line@),
    {
        match hunk::mark(line) {
            Some('+') => {
                if self.new_left > 0 {
                    self.new_left = self.new_left - 1;
                }
            },
            Some('-') => {
                if self.old_left > 0 {
                    self.old_left = self.old_left - 1;
                }
            },
            Some('\\') => {},
            _ => {
                if self.old_left > 0 {
                    self.old_left = self.old_left - 1;
                }
                if self.new_left > 0 {
                    self.new_left = self.new_left - 1;
                }
            },
        }
        self.push_line(line);
    }

    fn preamble(&mut self, line: &str)
        ensures
            final(self)@ == old(self)@.with_preamble(line@),
    {
        if text::begins(line, "diff --git") {
            self.flush();
            self.old_file = String::new();
            self.new_file = String::new();
            self.file_header = String::new();
            self.header = None;
            self.lines = Vec::new();
            self.unsupported = None;
            assert(self@ =~= old(self)@.with_preamble(line@));
        } else if self.unsupported.is_none() {
            self.unsupported = unsupported(line);
        }
    }

    fn marker(&mut self, line: &str)
        ensures
            final(self)@ == old(self)@.with_marker(line@),
    {
        if text::begins(line, "--- ") {
            self.flush();
            self.file_header = line.to_string();
            self.old_file = strip_diff_prefix(line).to_string();
        } else if text::begins(line, "+++ ") {
            self.file_header.push('\n');
            self.file_header.append(line);
            self.new_file = strip_diff_prefix(line).to_string();
            assert(self.file_header@ =~= old(self).file_header@ + seq!['\n'] + line@);
        } else if text::begins(line, "@@ ") {
            self.flush();
            let (old_left, new_left) = header::parse_header_counts(line);
            self.old_left = old_left;
            self.new_left = new_left;
            self.header = Some(line.to_string());
        } else if self.header.is_some() {
            self.push_line(line);
        }
    }

    fn feed(&mut self, line: &str)
        ensures
            final(self)@ == old(self)@.with_line(line@),
    {
        reveal(ReaderView::with_line);
        if self.header.is_some() && (self.old_left > 0 || self.new_left > 0) {
            self.body_line(line);
        } else {
            self.preamble(line);
            self.marker(line);
        }
    }
}

/// Parses a unified diff into hunks.
///
/// The files of the diff may be parted by `diff --git` lines or by their path lines alone. The
/// line counts of each `@@` line say how far its body reaches, so that body lines are always
/// taken as content, also where they look like path lines (removing a `-- comment` line renders
/// as `--- comment`).
pub fn parse_diff(input: &str) -> (r: Vec<DiffHunk>)
    ensures
        hunk::hunk_views(r@) == hunks_of(input@),
{
    let all = text::lines_of(input);
    let mut reader = Reader::new();
    let mut i: usize = 0;
    let ghost start = ReaderView::fresh(Seq::empty(), 0, 0);
    while i < all.len()
        invariant
            i <= all@.len(),
            text::views(all@) == text::lines(input@),
            start == ReaderView::fresh(Seq::empty(), 0, 0),
            reader@ == start.with_lines(text::lines(input@).take(i as int)),
        decreases all@.len() - i,
    {
        proof {
            let done = text::lines(input@).take(i + 1);
            assert(done.drop_last() =~= text::lines(input@).take(i as int));
            assert(done.last() == all@[i as int]@);
        }
        reader.feed(&all[i]);
        i = i + 1;
    }
    assert(text::lines(input@).take(i as int) =~= text::lines(input@));
    reader.flush();
    reader.hunks
}

} // verus!
