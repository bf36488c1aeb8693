//! A hunk of a diff, and the two sides of the change that it describes.
use crate::text;
use vstd::prelude::*;

verus! {

/// One hunk of a unified diff.
#[derive(Debug, PartialEq, Eq)]
pub struct DiffHunk {
    /// The path to show: the new side's, or the old side's where the file is deleted.
    pub file: String,
    /// The path on the old side, `dev/null` for a new file.
    pub old_file: String,
    /// The path on the new side, `dev/null` for a deleted file.
    pub new_file: String,
    /// The two path lines, `--- a/...` and `+++ b/...`.
    pub file_header: String,
    /// The `@@` line.
    pub header: String,
    /// The body: context, added and removed lines.
    pub lines: Vec<String>,
    /// What in the file's preamble a text patch cannot carry, such as `rename from`.
    pub unsupported_metadata: Option<String>,
}

/// What a [`DiffHunk`] holds.
#[verifier::ext_equal]
pub struct HunkView {
    pub file: Seq<char>,
    pub old_file: Seq<char>,
    pub new_file: Seq<char>,
    pub file_header: Seq<char>,
    pub header: Seq<char>,
    pub lines: Seq<Seq<char>>,
    pub unsupported_metadata: Option<Seq<char>>,
}

/// What an optional string holds.
pub open spec fn optional_view(text: Option<String>) -> Option<Seq<char>> {
    match text {
        Some(s) => Some(s@),
        None => None,
    }
}

impl View for DiffHunk {
    type V = HunkView;

    open spec fn view(&self) -> HunkView {
        HunkView {
            file: self.file@,
            old_file: self.old_file@,
            new_file: self.new_file@,
            file_header: self.file_header@,
            header: self.header@,
            lines: text::views(self.lines@),
            unsupported_metadata: optional_view(self.unsupported_metadata),
        }
    }
}

/// What the hunks of a sequence hold.
pub open spec fn hunk_views(hunks: Seq<DiffHunk>) -> Seq<HunkView> {
    Seq::new(hunks.len(), |i: int| hunks[i]@)
}

/// A copy of each string.
pub fn copy_strings(strings: &Vec<String>) -> (r: Vec<String>)
    ensures
        text::views(r@) == text::views(strings@),
{
    let mut out: Vec<String> = Vec::new();
    let mut i: usize = 0;
    while i < strings.len()
        invariant
            i <= strings@.len(),
            out@.len() == i,
            forall|j: int| 0 <= j < i ==> #[trigger] out@[j]@ == strings@[j]@,
        decreases strings@.len() - i,
    {
        out.push(strings[i].clone());
        i = i + 1;
    }
    assert(text::views(out@) =~= text::views(strings@));
    out
}

/// A copy of an optional string.
pub fn copy_optional(string: &Option<String>) -> (r: Option<String>)
    ensures
        optional_view(r) == optional_view(*string),
{
    match string {
        Some(s) => Some(s.clone()),
        None => None,
    }
}

impl Clone for DiffHunk {
    fn clone(&self) -> (r: Self)
        ensures
            r@ == self@,
    {
        DiffHunk {
            file: self.file.clone(),
            old_file: self.old_file.clone(),
            new_file: self.new_file.clone(),
            file_header: self.file_header.clone(),
            header: self.header.clone(),
            lines: copy_strings(&self.lines),
            unsupported_metadata: copy_optional(&self.unsupported_metadata),
        }
    }
}

/// A body line that the change adds.
pub open spec fn is_added(line: Seq<char>) -> bool {
    line.len() > 0 && line[0] == '+'
}

/// A body line that the change removes.
pub open spec fn is_removed(line: Seq<char>) -> bool {
    line.len() > 0 && line[0] == '-'
}

/// A body line that the change adds or removes.
pub open spec fn is_change(line: Seq<char>) -> bool {
    is_added(line) || is_removed(line)
}

/// The text of a body line behind the mark that says what becomes of it.
pub open spec fn content(line: Seq<char>) -> Seq<char> {
    if is_change(line) || (line.len() > 0 && line[0] == ' ') {
        line.drop_first()
    } else {
        line
    }
}

/// The text that a body expects to find: its context and what it removes.
pub open spec fn old_side(lines: Seq<Seq<char>>) -> Seq<Seq<char>>
    decreases lines.len(),
{
    if lines.len() == 0 {
        Seq::empty()
    } else if is_added(lines.last()) {
        old_side(lines.drop_last())
    } else {
        old_side(lines.drop_last()).push(content(lines.last()))
    }
}

/// The text that a body leaves behind: its context and what it adds.
pub open spec fn new_side(lines: Seq<Seq<char>>) -> Seq<Seq<char>>
    decreases lines.len(),
{
    if lines.len() == 0 {
        Seq::empty()
    } else if is_removed(lines.last()) {
        new_side(lines.drop_last())
    } else {
        new_side(lines.drop_last()).push(content(lines.last()))
    }
}

/// The first character of a line.
pub open spec fn mark_of(line: Seq<char>) -> Option<char> {
    if line.len() > 0 {
        Some(line[0])
    } else {
        None
    }
}

/// The first character of a line.
pub fn mark(line: &str) -> (r: Option<char>)
    ensures
        r == mark_of(line@),
{
    let mut cs = line.chars();
    cs.next()
}

/// Tells whether the change adds or removes the line.
pub fn changes(line: &str) -> (r: bool)
    ensures
        r == is_change(line@),
{
    match mark(line) {
        Some(c) => c == '+' || c == '-',
        None => false,
    }
}

/// Tells whether the change adds the line.
pub fn adds(line: &str) -> (r: bool)
    ensures
        r == is_added(line@),
{
    match mark(line) {
        Some(c) => c == '+',
        None => false,
    }
}

/// Tells whether the change removes the line.
pub fn removes(line: &str) -> (r: bool)
    ensures
        r == is_removed(line@),
{
    match mark(line) {
        Some(c) => c == '-',
        None => false,
    }
}

} // verus!
