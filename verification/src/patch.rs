//! Building patches from selected hunks, forwards and in reverse.
use crate::diff;
use crate::header;
use crate::hunk;
use crate::hunk::{copy_optional, DiffHunk, HunkView};
use crate::ranges;
use crate::surgeon;
use crate::text;
use vstd::prelude::*;

verus! {

/// A selected hunk: its id, the hunk, and the line ranges to take of it; no ranges stand for the
/// whole hunk.
pub type HunkSpec<'a> = (&'a str, &'a DiffHunk, Vec<(usize, usize)>);

/// What a [`HunkSpec`] holds.
#[verifier::ext_equal]
pub struct SpecView {
    pub id: Seq<char>,
    pub hunk: HunkView,
    pub ranges: Seq<(usize, usize)>,
}

/// What a selected hunk holds.
pub open spec fn spec_view(spec: HunkSpec<'_>) -> SpecView {
    SpecView { id: spec.0@, hunk: spec.1@, ranges: spec.2@ }
}

/// What the selected hunks of a sequence hold.
pub open spec fn spec_views(specs: Seq<HunkSpec<'_>>) -> Seq<SpecView> {
    Seq::new(specs.len(), |i: int| spec_view(specs[i]))
}

/// Why no patch can be built from a selection.
#[derive(Debug, PartialEq, Eq)]
pub enum PatchError {
    /// A hunk belongs to a change that a text patch cannot carry.
    Unsupported(String),
    /// A hunk cannot be cut down, for its `@@` line cannot be read.
    BadHeader(String),
}

/// What a [`PatchError`] holds.
pub enum PatchErrorView {
    Unsupported(Seq<char>),
    BadHeader(Seq<char>),
}

impl View for PatchError {
    type V = PatchErrorView;

    open spec fn view(&self) -> PatchErrorView {
        match self {
            PatchError::Unsupported(message) => PatchErrorView::Unsupported(message@),
            PatchError::BadHeader(message) => PatchErrorView::BadHeader(message@),
        }
    }
}

impl PatchErrorView {
    /// The message of the error.
    pub open spec fn message(self) -> Seq<char> {
        match self {
            PatchErrorView::Unsupported(message) => message,
            PatchErrorView::BadHeader(message) => message,
        }
    }
}

impl PatchError {
    /// The message of the error.
    pub fn message(&self) -> (r: String)
        ensures
            r@ == self@.message(),
    {
        match self {
            PatchError::Unsupported(message) => message.clone(),
            PatchError::BadHeader(message) => message.clone(),
        }
    }
}

/// What a patch or an error holds.
pub open spec fn patch_view(r: Result<String, PatchError>) -> Result<Seq<char>, PatchErrorView> {
    match r {
        Ok(patch) => Ok(patch@),
        Err(e) => Err(e@),
    }
}

// ---------------------------------------------------------------------------------------------
// Reversing
// ---------------------------------------------------------------------------------------------

/// An added line as a removed one and the other way round; any other line as it is.
pub open spec fn reversed_line(line: Seq<char>) -> Seq<char> {
    if hunk::is_added(line) {
        seq!['-'] + line.drop_first()
    } else if hunk::is_removed(line) {
        seq!['+'] + line.drop_first()
    } else {
        line
    }
}

/// Each line reversed.
pub open spec fn reversed_lines(lines: Seq<Seq<char>>) -> Seq<Seq<char>> {
    Seq::new(lines.len(), |i: int| reversed_line(lines[i]))
}

/// The `---` line for a path.
pub open spec fn old_path_line(path: Seq<char>) -> Seq<char> {
    if diff::dev_null(path) {
        "--- /dev/null"@
    } else {
        "--- a/"@ + path
    }
}

/// The `+++` line for a path.
pub open spec fn new_path_line(path: Seq<char>) -> Seq<char> {
    if diff::dev_null(path) {
        "+++ /dev/null"@
    } else {
        "+++ b/"@ + path
    }
}

/// The two path lines for these paths.
pub open spec fn path_lines(old: Seq<char>, new: Seq<char>) -> Seq<char> {
    old_path_line(old) + seq!['\n'] + new_path_line(new)
}

/// The hunk with its two sides swapped.
pub open spec fn reversed_hunk(hunk: HunkView) -> HunkView {
    HunkView {
        file: hunk.file,
        old_file: hunk.new_file,
        new_file: hunk.old_file,
        file_header: path_lines(hunk.new_file, hunk.old_file),
        header: header::reversed_header(hunk.header),
        lines: reversed_lines(hunk.lines),
        unsupported_metadata: hunk.unsupported_metadata,
    }
}

/// `text` with `front` in front.
fn prefixed(front: &str, text: &str) -> (r: String)
    ensures
        r@ == front@ + text@,
{
    let mut out = String::new();
    out.append(front);
    out.append(text);
    assert(out@ =~= front@ + text@);
    out
}

/// Reverses a body line.
fn reverse_line(line: &str) -> (r: String)
    ensures
        r@ == reversed_line(line@),
{
    proof {
        reveal_strlit("+");
        reveal_strlit("-");
        assert("+"@ =~= seq!['+']);
        assert("-"@ =~= seq!['-']);
    }
    if hunk::adds(line) {
        let rest = line.substring_char(1, line.unicode_len());
        assert(rest@ =~= line@.drop_first());
        prefixed("-", rest)
    } else if hunk::removes(line) {
        let rest = line.substring_char(1, line.unicode_len());
        assert(rest@ =~= line@.drop_first());
        prefixed("+", rest)
    } else {
        line.to_string()
    }
}

/// Flips a hunk so that applying it forward undoes the original change.
pub fn reverse_hunk(hunk: &DiffHunk) -> (r: DiffHunk)
    ensures
        r@ == reversed_hunk(hunk@),
{
    let mut lines: Vec<String> = Vec::new();
    let mut i: usize = 0;
    while i < hunk.lines.len()
        invariant
            i <= hunk.lines@.len(),
            lines@.len() == i,
            forall|j: int| 0 <= j < i ==> #[trigger] lines@[j]@ == reversed_line(hunk.lines@[j]@),
        decreases hunk.lines@.len() - i,
    {
        lines.push(reverse_line(&hunk.lines[i]));
        i = i + 1;
    }
    let mut file_header = if diff::is_dev_null(&hunk.new_file) {
        "--- /dev/null".to_string()
    } else {
        prefixed("--- a/", &hunk.new_file)
    };
    let new_side = if diff::is_dev_null(&hunk.old_file) {
        "+++ /dev/null".to_string()
    } else {
        prefixed("+++ b/", &hunk.old_file)
    };
    file_header.push('\n');
    file_header.append(&new_side);
    let r = DiffHunk {
        file: hunk.file.clone(),
        old_file: hunk.new_file.clone(),
        new_file: hunk.old_file.clone(),
        file_header,
        header: header::reverse_header(&hunk.header),
        lines,
        unsupported_metadata: copy_optional(&hunk.unsupported_metadata),
    };
    assert(r@ =~= reversed_hunk(hunk@));
    r
}

// ---------------------------------------------------------------------------------------------
// Patches
// ---------------------------------------------------------------------------------------------

/// The patch for a hunk that has been cut down already, forwards or in reverse.
pub open spec fn directed_patch(hunk: HunkView, reverse: bool) -> Seq<char> {
    surgeon::patch_text(
        if reverse {
            reversed_hunk(hunk)
        } else {
            hunk
        },
    )
}

/// The patch for a hunk that has been cut down already, forwards or in reverse.
pub fn build_directed_patch(hunk: DiffHunk, reverse: bool) -> (r: String)
    ensures
        r@ == directed_patch(hunk@, reverse),
{
    if reverse {
        surgeon::build_patch(reverse_hunk(&hunk))
    } else {
        surgeon::build_patch(hunk)
    }
}

/// The patch for one selected hunk.
pub open spec fn single_patch(spec: SpecView, reverse: bool) -> Result<Seq<char>, PatchErrorView> {
    match spec.hunk.unsupported_metadata {
        Some(metadata) => Err(
            PatchErrorView::Unsupported(surgeon::unsupported_message(spec.id, metadata)),
        ),
        None => if spec.ranges.len() == 0 {
            Ok(directed_patch(spec.hunk, reverse))
        } else {
            match surgeon::sliced_hunk(spec.hunk, spec.ranges, reverse) {
                Ok(sliced) => Ok(directed_patch(sliced, reverse)),
                Err(message) => Err(PatchErrorView::BadHeader(message)),
            }
        },
    }
}

/// The patches for the selected hunks, one behind the other, or the first error.
pub open spec fn combined_patch(
    specs: Seq<SpecView>,
    reverse: bool,
) -> Result<Seq<char>, PatchErrorView>
    decreases specs.len(),
{
    if specs.len() == 0 {
        Ok(Seq::empty())
    } else {
        match combined_patch(specs.drop_last(), reverse) {
            Ok(front) => match single_patch(specs.last(), reverse) {
                Ok(patch) => Ok(front + patch),
                Err(e) => Err(e),
            },
            Err(e) => Err(e),
        }
    }
}

/// An error in a front part is the error of the whole.
proof fn lemma_first_error(specs: Seq<SpecView>, n: int, reverse: bool)
    requires
        0 <= n <= specs.len(),
        combined_patch(specs.take(n), reverse) is Err,
    ensures
        combined_patch(specs, reverse) == combined_patch(specs.take(n), reverse),
    decreases specs.len() - n,
{
    if n < specs.len() {
        assert(specs.take(n + 1).drop_last() =~= specs.take(n));
        lemma_first_error(specs, n + 1, reverse);
    } else {
        assert(specs.take(n) =~= specs);
    }
}

/// Builds the patch for one selected hunk.
fn build_single_patch(spec: &HunkSpec<'_>, reverse: bool) -> (r: Result<String, PatchError>)
    ensures
        patch_view(r) == single_patch(spec_view(*spec), reverse),
{
    match surgeon::check_supported(spec.1.clone(), spec.0) {
        Ok(()) => {},
        Err(message) => {
            return Err(PatchError::Unsupported(message));
        },
    }
    let hunk = if spec.2.len() > 0 {
        match surgeon::slice_hunk_multi(spec.1.clone(), spec.2.as_slice(), reverse) {
            Ok(sliced) => sliced,
            Err(message) => {
                return Err(PatchError::BadHeader(message));
            },
        }
    } else {
        spec.1.clone()
    };
    Ok(build_directed_patch(hunk, reverse))
}

/// Builds a combined patch from selected hunks with optional line ranges.
/// With `reverse`, the patch undoes the selected changes when applied forward to the state that
/// contains them.
pub fn build_combined_patch(specs: &[HunkSpec<'_>], reverse: bool) -> (r: Result<
    String,
    PatchError,
>)
    ensures
        patch_view(r) == combined_patch(spec_views(specs@), reverse),
{
    let mut combined = String::new();
    let mut i: usize = 0;
    let ghost all = spec_views(specs@);
    assert(all.take(0) =~= Seq::empty());
    while i < specs.len()
        invariant
            i <= specs@.len(),
            all == spec_views(specs@),
            combined_patch(all.take(i as int), reverse) == Ok::<Seq<char>, PatchErrorView>(
                combined@,
            ),
        decreases specs@.len() - i,
    {
        proof {
            assert(all.take(i + 1).drop_last() =~= all.take(i as int));
            assert(all.take(i + 1).last() == spec_view(specs@[i as int]));
        }
        match build_single_patch(&specs[i], reverse) {
            Ok(patch) => {
                combined.append(&patch);
            },
            Err(e) => {
                proof {
                    lemma_first_error(all, i + 1, reverse);
                }
                return Err(e);
            },
        }
        i = i + 1;
    }
    assert(all.take(i as int) =~= all);
    Ok(combined)
}

} // verus!
