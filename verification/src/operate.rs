//! The jj commands that move selected hunks: what each is called with and the patch that it is
//! given.
use crate::diff;
use crate::hunk;
use crate::hunk::{DiffHunk, HunkView};
use crate::patch;
use crate::patch::{HunkSpec, PatchError, PatchErrorView, SpecView};
use crate::selection;
use crate::text;
use vstd::prelude::*;

verus! {

/// How the handler that jj calls transforms the directory on the right.
#[derive(Debug, Clone, Copy, PartialEq, Eq, Structural)]
pub enum ApplyMode {
    /// Reset it to the left one, then apply the patch (split, squash, restore, absorb).
    Reset,
    /// Apply the patch to it as it is (diffedit). Changes that a text patch cannot carry (binary
    /// files, renames, mode changes) stay untouched.
    InPlace,
}

/// A jj command to run with a patch for the handler.
#[derive(Debug, PartialEq, Eq)]
pub struct JjRun {
    pub args: Vec<String>,
    pub patch: String,
    pub mode: ApplyMode,
}

/// What a [`JjRun`] holds.
#[verifier::ext_equal]
pub struct RunView {
    pub args: Seq<Seq<char>>,
    pub patch: Seq<char>,
    pub mode: ApplyMode,
}

impl View for JjRun {
    type V = RunView;

    open spec fn view(&self) -> RunView {
        RunView { args: text::views(self.args@), patch: self.patch@, mode: self.mode }
    }
}

/// Why an operation on hunks cannot be run.
#[derive(Debug, PartialEq, Eq)]
pub enum ToolError {
    /// Nothing is selected.
    NoHunks,
    /// No patch can be built from what is selected.
    Patch(PatchError),
    /// No patch can be built that removes what is not selected.
    CannotRemove(PatchError),
}

/// What a [`ToolError`] holds.
pub enum ToolErrorView {
    NoHunks,
    Patch(PatchErrorView),
    CannotRemove(PatchErrorView),
}

impl View for ToolError {
    type V = ToolErrorView;

    open spec fn view(&self) -> ToolErrorView {
        match self {
            ToolError::NoHunks => ToolErrorView::NoHunks,
            ToolError::Patch(e) => ToolErrorView::Patch(e@),
            ToolError::CannotRemove(e) => ToolErrorView::CannotRemove(e@),
        }
    }
}

impl ToolErrorView {
    /// The message of the error; what caused it comes apart.
    pub open spec fn message(self) -> Seq<char> {
        match self {
            ToolErrorView::NoHunks => "no hunks selected"@,
            ToolErrorView::Patch(e) => e.message(),
            ToolErrorView::CannotRemove(_) => "cannot remove unselected hunk"@,
        }
    }
}

impl ToolError {
    /// The message of the error; what caused it comes apart.
    pub fn message(&self) -> (r: String)
        ensures
            r@ == self@.message(),
    {
        match self {
            ToolError::NoHunks => "no hunks selected".to_string(),
            ToolError::Patch(e) => e.message(),
            ToolError::CannotRemove(_) => "cannot remove unselected hunk".to_string(),
        }
    }
}

/// What a run or an error holds.
pub open spec fn run_view(r: Result<JjRun, ToolError>) -> Result<RunView, ToolErrorView> {
    match r {
        Ok(run) => Ok(run@),
        Err(e) => Err(e@),
    }
}

/// What a run, if any, or an error holds.
pub open spec fn optional_run_view(r: Result<Option<JjRun>, ToolError>) -> Result<
    Option<RunView>,
    ToolErrorView,
> {
    match r {
        Ok(Some(run)) => Ok(Some(run@)),
        Ok(None) => Ok(None),
        Err(e) => Err(e@),
    }
}

/// The run with this patch, unless it is empty.
pub open spec fn run_with(
    args: Seq<Seq<char>>,
    patch: Result<Seq<char>, PatchErrorView>,
    mode: ApplyMode,
) -> Result<RunView, ToolErrorView> {
    match patch {
        Ok(patch) => if patch.len() == 0 {
            Err(ToolErrorView::NoHunks)
        } else {
            Ok(RunView { args, patch, mode })
        },
        Err(e) => Err(ToolErrorView::Patch(e)),
    }
}

/// The command `name` with these arguments behind it.
fn command(name: &str, more: &[&str]) -> (r: Vec<String>)
    ensures
        text::views(r@) == seq![name@] + text::str_views(more@),
{
    let mut args: Vec<String> = Vec::new();
    text::push_text(&mut args, name);
    assert(text::views(args@) =~= seq![name@]);
    text::push_texts(&mut args, more);
    args
}

/// The run with a patch that was built, unless it is empty.
fn run_of(
    args: Vec<String>,
    patch: Result<String, PatchError>,
    mode: ApplyMode,
) -> (r: Result<JjRun, ToolError>)
    ensures
        run_view(r) == run_with(
            text::views(args@),
            patch::patch_view(patch),
            mode,
        ),
{
    match patch {
        Ok(patch) => if patch.as_str().is_empty() {
            Err(ToolError::NoHunks)
        } else {
            Ok(JjRun { args, patch, mode })
        },
        Err(e) => Err(ToolError::Patch(e)),
    }
}

/// The arguments for splitting.
pub open spec fn split_args(
    revision: Option<Seq<char>>,
    message: Option<Seq<char>>,
    parallel: bool,
    extra: Seq<Seq<char>>,
) -> Seq<Seq<char>> {
    seq!["split"@] + (match revision {
        Some(revision) => seq!["-r"@, revision],
        None => Seq::empty(),
    }) + (match message {
        Some(message) => seq!["-m"@, message],
        None => Seq::empty(),
    }) + (if parallel {
        seq!["--parallel"@]
    } else {
        Seq::empty()
    }) + extra
}

/// What splitting runs.
pub open spec fn split_run(
    specs: Seq<SpecView>,
    revision: Option<Seq<char>>,
    message: Option<Seq<char>>,
    parallel: bool,
    extra: Seq<Seq<char>>,
) -> Result<RunView, ToolErrorView> {
    run_with(
        split_args(revision, message, parallel, extra),
        patch::combined_patch(specs, false),
        ApplyMode::Reset,
    )
}

/// What squashing runs.
pub open spec fn squash_hunks_run(
    specs: Seq<SpecView>,
    extra: Seq<Seq<char>>,
) -> Result<RunView, ToolErrorView> {
    run_with(seq!["squash"@] + extra, patch::combined_patch(specs, false), ApplyMode::Reset)
}

/// What restoring runs.
pub open spec fn restore_run(
    specs: Seq<SpecView>,
    extra: Seq<Seq<char>>,
) -> Result<RunView, ToolErrorView> {
    run_with(seq!["restore"@] + extra, patch::combined_patch(specs, true), ApplyMode::Reset)
}

/// Splits selected hunks out of a revision.
pub fn split_hunks(
    specs: &[HunkSpec<'_>],
    revision: Option<&str>,
    message: Option<&str>,
    parallel: bool,
    extra_args: &[&str],
) -> (r: Result<JjRun, ToolError>)
    ensures
        run_view(r) == split_run(
            patch::spec_views(specs@),
            text::text_in(revision),
            text::text_in(message),
            parallel,
            text::str_views(extra_args@),
        ),
{
    let patch = patch::build_combined_patch(specs, false);
    let mut args: Vec<String> = Vec::new();
    text::push_text(&mut args, "split");
    assert(text::views(args@) =~= seq!["split"@]);
    if let Some(rev) = revision {
        text::push_text(&mut args, "-r");
        text::push_text(&mut args, rev);
    }
    if let Some(msg) = message {
        text::push_text(&mut args, "-m");
        text::push_text(&mut args, msg);
    }
    if parallel {
        text::push_text(&mut args, "--parallel");
    }
    text::push_texts(&mut args, extra_args);
    assert(text::views(args@) =~= split_args(
        text::text_in(revision),
        text::text_in(message),
        parallel,
        text::str_views(extra_args@),
    ));
    run_of(args, patch, ApplyMode::Reset)
}

/// Squashes selected hunks from source into destination.
pub fn squash_hunks(specs: &[HunkSpec<'_>], extra_args: &[&str]) -> (r: Result<JjRun, ToolError>)
    ensures
        run_view(r) == squash_hunks_run(
            patch::spec_views(specs@),
            text::str_views(extra_args@),
        ),
{
    let patch = patch::build_combined_patch(specs, false);
    run_of(command("squash", extra_args), patch, ApplyMode::Reset)
}

/// Restores (undoes) selected hunks. The caller gives the arguments that say what is restored.
///
/// jj hands the handler the destination's current state on the left; the reversed patch applied
/// on top of it undoes the selected hunks.
pub fn restore_hunks(
    specs: &[HunkSpec<'_>],
    jj_extra_args: &[&str],
) -> (r: Result<JjRun, ToolError>)
    ensures
        run_view(r) == restore_run(patch::spec_views(specs@), text::str_views(jj_extra_args@)),
{
    let patch = patch::build_combined_patch(specs, true);
    run_of(command("restore", jj_extra_args), patch, ApplyMode::Reset)
}

/// What keeping only the selected hunks runs: a removal of what the selection leaves over, or
/// nothing where it leaves nothing.
pub open spec fn diffedit_run(
    identified: Seq<(Seq<char>, HunkView)>,
    selected: Seq<SpecView>,
    extra: Seq<Seq<char>>,
) -> Result<Option<RunView>, ToolErrorView> {
    if selected.len() == 0 {
        Err(ToolErrorView::NoHunks)
    } else {
        match patch::combined_patch(selection::leftovers(identified, selected), true) {
            Ok(patch) => if patch.len() == 0 {
                Ok(None)
            } else {
                Ok(
                    Some(
                        RunView {
                            args: seq!["diffedit"@] + extra,
                            patch,
                            mode: ApplyMode::InPlace,
                        },
                    ),
                )
            },
            Err(e) => Err(ToolErrorView::CannotRemove(e)),
        }
    }
}

/// Rewrites a revision in place, keeping only the selected hunks. `None` says that all are kept
/// and there is nothing to run.
///
/// Rather than rebuilding the revision from its base, which would silently delete changes that a
/// text patch cannot carry (binary files, renames, mode changes), this removes the unselected
/// hunks from the revision's current state. Unselected hunks that cannot be removed (such as
/// those with a mode change) fail closed with an error.
pub fn diffedit_hunks(
    identified: &[(String, &DiffHunk)],
    selected: &[HunkSpec<'_>],
    jj_extra_args: &[&str],
) -> (r: Result<Option<JjRun>, ToolError>)
    ensures
        optional_run_view(r) == diffedit_run(
            selection::identified_views(identified@),
            patch::spec_views(selected@),
            text::str_views(jj_extra_args@),
        ),
{
    if selected.len() == 0 {
        return Err(ToolError::NoHunks);
    }
    let removal = selection::complement_specs(identified, selected);
    match patch::build_combined_patch(removal.as_slice(), true) {
        Ok(patch) => if patch.as_str().is_empty() {
            Ok(None)
        } else {
            Ok(
                Some(
                    JjRun {
                        args: command("diffedit", jj_extra_args),
                        patch,
                        mode: ApplyMode::InPlace,
                    },
                ),
            )
        },
        Err(e) => Err(ToolError::CannotRemove(e)),
    }
}

// ---------------------------------------------------------------------------------------------
// Calling jj with the handler
// ---------------------------------------------------------------------------------------------

/// How `std` writes a text with `{:?}`: in double quotes, with escapes.
pub uninterp spec fn quoted(text: Seq<char>) -> Seq<char>;

/// A text of printable ASCII characters without quotes and backslashes.
pub open spec fn needs_no_escape(text: Seq<char>) -> bool {
    forall|i: int|
        0 <= i < text.len() ==> ' ' <= (#[trigger] text[i]) <= '~' && text[i] != '"' && text[i]
            != '\'' && text[i] != '\\'
}

/// A text in quotes, given how one that needs escapes is written.
pub open spec fn in_quotes(text: Seq<char>, escaped: Seq<char>) -> Seq<char> {
    if needs_no_escape(text) {
        seq!['"'] + text + seq!['"']
    } else {
        escaped
    }
}

/// `std::fmt::Debug` of a `str`: the text in double quotes, with escapes where it needs any.
#[verifier::external_body]
fn quote(text: &str) -> (r: String)
    ensures
        r@ == in_quotes(text@, quoted(text@)),
{
    format!("{text:?}")
}

/// The arguments that make jj run a handler, behind those of the command. `program` is the path of
/// the handler, in quotes.
pub open spec fn tool_args(args: Seq<Seq<char>>, program: Seq<char>) -> Seq<Seq<char>> {
    args + seq![
        "--config"@,
        "ui.editor=\"true\""@,
        "--config"@,
        "merge-tools.jj-hunk-tool.program="@ + program,
        "--config"@,
        "merge-tools.jj-hunk-tool.edit-args=[\"_jj-tool\", \"$left\", \"$right\"]"@,
        "--tool"@,
        "jj-hunk-tool"@,
    ]
}

/// Adds the arguments that make jj run a handler, configured inline. `program` is the path of the
/// handler, in quotes.
pub fn with_program(args: &Vec<String>, program: &str) -> (r: Vec<String>)
    ensures
        text::views(r@) == tool_args(text::views(args@), program@),
{
    let mut setting = "merge-tools.jj-hunk-tool.program=".to_string();
    setting.append(program);
    let mut all = hunk::copy_strings(args);
    text::push_texts(
        &mut all,
        &[
            "--config",
            "ui.editor=\"true\"",
            "--config",
            &setting,
            "--config",
            "merge-tools.jj-hunk-tool.edit-args=[\"_jj-tool\", \"$left\", \"$right\"]",
            "--tool",
            "jj-hunk-tool",
        ],
    );
    assert(text::views(all@) =~= tool_args(text::views(args@), program@));
    all
}

/// Adds the arguments that make jj run the handler at `exe`, configured inline.
pub fn with_tool(args: &Vec<String>, exe: &str) -> (r: Vec<String>)
    ensures
        text::views(r@) == tool_args(text::views(args@), in_quotes(exe@, quoted(exe@))),
{
    with_program(args, &quote(exe))
}

// ---------------------------------------------------------------------------------------------
// Files to delete
// ---------------------------------------------------------------------------------------------

/// The old paths of the hunks whose new file is not there.
pub open spec fn vanished(hunks: Seq<HunkView>) -> Seq<Seq<char>>
    decreases hunks.len(),
{
    if hunks.len() == 0 {
        Seq::empty()
    } else if diff::dev_null(hunks.last().new_file) {
        vanished(hunks.drop_last()).push(hunks.last().old_file)
    } else {
        vanished(hunks.drop_last())
    }
}

/// The files that a patch marks as deleted. Applying a patch leaves such a file empty rather than
/// deleted, so the handler removes it.
pub fn deleted_files(patch: &str) -> (r: Vec<String>)
    ensures
        text::views(r@) == vanished(diff::hunks_of(patch@)),
{
    let hunks = diff::parse_diff(patch);
    let ghost all = hunk::hunk_views(hunks@);
    let mut out: Vec<String> = Vec::new();
    let mut i: usize = 0;
    assert(text::views(out@) =~= vanished(all.take(0)));
    while i < hunks.len()
        invariant
            i <= hunks@.len(),
            all == hunk::hunk_views(hunks@),
            text::views(out@) == vanished(all.take(i as int)),
        decreases hunks@.len() - i,
    {
        proof {
            assert(all.take(i + 1).drop_last() =~= all.take(i as int));
            assert(all.take(i + 1).last() == all[i as int]);
        }
        if diff::is_dev_null(&hunks[i].new_file) {
            text::push_text(&mut out, &hunks[i].old_file);
        }
        i = i + 1;
    }
    assert(all.take(i as int) =~= all);
    out
}

} // verus!
