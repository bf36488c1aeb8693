//! How what is asked for ends up in the commands that jj is given, and in what is read of its
//! replies.
use crate::hunk::HunkView;
use crate::jj;
use crate::jj::{JjErrorView, JjReply};
use crate::operate;
use crate::operate::{ApplyMode, RunView, ToolErrorView};
use crate::operate_laws;
use crate::patch;
use crate::patch::{PatchErrorView, SpecView};
use crate::roundtrip;
use crate::selection;
use crate::text;
use vstd::prelude::*;

verus! {

// ---------------------------------------------------------------------------------------------
// Splitting
// ---------------------------------------------------------------------------------------------

/// A revision that is given stands behind `-r`, right behind the command, and nothing else
/// changes: whatever the message and the other arguments are.
pub proof fn law_split_names_the_revision(
    revision: Seq<char>,
    message: Option<Seq<char>>,
    parallel: bool,
    extra: Seq<Seq<char>>,
)
    ensures
        ({
            let with = operate::split_args(Some(revision), message, parallel, extra);
            let without = operate::split_args(None, message, parallel, extra);
            &&& with == seq!["split"@, "-r"@, revision] + without.skip(1)
            &&& without[0] == "split"@
            &&& with.len() == without.len() + 2
        }),
{
    let with = operate::split_args(Some(revision), message, parallel, extra);
    let without = operate::split_args(None, message, parallel, extra);
    assert(with =~= seq!["split"@, "-r"@, revision] + without.skip(1));
}

/// A message that is given stands behind `-m`, behind the revision, and nothing else changes:
/// whatever the revision and the other arguments are.
pub proof fn law_split_carries_the_message(
    revision: Option<Seq<char>>,
    message: Seq<char>,
    parallel: bool,
    extra: Seq<Seq<char>>,
)
    ensures
        ({
            let with = operate::split_args(revision, Some(message), parallel, extra);
            let without = operate::split_args(revision, None, parallel, extra);
            let n: int = if revision is Some {
                3
            } else {
                1
            };
            &&& with == without.take(n) + seq!["-m"@, message] + without.skip(n)
            &&& with.len() == without.len() + 2
        }),
{
    let with = operate::split_args(revision, Some(message), parallel, extra);
    let without = operate::split_args(revision, None, parallel, extra);
    let n: int = if revision is Some {
        3
    } else {
        1
    };
    assert(with =~= without.take(n) + seq!["-m"@, message] + without.skip(n));
}

/// `--parallel` stands behind the revision and the message exactly where it is asked for, and
/// further arguments stand at the end, all of them and in order.
pub proof fn law_split_ends_with_the_rest(
    revision: Option<Seq<char>>,
    message: Option<Seq<char>>,
    extra: Seq<Seq<char>>,
)
    ensures
        ({
            let bare = operate::split_args(revision, message, false, Seq::empty());
            &&& operate::split_args(revision, message, true, extra) == bare + seq!["--parallel"@]
                + extra
            &&& operate::split_args(revision, message, false, extra) == bare + extra
            &&& operate::split_args(None, None, false, Seq::empty()) == seq!["split"@]
        }),
{
    let bare = operate::split_args(revision, message, false, Seq::empty());
    assert(operate::split_args(revision, message, true, extra) =~= bare + seq!["--parallel"@]
        + extra);
    assert(operate::split_args(revision, message, false, extra) =~= bare + extra);
    assert(operate::split_args(None, None, false, Seq::empty()) =~= seq!["split"@]);
}

/// Every argument for splitting in its place: the command, the revision, the message, whether the
/// parts are parallel, and the further arguments.
pub proof fn law_split_arguments(
    revision: Option<Seq<char>>,
    message: Option<Seq<char>>,
    parallel: bool,
    extra: Seq<Seq<char>>,
)
    ensures
        ({
            let args = operate::split_args(revision, message, parallel, extra);
            let m: int = if revision is Some {
                3
            } else {
                1
            };
            let p: int = if message is Some {
                m + 2
            } else {
                m
            };
            let e: int = if parallel {
                p + 1
            } else {
                p
            };
            &&& args.len() == e + extra.len()
            &&& args[0] == "split"@
            &&& revision matches Some(id) ==> args[1] == "-r"@ && args[2] == id
            &&& message matches Some(words) ==> args[m] == "-m"@ && args[m + 1] == words
            &&& parallel ==> args[p] == "--parallel"@
            &&& forall|i: int| 0 <= i < extra.len() ==> args[e + i] == #[trigger] extra[i]
        }),
{
    law_split_ends_with_the_rest(revision, message, extra);
    let bare = operate::split_args(revision, message, false, Seq::empty());
    let args = operate::split_args(revision, message, parallel, extra);
    assert(bare.len() <= args.len());
}

// ---------------------------------------------------------------------------------------------
// Other runs
// ---------------------------------------------------------------------------------------------

/// Splitting and squashing run with the patch that does what is selected, restoring with the one
/// that undoes it; all three start over from the left side, each is refused for want of hunks
/// exactly where none are selected, and for what stops the patch otherwise.
pub proof fn law_runs_of_selections(
    specs: Seq<SpecView>,
    revision: Option<Seq<char>>,
    message: Option<Seq<char>>,
    parallel: bool,
    extra: Seq<Seq<char>>,
)
    ensures
        ({
            let split = operate::split_run(specs, revision, message, parallel, extra);
            let squash = operate::squash_hunks_run(specs, extra);
            let restore = operate::restore_run(specs, extra);
            let done = patch::combined_patch(specs, false);
            let undone = patch::combined_patch(specs, true);
            &&& does_or_tells(
                split,
                specs,
                done,
                operate::split_args(revision, message, parallel, extra),
            )
            &&& does_or_tells(squash, specs, done, seq!["squash"@] + extra)
            &&& does_or_tells(restore, specs, undone, seq!["restore"@] + extra)
        }),
{
    if patch::combined_patch(specs, false) is Ok {
        operate_laws::law_patch_is_empty_iff_nothing_is_selected(specs, false);
    }
    if patch::combined_patch(specs, true) is Ok {
        operate_laws::law_patch_is_empty_iff_nothing_is_selected(specs, true);
    }
}

/// A run of a selection has these arguments and this patch; without one, it is said why.
pub open spec fn does_or_tells(
    outcome: Result<RunView, ToolErrorView>,
    specs: Seq<SpecView>,
    patch: Result<Seq<char>, PatchErrorView>,
    args: Seq<Seq<char>>,
) -> bool {
    match patch {
        Ok(text) => if specs.len() > 0 {
            outcome matches Ok(run) && run.args == args && run.patch == text && run.mode
                == ApplyMode::Reset
        } else {
            outcome matches Err(ToolErrorView::NoHunks)
        },
        Err(reason) => outcome matches Err(ToolErrorView::Patch(e)) && e == reason,
    }
}

/// A run has the arguments and the patch that it is given, and comes about exactly where there is
/// a patch with something in it.
pub proof fn law_run(
    args: Seq<Seq<char>>,
    patch: Result<Seq<char>, PatchErrorView>,
    mode: ApplyMode,
)
    ensures
        match patch {
            Ok(text) => if text.len() > 0 {
                operate::run_with(args, patch, mode) matches Ok(run) && run.args == args
                    && run.patch == text && run.mode == mode
            } else {
                operate::run_with(args, patch, mode) matches Err(e) && e.message()
                    == "no hunks selected"@
            },
            Err(reason) => operate::run_with(args, patch, mode) matches Err(e) && e.message()
                == reason.message(),
        },
{
}

/// Keeping a selection is run as `diffedit` with the further arguments behind it, on the revision
/// as it is; what stops the removal is handed on.
pub proof fn law_diffedit_arguments(
    identified: Seq<(Seq<char>, HunkView)>,
    selected: Seq<SpecView>,
    extra: Seq<Seq<char>>,
)
    ensures
        match operate::diffedit_run(identified, selected, extra) {
            Ok(Some(run)) => {
                &&& run.args == seq!["diffedit"@] + extra
                &&& run.mode == ApplyMode::InPlace
            },
            Ok(None) => selected.len() > 0,
            Err(ToolErrorView::CannotRemove(e)) => {
                &&& patch::combined_patch(selection::leftovers(identified, selected), true)
                    == Err::<Seq<char>, PatchErrorView>(e)
                &&& ToolErrorView::CannotRemove(e).message() == "cannot remove unselected hunk"@
            },
            Err(e) => selected.len() == 0 && e.message() == "no hunks selected"@,
        },
{
}

/// The arguments that make jj run the handler stand behind those of the command, which stay as
/// they are; they name the program, the two directories that it is given, and the tool.
pub proof fn law_tool_arguments(args: Seq<Seq<char>>, program: Seq<char>)
    ensures
        ({
            let all = operate::tool_args(args, program);
            let n = args.len() as int;
            &&& args.is_prefix_of(all)
            &&& all.len() == n + 8
            &&& all[n] == "--config"@ && all[n + 1] == "ui.editor=\"true\""@
            &&& all[n + 2] == "--config"@ && all[n + 3]
                == "merge-tools.jj-hunk-tool.program="@ + program
            &&& all[n + 4] == "--config"@ && all[n + 5]
                == "merge-tools.jj-hunk-tool.edit-args=[\"_jj-tool\", \"$left\", \"$right\"]"@
            &&& all[n + 6] == "--tool"@ && all[n + 7] == "jj-hunk-tool"@
        }),
{
}

/// The deleted files of hunks one behind the other come one behind the other; a hunk names its old
/// path exactly where its new file is the marker for a missing one.
pub proof fn law_vanished_add(a: Seq<HunkView>, b: Seq<HunkView>)
    ensures
        operate::vanished(a + b) == operate::vanished(a) + operate::vanished(b),
        a.len() == 1 ==> operate::vanished(a) == if a[0].new_file == "/dev/null"@ || a[0].new_file
            == "dev/null"@ {
            seq![a[0].old_file]
        } else {
            Seq::empty()
        },
    decreases b.len(),
{
    if b.len() == 0 {
        assert(a + b =~= a);
        assert(operate::vanished(a) + operate::vanished(b) =~= operate::vanished(a));
    } else {
        law_vanished_add(a, b.drop_last());
        assert((a + b).drop_last() =~= a + b.drop_last());
        assert((a + b).last() == b.last());
        assert(operate::vanished(a + b) =~= operate::vanished(a) + operate::vanished(b));
    }
    if a.len() == 1 {
        assert(a.drop_last() =~= Seq::empty());
        assert(operate::vanished(a.drop_last()) == Seq::<Seq<char>>::empty());
        assert(operate::vanished(a) =~= if a[0].new_file == "/dev/null"@ || a[0].new_file
            == "dev/null"@ {
            seq![a[0].old_file]
        } else {
            Seq::empty()
        });
    }
}

// ---------------------------------------------------------------------------------------------
// Replies
// ---------------------------------------------------------------------------------------------

/// Ancestors are read line by line: an id, a tab and a description make one more, with nothing
/// lost of the description; a line without a tab makes none.
pub proof fn law_ancestors_of_one_more_line(
    lines: Seq<Seq<char>>,
    id: Seq<char>,
    description: Seq<char>,
)
    requires
        forall|i: int| 0 <= i < id.len() ==> #[trigger] id[i] != '\t',
    ensures
        jj::ancestors_of_lines(Seq::empty()) == Seq::<(Seq<char>, Seq<char>)>::empty(),
        jj::ancestors_of_lines(lines.push(id + seq!['\t'] + description))
            == jj::ancestors_of_lines(lines).push((id, description)),
        jj::ancestors_of_lines(lines.push(id)) == jj::ancestors_of_lines(lines),
{
    reveal_strlit("\t");
    let line = id + seq!['\t'] + description;
    let n = id.len() as int;
    assert(lines.push(line).drop_last() =~= lines);
    assert(lines.push(id).drop_last() =~= lines);
    assert(line.subrange(n, n + 1) =~= "\t"@);
    assert forall|j: int| 0 <= j < n implies !#[trigger] text::occurs_at(line, "\t"@, j) by {
        text::lemma_occurs_chars(line, "\t"@, j);
        if text::occurs_at(line, "\t"@, j) {
            let k: int = 0;
            assert(line[j + k] == "\t"@[k]);
            assert(line[j] == id[j]);
        }
    }
    text::lemma_find_is(line, "\t"@, n);
    assert(line.take(n) =~= id);
    assert(line.skip(n + 1) =~= description);
    assert forall|j: int| 0 <= j <= n implies !#[trigger] text::occurs_at(id, "\t"@, j) by {
        text::lemma_occurs_chars(id, "\t"@, j);
        if text::occurs_at(id, "\t"@, j) {
            let k: int = 0;
            assert(id[j + k] == "\t"@[k]);
        }
    }
    text::lemma_find_none(id, "\t"@);
}

/// A reply is read exactly where jj succeeded and wrote UTF-8: as that text, without white space
/// round it, or line by line. Where jj failed, the error names the command and holds what it
/// wrote to standard error.
pub proof fn law_replies(command: Seq<char>, reply: JjReply)
    ensures
        reply.success && vstd::utf8::valid_utf8(reply.stdout@) ==> {
            let text = vstd::utf8::decode_utf8(reply.stdout@);
            &&& jj::reply_text(command, reply) == Ok::<Seq<char>, JjErrorView>(text)
            &&& jj::trimmed_reply(command, reply) == Ok::<Seq<char>, JjErrorView>(
                text::trim(text),
            )
            &&& jj::reply_lines(command, reply) == Ok::<Seq<Seq<char>>, JjErrorView>(
                text::lines(text),
            )
        },
        !reply.success ==> {
            let complaint = if vstd::utf8::valid_utf8(reply.stderr@) {
                vstd::utf8::decode_utf8(reply.stderr@)
            } else {
                jj::lossy_text(reply.stderr@)
            };
            let message = command + " failed: "@ + complaint;
            &&& jj::reply_text(command, reply) matches Err(e) && e.message() == message
            &&& jj::trimmed_reply(command, reply) matches Err(e) && e.message() == message
            &&& jj::reply_lines(command, reply) matches Err(e) && e.message() == message
        },
        reply.success && !vstd::utf8::valid_utf8(reply.stdout@) ==> {
            let message = jj::utf8_complaint(reply.stdout@);
            &&& jj::reply_text(command, reply) matches Err(e) && e.message() == message
            &&& jj::trimmed_reply(command, reply) matches Err(e) && e.message() == message
            &&& jj::reply_lines(command, reply) matches Err(e) && e.message() == message
        },
{
}

/// A diff that is read has the lines that jj wrote, each whole, with the carriage return in front
/// of its line feed.
pub proof fn law_diff_in_reply(reply: JjReply)
    ensures
        reply.success && vstd::utf8::valid_utf8(reply.stdout@) ==> {
            let text = vstd::utf8::decode_utf8(reply.stdout@);
            jj::diff_in_reply(reply) matches Ok(safe) && text::lines(safe) == text::raw_lines(text)
        },
        !(reply.success && vstd::utf8::valid_utf8(reply.stdout@)) ==> (jj::diff_in_reply(reply)
            matches Err(e) && jj::reply_text("jj diff"@, reply) == Err::<Seq<char>, JjErrorView>(e)),
        reply.success && vstd::utf8::valid_utf8(reply.stdout@) ==> jj::ancestors_in_reply(reply)
            == Ok::<Seq<(Seq<char>, Seq<char>)>, JjErrorView>(
            jj::ancestors_of_lines(text::lines(vstd::utf8::decode_utf8(reply.stdout@))),
        ),
        !(reply.success && vstd::utf8::valid_utf8(reply.stdout@)) ==> (jj::ancestors_in_reply(reply)
            matches Err(e) && jj::reply_text("jj log"@, reply) == Err::<Seq<char>, JjErrorView>(e)),
{
    roundtrip::law_protected_lines(vstd::utf8::decode_utf8(reply.stdout@));
}

// ---------------------------------------------------------------------------------------------
// Requests
// ---------------------------------------------------------------------------------------------

/// The diff of a revision is asked for as that of the working copy is, with the revision behind
/// `-r`; that between two revisions names both.
pub proof fn law_diff_requests(revision: Seq<char>, from: Seq<char>, to: Seq<char>)
    ensures
        jj::diff_args(Some(revision)) == jj::diff_args(None) + seq!["-r"@, revision],
        jj::diff_between_args(from, to) == jj::diff_args(None) + seq!["--from"@, from, "--to"@, to],
        jj::diff_args(None) == seq!["diff"@, "--git"@, "--no-pager"@],
{
    assert(jj::diff_args(None) =~= seq!["diff"@, "--git"@, "--no-pager"@]);
    assert(jj::diff_args(Some(revision)) =~= jj::diff_args(None) + seq!["-r"@, revision]);
    assert(jj::diff_between_args(from, to) =~= jj::diff_args(None) + seq![
        "--from"@,
        from,
        "--to"@,
        to,
    ]);
}

/// What is asked about ancestors and files names the whole revision, behind `-r`, and the whole
/// path; requests about other revisions and paths differ in nothing else.
pub proof fn law_requests_name_what_they_ask_about(
    source: Seq<char>,
    file: Seq<char>,
    other: Seq<char>,
    other_file: Seq<char>,
)
    ensures
        ({
            let touching = jj::touching_args(source, file);
            let annotate = jj::annotate_args(source, file);
            let mutable = "immutable_heads()..("@ + source + "-)"@;
            &&& jj::ancestors_args(source)[3] == "-r"@ && jj::ancestors_args(source)[4] == mutable
            &&& touching[3] == "-r"@ && touching[4] == "("@ + mutable + ") & files(\""@ + file
                + "\")"@
            &&& annotate[3] == "-r"@ && annotate[4] == source && annotate[7] == file
            &&& jj::ancestors_args(other) == jj::ancestors_args(source).update(
                4,
                "immutable_heads()..("@ + other + "-)"@,
            )
            &&& jj::touching_args(other, other_file) == touching.update(
                4,
                "("@ + ("immutable_heads()..("@ + other + "-)"@) + ") & files(\""@ + other_file
                    + "\")"@,
            )
            &&& jj::annotate_args(other, other_file) == annotate.update(4, other).update(
                7,
                other_file,
            )
        }),
{
    assert(jj::ancestors_args(other) =~= jj::ancestors_args(source).update(
        4,
        "immutable_heads()..("@ + other + "-)"@,
    ));
    assert(jj::touching_args(other, other_file) =~= jj::touching_args(source, file).update(
        4,
        "("@ + ("immutable_heads()..("@ + other + "-)"@) + ") & files(\""@ + other_file + "\")"@,
    ));
    assert(jj::annotate_args(other, other_file) =~= jj::annotate_args(source, file).update(
        4,
        other,
    ).update(7, other_file));
}

} // verus!
