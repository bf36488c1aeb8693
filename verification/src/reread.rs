//! Patches that were built are diffs: reading one gives the hunks that went into it.
use crate::announce;
use crate::diff;
use crate::diff::ReaderView;
use crate::header;
use crate::hunk;
use crate::hunk::HunkView;
use crate::operate;
use crate::patch;
use crate::patch::SpecView;
use crate::ranges;
use crate::roundtrip;
use crate::surgeon;
use crate::text;
use vstd::prelude::*;

verus! {

/// The line begins with one of the marks of a body: context, added, removed, or the "no newline"
/// marker.
pub open spec fn is_marked(line: Seq<char>) -> bool {
    ||| hunk::mark_of(line) == Some(' ')
    ||| hunk::mark_of(line) == Some('+')
    ||| hunk::mark_of(line) == Some('-')
    ||| hunk::mark_of(line) == Some('\\')
}

/// A body as diffs have them: marked lines without line feeds.
pub open spec fn is_plain_body(body: Seq<Seq<char>>) -> bool {
    forall|i: int|
        0 <= i < body.len() ==> is_marked(#[trigger] body[i]) && text::one_line(body[i])
}

/// A path as reading a diff gives it.
pub open spec fn is_plain_path(path: Seq<char>) -> bool {
    text::one_line(path) && (diff::dev_null(path) ==> path == "dev/null"@)
}

/// A hunk as reading a git-style diff gives it, of a file that a text patch can carry: plain
/// paths with the path lines that they call for, and a `@@` line that announces its plain body.
pub open spec fn is_plain_hunk(h: HunkView) -> bool {
    &&& h.unsupported_metadata is None
    &&& is_plain_path(h.old_file)
    &&& is_plain_path(h.new_file)
    &&& h.file == diff::shown_path(h.old_file, h.new_file)
    &&& h.file_header == patch::path_lines(h.old_file, h.new_file)
    &&& text::starts_with(h.header, "@@ "@)
    &&& text::one_line(h.header)
    &&& announce::announces(h.header, h.lines)
    &&& is_plain_body(h.lines)
}

/// The hunk that goes into the patch for a selected hunk.
pub open spec fn picked_hunk(spec: SpecView, reverse: bool) -> HunkView {
    let picked = if spec.ranges.len() == 0 {
        spec.hunk
    } else {
        surgeon::sliced_hunk(spec.hunk, spec.ranges, reverse)->Ok_0
    };
    if reverse {
        patch::reversed_hunk(picked)
    } else {
        picked
    }
}

// ---------------------------------------------------------------------------------------------
// Bodies
// ---------------------------------------------------------------------------------------------

/// A longer body has no fewer marked lines.
proof fn lemma_marked_grows(body: Seq<Seq<char>>, n: int, a: char, b: char)
    requires
        0 <= n <= body.len(),
    ensures
        surgeon::marked_count(body.take(n), a, b) <= surgeon::marked_count(body, a, b),
    decreases body.len() - n,
{
    if n < body.len() {
        assert(body.take(n + 1).drop_last() =~= body.take(n));
        lemma_marked_grows(body, n + 1, a, b);
    } else {
        assert(body.take(n) =~= body);
    }
}

/// What is still to come is what has been announced less what has come.
proof fn lemma_left(old: nat, new: nat, body: Seq<Seq<char>>)
    requires
        is_plain_body(body),
        surgeon::marked_count(body, '-', ' ') <= old,
        surgeon::marked_count(body, '+', ' ') <= new,
    ensures
        roundtrip::left_after(old, new, body) == (
            (old - surgeon::marked_count(body, '-', ' ')) as nat,
            (new - surgeon::marked_count(body, '+', ' ')) as nat,
        ),
    decreases body.len(),
{
    if body.len() > 0 {
        let front = body.drop_last();
        assert forall|i: int| 0 <= i < front.len() implies is_marked(#[trigger] front[i])
            && text::one_line(front[i]) by {
            assert(front[i] == body[i]);
        }
        assert(body.take(body.len() - 1) =~= front);
        lemma_left(old, new, front);
        assert(is_marked(body[body.len() - 1]));
    }
}

/// The "no newline" marker is a trailer.
proof fn lemma_marker_is_trailer(line: Seq<char>)
    requires
        hunk::mark_of(line) == Some('\\'),
    ensures
        roundtrip::is_trailer(line),
{
    roundtrip::lemma_markers(line);
    roundtrip::lemma_no_preamble(line);
}

/// An announced plain body is the body of its `@@` line, and complete.
proof fn lemma_announced_body(line: Seq<char>, body: Seq<Seq<char>>)
    requires
        announce::announces(line, body),
        is_plain_body(body),
    ensures
        roundtrip::is_body_of(line, body),
        roundtrip::is_complete(line, body),
{
    let (old, new) = header::header_counts(line);
    lemma_left(old, new, body);
    assert forall|i: int|
        0 <= i < body.len() && roundtrip::left_after(old, new, #[trigger] body.take(i)) == (
            0nat,
            0nat,
        ) implies roundtrip::is_trailer(body[i]) by {
        let front = body.take(i);
        assert forall|j: int| 0 <= j < front.len() implies is_marked(#[trigger] front[j])
            && text::one_line(front[j]) by {
            assert(front[j] == body[j]);
        }
        lemma_marked_grows(body, i, '-', ' ');
        lemma_marked_grows(body, i, '+', ' ');
        lemma_left(old, new, front);
        lemma_marked_grows(body, i + 1, '-', ' ');
        lemma_marked_grows(body, i + 1, '+', ' ');
        assert(body.take(i + 1).drop_last() =~= front);
        assert(body.take(i + 1).last() == body[i]);
        assert(is_marked(body[i]));
        lemma_marker_is_trailer(body[i]);
    }
}

// ---------------------------------------------------------------------------------------------
// Path lines
// ---------------------------------------------------------------------------------------------

/// Path lines name the paths that they were made for.
proof fn lemma_path_lines(path: Seq<char>)
    requires
        is_plain_path(path),
    ensures
        diff::diff_path(patch::old_path_line(path)) == path,
        diff::diff_path(patch::new_path_line(path)) == path,
        text::starts_with(patch::old_path_line(path), "--- "@),
        text::starts_with(patch::new_path_line(path), "+++ "@),
        text::one_line(patch::old_path_line(path)),
        text::one_line(patch::new_path_line(path)),
{
    reveal_strlit("--- a/");
    reveal_strlit("+++ b/");
    reveal_strlit("--- /");
    reveal_strlit("+++ /");
    reveal_strlit("+++ a/");
    reveal_strlit("--- ");
    reveal_strlit("+++ ");
    reveal_strlit("--- /dev/null");
    reveal_strlit("+++ /dev/null");
    reveal_strlit("dev/null");
    let old = patch::old_path_line(path);
    let new = patch::new_path_line(path);
    assert(old.subrange(0, 4) =~= "--- "@);
    assert(new.subrange(0, 4) =~= "+++ "@);
    assert(!text::starts_with(new, "--- a/"@)) by {
        if text::starts_with(new, "--- a/"@) {
            roundtrip::lemma_first_char(new, "--- a/"@);
        }
    }
    assert(!text::starts_with(new, "--- /"@)) by {
        if text::starts_with(new, "--- /"@) {
            roundtrip::lemma_first_char(new, "--- /"@);
        }
    }
    assert(!text::starts_with(old, "+++ b/"@)) by {
        if text::starts_with(old, "+++ b/"@) {
            roundtrip::lemma_first_char(old, "+++ b/"@);
        }
    }
    if diff::dev_null(path) {
        let k: int = 4;
        assert(!text::starts_with(old, "--- a/"@)) by {
            text::lemma_occurs_chars(old, "--- a/"@, 0);
            if text::starts_with(old, "--- a/"@) {
                assert(old[0 + k] == "--- a/"@[k]);
            }
        }
        assert(!text::starts_with(new, "+++ b/"@)) by {
            text::lemma_occurs_chars(new, "+++ b/"@, 0);
            if text::starts_with(new, "+++ b/"@) {
                assert(new[0 + k] == "+++ b/"@[k]);
            }
        }
        assert(old.subrange(0, 5) =~= "--- /"@);
        assert(new.subrange(0, 5) =~= "+++ /"@);
        assert(old.skip(5) =~= "dev/null"@);
        assert(new.skip(5) =~= "dev/null"@);
    } else {
        assert(old.subrange(0, 6) =~= "--- a/"@);
        assert(new.subrange(0, 6) =~= "+++ b/"@);
        assert(old.skip(6) =~= path);
        assert(new.skip(6) =~= path);
        assert forall|i: int| 0 <= i < old.len() implies #[trigger] old[i] != '\n' by {
            if i >= 6 {
                assert(old[i] == path[i - 6]);
            }
        }
        assert forall|i: int| 0 <= i < new.len() implies #[trigger] new[i] != '\n' by {
            if i >= 6 {
                assert(new[i] == path[i - 6]);
            }
        }
    }
}

// ---------------------------------------------------------------------------------------------
// Patches
// ---------------------------------------------------------------------------------------------

/// The lines of the patch of a hunk.
spec fn patch_lines(h: HunkView) -> Seq<Seq<char>> {
    seq![patch::old_path_line(h.old_file), patch::new_path_line(h.new_file)] + (seq![h.header]
        + h.lines)
}

/// The lines of the patches of hunks.
spec fn all_patch_lines(hunks: Seq<HunkView>) -> Seq<Seq<char>>
    decreases hunks.len(),
{
    if hunks.len() == 0 {
        Seq::empty()
    } else {
        all_patch_lines(hunks.drop_last()) + patch_lines(hunks.last())
    }
}

/// The patches of hunks, one behind the other.
spec fn all_patches(hunks: Seq<HunkView>) -> Seq<char>
    decreases hunks.len(),
{
    if hunks.len() == 0 {
        Seq::empty()
    } else {
        all_patches(hunks.drop_last()) + surgeon::patch_text(hunks.last())
    }
}

/// All hunks are plain.
pub open spec fn all_plain(hunks: Seq<HunkView>) -> bool {
    forall|i: int| 0 <= i < hunks.len() ==> is_plain_hunk(#[trigger] hunks[i])
}

/// Two ways to put the same texts together.
proof fn lemma_regroup(a: Seq<char>, b: Seq<char>, c: Seq<char>, body: Seq<char>, nl: Seq<char>)
    ensures
        a + nl + (b + nl + (c + nl + body)) == (a + nl + b) + nl + c + nl + body,
{
    assert(a + nl + (b + nl + (c + nl + body)) =~= (a + nl + b) + nl + c + nl + body);
}

/// Three lines in front of others, joined.
proof fn lemma_three_in_front(
    old: Seq<char>,
    new: Seq<char>,
    header: Seq<char>,
    lines: Seq<Seq<char>>,
)
    ensures
        surgeon::joined(seq![old, new] + (seq![header] + lines)) == (old + seq!['\n'] + new)
            + seq!['\n'] + header + seq!['\n'] + surgeon::joined(lines),
{
    let all = seq![old, new] + (seq![header] + lines);
    let a = all.drop_first();
    let b = a.drop_first();
    assert(all[0] == old && a[0] == new && b[0] == header);
    assert(b.drop_first() =~= lines);
    roundtrip::lemma_joined_front(all);
    roundtrip::lemma_joined_front(a);
    roundtrip::lemma_joined_front(b);
    lemma_regroup(old, new, header, surgeon::joined(lines), seq!['\n']);
}

/// The text of a patch is its lines, joined.
proof fn lemma_patch_joined(h: HunkView)
    requires
        is_plain_hunk(h),
    ensures
        surgeon::joined(patch_lines(h)) == surgeon::patch_text(h),
        forall|i: int|
            0 <= i < patch_lines(h).len() ==> text::one_line(#[trigger] patch_lines(h)[i]),
{
    let old = patch::old_path_line(h.old_file);
    let new = patch::new_path_line(h.new_file);
    lemma_path_lines(h.old_file);
    lemma_path_lines(h.new_file);
    lemma_three_in_front(old, new, h.header, h.lines);
    let all = patch_lines(h);
    assert forall|i: int| 0 <= i < all.len() implies text::one_line(#[trigger] all[i]) by {
        if i >= 3 {
            assert(all[i] == h.lines[i - 3]);
        }
    }
}

/// The text of patches is their lines, joined.
proof fn lemma_all_patches_joined(hunks: Seq<HunkView>)
    requires
        all_plain(hunks),
    ensures
        surgeon::joined(all_patch_lines(hunks)) == all_patches(hunks),
        forall|i: int|
            0 <= i < all_patch_lines(hunks).len() ==> text::one_line(
                #[trigger] all_patch_lines(hunks)[i],
            ),
    decreases hunks.len(),
{
    if hunks.len() > 0 {
        let front = hunks.drop_last();
        let last = hunks.last();
        assert forall|i: int| 0 <= i < front.len() implies is_plain_hunk(#[trigger] front[i]) by {
            assert(front[i] == hunks[i]);
        }
        lemma_all_patches_joined(front);
        assert(is_plain_hunk(hunks[hunks.len() - 1]));
        lemma_patch_joined(last);
        roundtrip::lemma_joined_add(all_patch_lines(front), patch_lines(last));
        let lines = all_patch_lines(hunks);
        let n = all_patch_lines(front).len();
        assert forall|i: int| 0 <= i < lines.len() implies text::one_line(#[trigger] lines[i]) by {
            if i < n {
                assert(lines[i] == all_patch_lines(front)[i]);
            } else {
                assert(lines[i] == patch_lines(last)[i - n]);
            }
        }
    }
}

/// Reading the patch of a hunk at a boundary.
proof fn lemma_read_patch(state: ReaderView, h: HunkView)
    requires
        is_plain_hunk(h),
        roundtrip::at_boundary(state),
        state.unsupported is None,
    ensures
        ({
            let done = state.with_lines(patch_lines(h));
            &&& done.flushed().hunks == state.flushed().hunks.push(h)
            &&& roundtrip::at_boundary(done)
            &&& done.unsupported is None
        }),
{
    let old = patch::old_path_line(h.old_file);
    let new = patch::new_path_line(h.new_file);
    lemma_path_lines(h.old_file);
    lemma_path_lines(h.new_file);
    roundtrip::lemma_with_lines_add(state, seq![old, new], seq![h.header] + h.lines);
    roundtrip::lemma_read_paths(state, old, new);
    let named = state.with_lines(seq![old, new]);
    lemma_announced_body(h.header, h.lines);
    roundtrip::lemma_read_hunk(named, h.header, h.lines);
    let done = state.with_lines(patch_lines(h));
    assert(done.current() =~= h);
}

/// Reading the patches of hunks.
proof fn lemma_read_patches(hunks: Seq<HunkView>)
    requires
        all_plain(hunks),
    ensures
        ({
            let done = ReaderView::fresh(Seq::empty(), 0, 0).with_lines(all_patch_lines(hunks));
            &&& done.flushed().hunks == hunks
            &&& done.unsupported is None
            &&& roundtrip::at_boundary(done)
        }),
    decreases hunks.len(),
{
    let start = ReaderView::fresh(Seq::empty(), 0, 0);
    if hunks.len() == 0 {
        assert(start.with_lines(Seq::empty()) == start);
        assert(start.flushed().hunks =~= hunks);
    } else {
        let front = hunks.drop_last();
        let last = hunks.last();
        assert(last == hunks[hunks.len() - 1]);
        assert forall|i: int| 0 <= i < front.len() implies is_plain_hunk(#[trigger] front[i]) by {
            assert(front[i] == hunks[i]);
        }
        lemma_read_patches(front);
        let so_far = start.with_lines(all_patch_lines(front));
        roundtrip::lemma_with_lines_add(start, all_patch_lines(front), patch_lines(last));
        lemma_read_patch(so_far, last);
        assert(hunks =~= front.push(last));
    }
}

/// The patches of hunks, one behind the other, are read into the hunks.
proof fn lemma_patches_read_back(hunks: Seq<HunkView>)
    requires
        all_plain(hunks),
    ensures
        diff::hunks_of(text::replaced(all_patches(hunks), "\r\n"@, "\r\r\n"@)) == hunks,
{
    lemma_all_patches_joined(hunks);
    roundtrip::law_joined_lines(all_patch_lines(hunks));
    roundtrip::law_protected_lines(all_patches(hunks));
    lemma_read_patches(hunks);
}

/// The parts of a `@@` line that is one line hold no line feed, and the other way round.
proof fn lemma_header_line_one_line(old: Seq<char>, new: Seq<char>, tail: Seq<char>)
    ensures
        text::one_line(header::header_line(old, new, tail)) <==> text::one_line(old)
            && text::one_line(new) && text::one_line(tail),
        text::starts_with(header::header_line(old, new, tail), "@@ "@),
{
    reveal_strlit("@@ -");
    reveal_strlit("@@ ");
    reveal_strlit(" @@");
    reveal_strlit(" +");
    let line = header::header_line(old, new, tail);
    let o = old.len() as int;
    let n = new.len() as int;
    assert(line.subrange(0, 3) =~= "@@ "@);
    assert forall|i: int| 0 <= i < o implies #[trigger] old[i] == line[4 + i] by {}
    assert forall|i: int| 0 <= i < n implies #[trigger] new[i] == line[6 + o + i] by {}
    assert forall|i: int| 0 <= i < tail.len() implies #[trigger] tail[i] == line[9 + o + n + i] by {}
    if text::one_line(old) && text::one_line(new) && text::one_line(tail) {
        assert forall|i: int| 0 <= i < line.len() implies #[trigger] line[i] != '\n' by {
            if 4 <= i < 4 + o {
                assert(line[i] == old[i - 4]);
            } else if 6 + o <= i < 6 + o + n {
                assert(line[i] == new[i - 6 - o]);
            } else if i >= 9 + o + n {
                assert(line[i] == tail[i - 9 - o - n]);
            }
        }
    }
}

/// Cutting down keeps a body plain.
proof fn lemma_sliced_plain(lines: Seq<Seq<char>>, picked: Seq<(usize, usize)>, reverse: bool)
    requires
        is_plain_body(lines),
    ensures
        is_plain_body(surgeon::sliced_lines(lines, picked, reverse)),
    decreases lines.len(),
{
    if lines.len() > 0 {
        let front = lines.drop_last();
        let last = lines.last();
        assert forall|i: int| 0 <= i < front.len() implies is_marked(#[trigger] front[i])
            && text::one_line(front[i]) by {
            assert(front[i] == lines[i]);
        }
        lemma_sliced_plain(front, picked, reverse);
        assert(is_marked(lines[lines.len() - 1]) && text::one_line(lines[lines.len() - 1]));
        let context = seq![' '] + last.drop_first();
        assert(context[0] == ' ');
        assert forall|i: int| 0 <= i < context.len() implies #[trigger] context[i] != '\n' by {
            if i > 0 {
                assert(context[i] == last[i]);
            }
        }
    }
}

/// Reversing keeps a body plain.
proof fn lemma_reversed_plain(lines: Seq<Seq<char>>)
    requires
        is_plain_body(lines),
    ensures
        is_plain_body(patch::reversed_lines(lines)),
{
    let r = patch::reversed_lines(lines);
    assert forall|i: int| 0 <= i < r.len() implies is_marked(#[trigger] r[i]) && text::one_line(
        r[i],
    ) by {
        let line = lines[i];
        assert(is_marked(line) && text::one_line(line));
        assert forall|k: int| 0 <= k < r[i].len() implies #[trigger] r[i][k] != '\n' by {
            if k > 0 {
                assert(r[i][k] == line[k]);
            } else {
                assert(line.len() > 0);
                assert(line[0] != '\n');
            }
        }
    }
}

/// Cutting a plain hunk down gives a plain hunk with a plain `@@` line.
proof fn lemma_slice_plain(h: HunkView, picked: Seq<(usize, usize)>, reverse: bool)
    requires
        is_plain_hunk(h),
        surgeon::plain_frame(h.header) is Some,
        h.lines.len() <= usize::MAX,
    ensures
        surgeon::sliced_hunk(h, picked, reverse) is Ok,
        is_plain_hunk(surgeon::sliced_hunk(h, picked, reverse)->Ok_0),
        header::header_parts(surgeon::sliced_hunk(h, picked, reverse)->Ok_0.header) matches Some(
            (_, new, _),
        ) && text::find(new, " +"@) is None,
{
    let (old_start, new_start, tail) = surgeon::plain_frame(h.header)->0;
    let sliced = surgeon::sliced_hunk(h, picked, reverse)->Ok_0;
    announce::lemma_plain_frame(h.header);
    announce::law_slice_announces(h, picked, reverse);
    announce::lemma_slice_no_longer(h.lines, picked, reverse);
    announce::lemma_plain_header(h.header);
    let (old, new, _) = header::header_parts(h.header)->0;
    lemma_header_line_one_line(old, new, tail);
    announce::lemma_counted_header_parts(
        old_start,
        new_start,
        tail,
        sliced.lines,
    );
    let (cut_old, cut_new, _) = header::header_parts(sliced.header)->0;
    lemma_header_line_one_line(cut_old, cut_new, tail);
    announce::lemma_spaceless(cut_new);
    lemma_sliced_plain(h.lines, picked, reverse);
}

/// Reversing a plain hunk gives a plain hunk.
proof fn lemma_reverse_plain(h: HunkView)
    requires
        is_plain_hunk(h),
        h.file == diff::shown_path(h.new_file, h.old_file),
        header::header_parts(h.header) matches Some((_, new, _)) && text::find(new, " +"@) is None,
    ensures
        is_plain_hunk(patch::reversed_hunk(h)),
{
    announce::law_reverse_announces(h);
    header::lemma_parts_make_header(h.header);
    let (old, new, tail) = header::header_parts(h.header)->0;
    lemma_header_line_one_line(old, new, tail);
    lemma_header_line_one_line(new, old, tail);
    lemma_reversed_plain(h.lines);
}

/// What a selection needs for its patch to be read back: plain hunks with plain `@@` lines, whose
/// path to show is the same from both sides where the patch is a reverse one.
pub open spec fn is_plain_spec(spec: SpecView, reverse: bool) -> bool {
    &&& is_plain_hunk(spec.hunk)
    &&& surgeon::plain_frame(spec.hunk.header) is Some
    &&& spec.hunk.lines.len() <= usize::MAX
    &&& reverse ==> spec.hunk.file == diff::shown_path(spec.hunk.new_file, spec.hunk.old_file)
}

/// The patch for a selected plain hunk is the patch of a plain hunk.
proof fn lemma_single_patch(spec: SpecView, reverse: bool)
    requires
        is_plain_spec(spec, reverse),
    ensures
        patch::single_patch(spec, reverse) == Ok::<Seq<char>, patch::PatchErrorView>(
            surgeon::patch_text(picked_hunk(spec, reverse)),
        ),
        is_plain_hunk(picked_hunk(spec, reverse)),
        picked_hunk(spec, false).old_file == spec.hunk.old_file,
        picked_hunk(spec, false).new_file == spec.hunk.new_file,
        picked_hunk(spec, true).old_file == spec.hunk.new_file,
        picked_hunk(spec, true).new_file == spec.hunk.old_file,
{
    lemma_slice_plain(spec.hunk, spec.ranges, reverse);
    lemma_slice_plain(spec.hunk, spec.ranges, !reverse);
    announce::lemma_plain_header(spec.hunk.header);
    let picked = if spec.ranges.len() == 0 {
        spec.hunk
    } else {
        surgeon::sliced_hunk(spec.hunk, spec.ranges, reverse)->Ok_0
    };
    if reverse {
        lemma_reverse_plain(picked);
    }
}

/// The hunks that go into the patch for a selection.
pub open spec fn picked_hunks(specs: Seq<SpecView>, reverse: bool) -> Seq<HunkView> {
    Seq::new(specs.len(), |i: int| picked_hunk(specs[i], reverse))
}

/// The patch for a selection is the patches of what is picked.
proof fn lemma_combined_patch(specs: Seq<SpecView>, reverse: bool)
    requires
        forall|i: int| 0 <= i < specs.len() ==> is_plain_spec(#[trigger] specs[i], reverse),
    ensures
        patch::combined_patch(specs, reverse) == Ok::<Seq<char>, patch::PatchErrorView>(
            all_patches(picked_hunks(specs, reverse)),
        ),
    decreases specs.len(),
{
    if specs.len() > 0 {
        let front = specs.drop_last();
        assert forall|i: int| 0 <= i < front.len() implies is_plain_spec(
            #[trigger] front[i],
            reverse,
        ) by {
            assert(front[i] == specs[i]);
        }
        lemma_combined_patch(front, reverse);
        assert(is_plain_spec(specs[specs.len() - 1], reverse));
        lemma_single_patch(specs.last(), reverse);
        assert(picked_hunks(specs, reverse).drop_last() =~= picked_hunks(front, reverse));
    }
}

/// The patch built from a selection, forwards or in reverse, whole hunks or lines of them, of one
/// file or of several, is read back into exactly the hunks that were picked.
pub proof fn law_combined_patch_reads_back(specs: Seq<SpecView>, reverse: bool)
    requires
        forall|i: int| 0 <= i < specs.len() ==> is_plain_spec(#[trigger] specs[i], reverse),
    ensures
        patch::combined_patch(specs, reverse) matches Ok(patch) && diff::hunks_of(
            text::replaced(patch, "\r\n"@, "\r\r\n"@),
        ) == picked_hunks(specs, reverse),
{
    let hunks = picked_hunks(specs, reverse);
    lemma_combined_patch(specs, reverse);
    assert forall|i: int| 0 <= i < hunks.len() implies is_plain_hunk(#[trigger] hunks[i]) by {
        assert(is_plain_spec(specs[i], reverse));
        lemma_single_patch(specs[i], reverse);
    }
    lemma_patches_read_back(hunks);
}

// ---------------------------------------------------------------------------------------------
// Deletions
// ---------------------------------------------------------------------------------------------

/// Lines without the carriage returns at their ends.
spec fn stripped_lines(lines: Seq<Seq<char>>) -> Seq<Seq<char>> {
    Seq::new(lines.len(), |i: int| text::strip_cr(lines[i]))
}

/// Lines that were joined are read back without the carriage returns at their ends.
proof fn lemma_joined_lines_stripped(lines: Seq<Seq<char>>)
    requires
        forall|i: int| 0 <= i < lines.len() ==> text::one_line(#[trigger] lines[i]),
    ensures
        text::lines(surgeon::joined(lines)) == stripped_lines(lines),
    decreases lines.len(),
{
    if lines.len() > 0 {
        let first = lines[0];
        let rest = lines.drop_first();
        roundtrip::lemma_joined_front(lines);
        assert forall|i: int| 0 <= i < rest.len() implies text::one_line(#[trigger] rest[i]) by {
            assert(rest[i] == lines[i + 1]);
        }
        lemma_joined_lines_stripped(rest);
        text::lemma_line_end(first, surgeon::joined(rest));
        assert(seq![text::strip_cr(first)] + stripped_lines(rest) =~= stripped_lines(lines));
    } else {
        assert(text::lines(surgeon::joined(lines)) =~= stripped_lines(lines));
    }
}

/// A text that does not end with a carriage return.
pub open spec fn has_clean_end(text: Seq<char>) -> bool {
    text.len() > 0 ==> text.last() != '\r'
}

/// The path lines of a path with a clean end have clean ends.
proof fn lemma_path_line_ends(path: Seq<char>)
    requires
        has_clean_end(path),
    ensures
        has_clean_end(patch::old_path_line(path)),
        has_clean_end(patch::new_path_line(path)),
{
    reveal_strlit("--- a/");
    reveal_strlit("+++ b/");
    reveal_strlit("--- /dev/null");
    reveal_strlit("+++ /dev/null");
}

/// A hunk without the carriage returns at the ends of its lines.
spec fn stripped(h: HunkView) -> HunkView {
    HunkView {
        header: text::strip_cr(h.header),
        lines: stripped_lines(h.lines),
        ..h
    }
}

/// A `@@` line with two ranges without spaces.
spec fn has_ranges(header: Seq<char>) -> bool {
    header::header_parts(header) matches Some((old, new, _)) && announce::spaceless(old)
        && announce::spaceless(new)
}

/// A carriage return at the end of a text belongs to the end.
proof fn lemma_strip_tail(front: Seq<char>, tail: Seq<char>)
    requires
        front.len() > 0,
        front.last() != '\r',
    ensures
        text::strip_cr(front + tail) == front + text::strip_cr(tail),
        text::one_line(tail) ==> text::one_line(text::strip_cr(tail)),
{
    let all = front + tail;
    if tail.len() > 0 {
        assert(all.last() == tail.last());
        assert(all.drop_last() =~= front + tail.drop_last());
    } else {
        assert(all =~= front);
        assert(front + text::strip_cr(tail) =~= front);
    }
    let short = text::strip_cr(tail);
    if text::one_line(tail) {
        assert forall|i: int| 0 <= i < short.len() implies #[trigger] short[i] != '\n' by {
            assert(short[i] == tail[i]);
        }
    }
}

/// A `@@` line without the carriage return at its end.
proof fn lemma_stripped_header_line(old: Seq<char>, new: Seq<char>, tail: Seq<char>)
    ensures
        text::strip_cr(header::header_line(old, new, tail)) == header::header_line(
            old,
            new,
            text::strip_cr(tail),
        ),
        text::one_line(tail) ==> text::one_line(text::strip_cr(tail)),
{
    reveal_strlit(" @@");
    let front = "@@ -"@ + old + " +"@ + new + " @@"@;
    assert(front.last() == '@');
    lemma_strip_tail(front, tail);
}

/// The carriage return at its end plays no part in what a `@@` line announces.
proof fn lemma_stripped_header(header: Seq<char>)
    requires
        has_ranges(header),
    ensures
        header::header_counts(text::strip_cr(header)) == header::header_counts(header),
        text::starts_with(text::strip_cr(header), "@@ "@),
        text::one_line(header) ==> text::one_line(text::strip_cr(header)),
{
    header::lemma_parts_make_header(header);
    let (old, new, tail) = header::header_parts(header)->0;
    let short = text::strip_cr(tail);
    lemma_stripped_header_line(old, new, tail);
    announce::lemma_spaceless(old);
    announce::lemma_spaceless(new);
    header::lemma_header_line_parts(old, new, tail);
    header::lemma_header_line_parts(old, new, short);
    lemma_header_line_one_line(old, new, short);
    lemma_header_line_one_line(old, new, tail);
}

/// The carriage returns at their ends play no part in how lines are marked.
proof fn lemma_stripped_marks(lines: Seq<Seq<char>>, a: char, b: char)
    requires
        is_plain_body(lines),
    ensures
        surgeon::marked_count(stripped_lines(lines), a, b) == surgeon::marked_count(lines, a, b),
    decreases lines.len(),
{
    if lines.len() > 0 {
        let front = lines.drop_last();
        assert forall|i: int| 0 <= i < front.len() implies is_marked(#[trigger] front[i])
            && text::one_line(front[i]) by {
            assert(front[i] == lines[i]);
        }
        lemma_stripped_marks(front, a, b);
        assert(stripped_lines(lines).drop_last() =~= stripped_lines(front));
        assert(is_marked(lines[lines.len() - 1]));
        lemma_stripped_line(lines.last());
    }
}

/// A marked line keeps its mark.
proof fn lemma_stripped_line(line: Seq<char>)
    requires
        is_marked(line),
    ensures
        is_marked(text::strip_cr(line)),
        hunk::mark_of(text::strip_cr(line)) == hunk::mark_of(line),
        text::one_line(line) ==> text::one_line(text::strip_cr(line)),
{
    let short = text::strip_cr(line);
    assert(short.len() > 0 && short[0] == line[0]);
    if text::one_line(line) {
        assert forall|i: int| 0 <= i < short.len() implies #[trigger] short[i] != '\n' by {
            assert(short[i] == line[i]);
        }
    }
}

/// A plain hunk stays one without the carriage returns at the ends of its lines.
proof fn lemma_stripped_plain(h: HunkView)
    requires
        is_plain_hunk(h),
        has_ranges(h.header),
    ensures
        is_plain_hunk(stripped(h)),
{
    lemma_stripped_header(h.header);
    lemma_stripped_marks(h.lines, '-', ' ');
    lemma_stripped_marks(h.lines, '+', ' ');
    let lines = stripped(h).lines;
    assert forall|i: int| 0 <= i < lines.len() implies is_marked(#[trigger] lines[i])
        && text::one_line(lines[i]) by {
        assert(is_marked(h.lines[i]) && text::one_line(h.lines[i]));
        lemma_stripped_line(h.lines[i]);
    }
}

/// The patch lines of a hunk whose paths have clean ends.
proof fn lemma_stripped_patch_lines(h: HunkView)
    requires
        has_clean_end(h.old_file),
        has_clean_end(h.new_file),
    ensures
        stripped_lines(patch_lines(h)) == patch_lines(stripped(h)),
{
    lemma_path_line_ends(h.old_file);
    lemma_path_line_ends(h.new_file);
    assert(stripped_lines(patch_lines(h)) =~= patch_lines(stripped(h)));
}

/// Hunks without the carriage returns at the ends of their lines.
spec fn all_stripped(hunks: Seq<HunkView>) -> Seq<HunkView> {
    Seq::new(hunks.len(), |i: int| stripped(hunks[i]))
}

/// All paths of the hunks have clean ends.
spec fn have_clean_ends(hunks: Seq<HunkView>) -> bool {
    forall|i: int|
        0 <= i < hunks.len() ==> has_clean_end((#[trigger] hunks[i]).old_file) && has_clean_end(
            hunks[i].new_file,
        )
}

/// The patch lines of hunks whose paths have clean ends.
proof fn lemma_all_stripped_patch_lines(hunks: Seq<HunkView>)
    requires
        have_clean_ends(hunks),
    ensures
        stripped_lines(all_patch_lines(hunks)) == all_patch_lines(all_stripped(hunks)),
    decreases hunks.len(),
{
    if hunks.len() > 0 {
        let front = hunks.drop_last();
        let last = hunks.last();
        assert(last == hunks[hunks.len() - 1]);
        assert forall|i: int| 0 <= i < front.len() implies has_clean_end(
            (#[trigger] front[i]).old_file,
        ) && has_clean_end(front[i].new_file) by {
            assert(front[i] == hunks[i]);
        }
        lemma_all_stripped_patch_lines(front);
        lemma_stripped_patch_lines(last);
        assert(all_stripped(hunks).drop_last() =~= all_stripped(front));
        assert(stripped_lines(all_patch_lines(front) + patch_lines(last)) =~= stripped_lines(
            all_patch_lines(front),
        ) + stripped_lines(patch_lines(last)));
    } else {
        assert(stripped_lines(all_patch_lines(hunks)) =~= all_patch_lines(all_stripped(hunks)));
    }
}

/// Patches are read into their hunks, but for the carriage returns at the ends of lines.
proof fn lemma_patches_read_stripped(hunks: Seq<HunkView>)
    requires
        all_plain(hunks),
        have_clean_ends(hunks),
        forall|i: int| 0 <= i < hunks.len() ==> has_ranges((#[trigger] hunks[i]).header),
    ensures
        diff::hunks_of(all_patches(hunks)) == all_stripped(hunks),
{
    let short = all_stripped(hunks);
    lemma_all_patches_joined(hunks);
    lemma_joined_lines_stripped(all_patch_lines(hunks));
    lemma_all_stripped_patch_lines(hunks);
    assert forall|i: int| 0 <= i < short.len() implies is_plain_hunk(#[trigger] short[i]) by {
        assert(is_plain_hunk(hunks[i]) && has_ranges(hunks[i].header));
        lemma_stripped_plain(hunks[i]);
    }
    lemma_read_patches(short);
}

/// What is deleted goes by the paths alone.
proof fn lemma_vanished_by_paths(a: Seq<HunkView>, b: Seq<HunkView>)
    requires
        a.len() == b.len(),
        forall|i: int|
            0 <= i < a.len() ==> (#[trigger] a[i]).old_file == b[i].old_file && a[i].new_file
                == b[i].new_file,
    ensures
        operate::vanished(a) == operate::vanished(b),
    decreases a.len(),
{
    if a.len() > 0 {
        let c = a.drop_last();
        let d = b.drop_last();
        assert forall|i: int| 0 <= i < c.len() implies (#[trigger] c[i]).old_file == d[i].old_file
            && c[i].new_file == d[i].new_file by {
            assert(a[i] == c[i]);
        }
        lemma_vanished_by_paths(c, d);
        assert(a[a.len() - 1].old_file == b.last().old_file);
    }
}

/// The ranges of a picked plain hunk hold no spaces.
proof fn lemma_picked_has_ranges(spec: SpecView, reverse: bool)
    requires
        is_plain_spec(spec, reverse),
    ensures
        has_ranges(picked_hunk(spec, reverse).header),
{
    let h = spec.hunk;
    announce::lemma_plain_header(h.header);
    let picked = if spec.ranges.len() == 0 {
        h
    } else {
        surgeon::sliced_hunk(h, spec.ranges, reverse)->Ok_0
    };
    if spec.ranges.len() > 0 {
        let (old_start, new_start, tail) = surgeon::plain_frame(h.header)->0;
        announce::lemma_plain_frame(h.header);
        announce::lemma_slice_no_longer(h.lines, spec.ranges, reverse);
        announce::lemma_counted_header_parts(
            old_start,
            new_start,
            tail,
            picked.lines,
        );
    }
    assert(has_ranges(picked.header));
    if reverse {
        let (_, new, _) = header::header_parts(picked.header)->0;
        announce::lemma_spaceless(new);
        header::law_reversed_header_swaps(picked.header);
    }
}

/// The files that the picked hunks delete: those without a new side, or without an old one where
/// they are undone.
pub open spec fn deletions(specs: Seq<SpecView>, reverse: bool) -> Seq<Seq<char>>
    decreases specs.len(),
{
    if specs.len() == 0 {
        Seq::empty()
    } else {
        let front = deletions(specs.drop_last(), reverse);
        let hunk = specs.last().hunk;
        let (from, to) = if reverse {
            (hunk.new_file, hunk.old_file)
        } else {
            (hunk.old_file, hunk.new_file)
        };
        if diff::dev_null(to) {
            front.push(from)
        } else {
            front
        }
    }
}

/// What the picked hunks mark as deleted is what the selection deletes.
proof fn lemma_deletions(specs: Seq<SpecView>, reverse: bool)
    requires
        forall|i: int| 0 <= i < specs.len() ==> is_plain_spec(#[trigger] specs[i], reverse),
    ensures
        operate::vanished(picked_hunks(specs, reverse)) == deletions(specs, reverse),
    decreases specs.len(),
{
    if specs.len() > 0 {
        let front = specs.drop_last();
        assert forall|i: int| 0 <= i < front.len() implies is_plain_spec(
            #[trigger] front[i],
            reverse,
        ) by {
            assert(front[i] == specs[i]);
        }
        lemma_deletions(front, reverse);
        assert(is_plain_spec(specs[specs.len() - 1], reverse));
        lemma_single_patch(specs.last(), reverse);
        assert(picked_hunks(specs, reverse).drop_last() =~= picked_hunks(front, reverse));
    }
}

/// The patch built from a selection marks exactly those files as deleted that the selection
/// deletes, or that undoing it deletes, in order, whatever else it changes and whatever its body
/// lines look like. Left out are paths that end with a carriage return, which reading a line takes
/// off.
pub proof fn law_deletions_are_found(specs: Seq<SpecView>, reverse: bool)
    requires
        forall|i: int|
            0 <= i < specs.len() ==> {
                &&& is_plain_spec(#[trigger] specs[i], reverse)
                &&& has_clean_end(specs[i].hunk.old_file)
                &&& has_clean_end(specs[i].hunk.new_file)
            },
    ensures
        patch::combined_patch(specs, reverse) matches Ok(patch) && operate::vanished(
            diff::hunks_of(patch),
        ) == deletions(specs, reverse),
{
    let hunks = picked_hunks(specs, reverse);
    lemma_combined_patch(specs, reverse);
    assert forall|i: int| 0 <= i < hunks.len() implies is_plain_hunk(#[trigger] hunks[i])
        && has_clean_end(hunks[i].old_file) && has_clean_end(hunks[i].new_file) && has_ranges(
        hunks[i].header,
    ) by {
        assert(is_plain_spec(specs[i], reverse));
        lemma_single_patch(specs[i], reverse);
        lemma_picked_has_ranges(specs[i], reverse);
    }
    lemma_patches_read_stripped(hunks);
    lemma_vanished_by_paths(all_stripped(hunks), hunks);
    lemma_deletions(specs, reverse);
}

} // verus!
