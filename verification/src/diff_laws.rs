//! What holds of hunks, headers, diffs, selections and patches, part by part.
use crate::announce;
use crate::diff;
use crate::diff::ReaderView;
use crate::header;
use crate::hunk;
use crate::hunk::HunkView;
use crate::patch;
use crate::patch::{PatchErrorView, SpecView};
use crate::ranges;
use crate::roundtrip;
use crate::roundtrip::FileDiff;
use crate::selection;
use crate::surgeon;
use crate::text;
use crate::text_laws;
use vstd::prelude::*;

verus! {

// ---------------------------------------------------------------------------------------------
// Hunks
// ---------------------------------------------------------------------------------------------

/// The sides of two bodies one behind the other are the sides of the one and then those of the
/// other.
pub proof fn law_sides_add(a: Seq<Seq<char>>, b: Seq<Seq<char>>)
    ensures
        hunk::old_side(a + b) == hunk::old_side(a) + hunk::old_side(b),
        hunk::new_side(a + b) == hunk::new_side(a) + hunk::new_side(b),
    decreases b.len(),
{
    if b.len() == 0 {
        assert(a + b =~= a);
        assert(hunk::old_side(a) + hunk::old_side(b) =~= hunk::old_side(a));
        assert(hunk::new_side(a) + hunk::new_side(b) =~= hunk::new_side(a));
    } else {
        law_sides_add(a, b.drop_last());
        assert((a + b).drop_last() =~= a + b.drop_last());
        assert((a + b).last() == b.last());
        assert(hunk::old_side(a + b) =~= hunk::old_side(a) + hunk::old_side(b));
        assert(hunk::new_side(a + b) =~= hunk::new_side(a) + hunk::new_side(b));
    }
}

/// A `+` line is on the new side alone, a `-` line on the old side alone, and a context line on
/// both, each without its mark; any other line is on both as it is.
pub proof fn law_sides_of_a_line(text: Seq<char>)
    ensures
        hunk::is_added(seq!['+'] + text) && !hunk::is_removed(seq!['+'] + text),
        hunk::is_removed(seq!['-'] + text) && !hunk::is_added(seq!['-'] + text),
        hunk::is_change(text) <==> hunk::is_added(text) || hunk::is_removed(text),
        hunk::old_side(seq![seq!['+'] + text]) == Seq::<Seq<char>>::empty(),
        hunk::new_side(seq![seq!['+'] + text]) == seq![text],
        hunk::old_side(seq![seq!['-'] + text]) == seq![text],
        hunk::new_side(seq![seq!['-'] + text]) == Seq::<Seq<char>>::empty(),
        hunk::old_side(seq![seq![' '] + text]) == seq![text],
        hunk::new_side(seq![seq![' '] + text]) == seq![text],
        text.len() == 0 || (text[0] != '+' && text[0] != '-' && text[0] != ' ') ==> {
            &&& !hunk::is_change(text)
            &&& hunk::old_side(seq![text]) == seq![text]
            &&& hunk::new_side(seq![text]) == seq![text]
        },
{
    let plus = seq!['+'] + text;
    let minus = seq!['-'] + text;
    let space = seq![' '] + text;
    assert(plus.drop_first() =~= text);
    assert(minus.drop_first() =~= text);
    assert(space.drop_first() =~= text);
    lemma_sides_of_one(plus);
    lemma_sides_of_one(minus);
    lemma_sides_of_one(space);
    lemma_sides_of_one(text);
}

/// The sides of a body of one line.
proof fn lemma_sides_of_one(line: Seq<char>)
    ensures
        hunk::old_side(seq![line]) == if hunk::is_added(line) {
            Seq::<Seq<char>>::empty()
        } else {
            seq![hunk::content(line)]
        },
        hunk::new_side(seq![line]) == if hunk::is_removed(line) {
            Seq::<Seq<char>>::empty()
        } else {
            seq![hunk::content(line)]
        },
{
    let one = seq![line];
    assert(one.drop_last() =~= Seq::<Seq<char>>::empty());
    assert(hunk::old_side(one.drop_last()) == Seq::<Seq<char>>::empty());
    assert(hunk::new_side(one.drop_last()) == Seq::<Seq<char>>::empty());
    assert(Seq::<Seq<char>>::empty().push(hunk::content(line)) =~= seq![hunk::content(line)]);
}

// ---------------------------------------------------------------------------------------------
// Headers
// ---------------------------------------------------------------------------------------------

/// A range as a `@@` line writes it, with a count or without.
pub open spec fn written_range(start: nat, count: Option<nat>) -> Seq<char> {
    match count {
        Some(count) => text::decimal(start) + seq![','] + text::decimal(count),
        None => text::decimal(start),
    }
}

/// The count that a range stands for.
pub open spec fn count_or_one(count: Option<nat>) -> nat {
    match count {
        Some(count) => count,
        None => 1,
    }
}

/// A written range is read back.
proof fn lemma_written_range(start: nat, count: Option<nat>)
    requires
        start <= usize::MAX,
        count_or_one(count) <= usize::MAX,
    ensures
        announce::spaceless(written_range(start, count)),
        header::range_start(written_range(start, count)) == Some(start),
        header::range_count(written_range(start, count)) == Some(count_or_one(count)),
{
    reveal_strlit(",");
    let range = written_range(start, count);
    match count {
        Some(count) => {
            announce::lemma_counted_range(start, count);
            assert(range =~= surgeon::counted_range(start, count));
        },
        None => {
            text::lemma_decimal_reads_back(start);
            assert forall|i: int| 0 <= i < range.len() implies #[trigger] range[i] != ' ' by {
                assert(text::is_digit(range[i]));
            }
            assert forall|j: int| 0 <= j <= range.len() implies !#[trigger] text::occurs_at(
                range,
                ","@,
                j,
            ) by {
                text::lemma_occurs_chars(range, ","@, j);
                if text::occurs_at(range, ","@, j) {
                    let k: int = 0;
                    assert(range[j + k] == ","@[k]);
                    assert(text::is_digit(range[j]));
                }
            }
            text::lemma_find_none(range, ","@);
        },
    }
}

/// A `@@` line says what was written into it: where the two sides start, how many lines each has
/// (one where no count is written), and what stands behind. Turned round, it says the same of the
/// other side.
pub proof fn law_header_says(
    old_start: nat,
    old_count: Option<nat>,
    new_start: nat,
    new_count: Option<nat>,
    tail: Seq<char>,
)
    requires
        old_start <= usize::MAX,
        new_start <= usize::MAX,
        count_or_one(old_count) <= usize::MAX,
        count_or_one(new_count) <= usize::MAX,
    ensures
        ({
            let old = written_range(old_start, old_count);
            let new = written_range(new_start, new_count);
            let line = "@@ -"@ + old + " +"@ + new + " @@"@ + tail;
            &&& header::header_counts(line) == (count_or_one(old_count), count_or_one(new_count))
            &&& header::header_starts(line) == Some((old_start, new_start))
            &&& header::header_parts(line) == Some((old, new, tail))
            &&& header::reversed_header(line) == "@@ -"@ + new + " +"@ + old + " @@"@ + tail
        }),
{
    let old = written_range(old_start, old_count);
    let new = written_range(new_start, new_count);
    lemma_written_range(old_start, old_count);
    lemma_written_range(new_start, new_count);
    announce::lemma_spaceless(old);
    announce::lemma_spaceless(new);
    header::lemma_header_line_parts(old, new, tail);
    announce::lemma_trimmed_header(old, new, tail);
    header::lemma_header_line_parts(old, new, text::trim_end(tail));
}

/// White space at the ends of a `@@` line does not change where the sides start.
pub proof fn law_starts_go_without_white_ends(
    line: Seq<char>,
    front: Seq<char>,
    back: Seq<char>,
)
    requires
        line.len() > 0,
        !text::is_white(line[0]),
        !text::is_white(line.last()),
        text_laws::all_white(front),
        text_laws::all_white(back),
    ensures
        header::header_starts(front + line + back) == header::header_starts(line),
{
    text_laws::law_trim_gives_the_middle(front, line, back);
    let none = Seq::<char>::empty();
    text_laws::law_trim_gives_the_middle(none, line, none);
    assert(none + line + none =~= line);
}

/// How many lines a `@@` line announces does not depend on where the sides start: any digits will
/// do there.
pub proof fn law_counts_whatever_the_starts(
    old_start: Seq<char>,
    old_count: nat,
    new_start: Seq<char>,
    new_count: nat,
    tail: Seq<char>,
)
    requires
        old_start.len() > 0,
        new_start.len() > 0,
        text::all_digits(old_start),
        text::all_digits(new_start),
        old_count <= usize::MAX,
        new_count <= usize::MAX,
    ensures
        header::header_counts(
            "@@ -"@ + (old_start + seq![','] + text::decimal(old_count)) + " +"@ + (new_start
                + seq![','] + text::decimal(new_count)) + " @@"@ + tail,
        ) == (old_count, new_count),
        header::header_counts("@@ -"@ + old_start + " +"@ + new_start + " @@"@ + tail) == (
            1nat,
            1nat,
        ),
{
    let old = old_start + seq![','] + text::decimal(old_count);
    let new = new_start + seq![','] + text::decimal(new_count);
    lemma_digits_range(old_start, old_count);
    lemma_digits_range(new_start, new_count);
    announce::lemma_spaceless(old);
    announce::lemma_spaceless(new);
    announce::lemma_spaceless(old_start);
    announce::lemma_spaceless(new_start);
    header::lemma_header_line_parts(old, new, tail);
    header::lemma_header_line_parts(old_start, new_start, tail);
}

/// Digits with a count behind them, and without.
proof fn lemma_digits_range(start: Seq<char>, count: nat)
    requires
        start.len() > 0,
        text::all_digits(start),
        count <= usize::MAX,
    ensures
        announce::spaceless(start),
        announce::spaceless(start + seq![','] + text::decimal(count)),
        header::range_count(start) == Some(1nat),
        header::range_count(start + seq![','] + text::decimal(count)) == Some(count),
{
    reveal_strlit(",");
    text::lemma_decimal_reads_back(count);
    let digits = text::decimal(count);
    let range = start + seq![','] + digits;
    let n = start.len() as int;
    assert forall|i: int| 0 <= i < start.len() implies #[trigger] start[i] != ' ' by {
        assert(text::is_digit(start[i]));
    }
    assert forall|i: int| 0 <= i < range.len() implies #[trigger] range[i] != ' ' by {
        if i < n {
            assert(range[i] == start[i]);
        } else if i > n {
            assert(range[i] == digits[i - n - 1]);
            assert(text::is_digit(digits[i - n - 1]));
        }
    }
    assert forall|j: int| 0 <= j <= n implies !#[trigger] text::occurs_at(start, ","@, j) by {
        text::lemma_occurs_chars(start, ","@, j);
        if text::occurs_at(start, ","@, j) {
            let k: int = 0;
            assert(start[j + k] == ","@[k]);
            assert(text::is_digit(start[j]));
        }
    }
    text::lemma_find_none(start, ","@);
    assert(range.subrange(n, n + 1) =~= ","@);
    assert forall|j: int| 0 <= j < n implies !#[trigger] text::occurs_at(range, ","@, j) by {
        text::lemma_occurs_chars(range, ","@, j);
        if text::occurs_at(range, ","@, j) {
            let k: int = 0;
            assert(range[j + k] == ","@[k]);
            assert(range[j] == start[j]);
            assert(text::is_digit(start[j]));
        }
    }
    text::lemma_find_is(range, ","@, n);
    assert(range.take(n) =~= start);
    assert(range.skip(n + 1) =~= digits);
    assert(text::is_digit(start[0]));
}

/// A number of any size, and a count behind a comma or none.
pub open spec fn is_range(range: Seq<char>) -> bool {
    &&& text::is_numeral(text::before(range, ","@))
    &&& text::split_once(range, ","@) matches Some((_, count)) ==> text::number(count) is Some
}

/// Two ranges stand in `line` behind `@@ -`, parted by ` +`.
pub open spec fn has_two_ranges(
    line: Seq<char>,
    old: Seq<char>,
    new: Seq<char>,
    rest: Seq<char>,
) -> bool {
    &&& line == "@@ -"@ + old + " +"@ + new + rest
    &&& is_range(old)
    &&& is_range(new)
    &&& rest.len() == 0 || text::starts_with(rest, " @@"@)
}

/// A line announces lines only where two ranges stand in it; any other announces none, and turning
/// a line round that does not begin with `@@ -` changes nothing.
pub proof fn law_malformed_header(line: Seq<char>)
    ensures
        header::header_counts(line) != (0nat, 0nat) ==> exists|
            old: Seq<char>,
            new: Seq<char>,
            rest: Seq<char>,
        | #[trigger] has_two_ranges(line, old, new, rest),
        !text::starts_with(line, "@@ -"@) ==> header::reversed_header(line) == line,
        !text::starts_with(text::trim(line), "@@ -"@) ==> header::header_starts(line) is None,
{
    if header::header_counts(line) != (0nat, 0nat) {
        reveal_strlit("@@ -");
        reveal_strlit(" +");
        reveal_strlit(" @@");
        let behind = text::without_prefix(line, "@@ -"@)->0;
        text_laws::law_prefix_and_rest(line, "@@ -"@, behind);
        text_laws::law_parts_make_the_text(behind, " @@"@);
        let both = text::before(behind, " @@"@);
        text_laws::law_parts_make_the_text(both, " +"@);
        let (old, new) = text::split_once(both, " +"@)->0;
        let rest = behind.skip(both.len() as int);
        assert(behind =~= both + rest);
        if let Some((front, back)) = text::split_once(behind, " @@"@) {
            assert(rest =~= " @@"@ + back);
            assert(rest.subrange(0, 3) =~= " @@"@);
        }
        assert(line =~= "@@ -"@ + old + " +"@ + new + rest);
        assert(has_two_ranges(line, old, new, rest));
    }
}

// ---------------------------------------------------------------------------------------------
// Diffs
// ---------------------------------------------------------------------------------------------

/// Path lines name the whole path behind `a/` or `b/`, and a missing file by the marker.
pub proof fn law_path_lines_name_paths(path: Seq<char>)
    ensures
        diff::diff_path("--- a/"@ + path) == path,
        diff::diff_path("+++ b/"@ + path) == path,
        diff::dev_null(diff::diff_path("--- /dev/null"@)),
        diff::dev_null(diff::diff_path("+++ /dev/null"@)),
        diff::dev_null(path) <==> path == "/dev/null"@ || path == "dev/null"@,
        !diff::dev_null(path) ==> patch::old_path_line(path) == "--- a/"@ + path
            && patch::new_path_line(path) == "+++ b/"@ + path,
        diff::dev_null(path) ==> patch::old_path_line(path) == "--- /dev/null"@
            && patch::new_path_line(path) == "+++ /dev/null"@,
{
    reveal_strlit("--- a/");
    reveal_strlit("+++ b/");
    reveal_strlit("--- /");
    reveal_strlit("+++ /");
    reveal_strlit("+++ a/");
    reveal_strlit("--- /dev/null");
    reveal_strlit("+++ /dev/null");
    reveal_strlit("dev/null");
    let old = "--- a/"@ + path;
    let new = "+++ b/"@ + path;
    assert(old.subrange(0, 6) =~= "--- a/"@);
    assert(new.subrange(0, 6) =~= "+++ b/"@);
    assert(old.skip(6) =~= path);
    assert(new.skip(6) =~= path);
    lemma_starts_differ(new, "--- a/"@, 0);
    let none = "--- /dev/null"@;
    lemma_starts_differ(none, "--- a/"@, 4);
    lemma_starts_differ(none, "+++ b/"@, 0);
    assert(none.subrange(0, 5) =~= "--- /"@);
    assert(none.skip(5) =~= "dev/null"@);
    let gone = "+++ /dev/null"@;
    lemma_starts_differ(gone, "--- a/"@, 0);
    lemma_starts_differ(gone, "+++ b/"@, 4);
    lemma_starts_differ(gone, "--- /"@, 0);
    assert(gone.subrange(0, 5) =~= "+++ /"@);
    assert(gone.skip(5) =~= "dev/null"@);
}

/// Path lines of plain diffs name the whole path, without `a/` or `b/` to take off; of an absolute
/// path the slash in front goes.
pub proof fn law_plain_path_lines(path: Seq<char>)
    ensures
        (path.len() == 0 || path[0] != '/') && (path.len() < 2 || path[1] != '/' || (path[0] != 'a'
            && path[0] != 'b')) ==> diff::diff_path("--- "@ + path) == path && diff::diff_path(
            "+++ "@ + path,
        ) == path,
        diff::diff_path("--- /"@ + path) == path,
        diff::diff_path("+++ /"@ + path) == path,
        diff::diff_path("+++ a/"@ + path) == path,
{
    reveal_strlit("--- a/");
    reveal_strlit("+++ b/");
    reveal_strlit("--- /");
    reveal_strlit("+++ /");
    reveal_strlit("+++ a/");
    reveal_strlit("--- ");
    reveal_strlit("+++ ");
    if (path.len() == 0 || path[0] != '/') && (path.len() < 2 || path[1] != '/' || (path[0] != 'a'
        && path[0] != 'b')) {
        let old = "--- "@ + path;
        let at_a: int = if path.len() > 0 && path[0] == 'a' {
            5
        } else {
            4
        };
        let at_b: int = if path.len() > 0 && path[0] == 'b' {
            5
        } else {
            4
        };
        lemma_starts_itself("--- "@, path);
        lemma_starts_differ(old, "--- a/"@, at_a);
        lemma_starts_differ(old, "+++ b/"@, 0);
        lemma_starts_differ(old, "--- /"@, 4);
        lemma_starts_differ(old, "+++ /"@, 0);
        lemma_starts_differ(old, "+++ a/"@, 0);
        assert(old.skip(4) =~= path);
        let new = "+++ "@ + path;
        lemma_starts_itself("+++ "@, path);
        lemma_starts_differ(new, "--- a/"@, 0);
        lemma_starts_differ(new, "+++ b/"@, at_b);
        lemma_starts_differ(new, "--- /"@, 0);
        lemma_starts_differ(new, "+++ /"@, 4);
        lemma_starts_differ(new, "+++ a/"@, at_a);
        lemma_starts_differ(new, "--- "@, 0);
        assert(new.skip(4) =~= path);
    }
    let from_root = "--- /"@ + path;
    lemma_starts_itself("--- /"@, path);
    lemma_starts_differ(from_root, "--- a/"@, 4);
    lemma_starts_differ(from_root, "+++ b/"@, 0);
    assert(from_root.skip(5) =~= path);
    let to_root = "+++ /"@ + path;
    lemma_starts_itself("+++ /"@, path);
    lemma_starts_differ(to_root, "--- a/"@, 0);
    lemma_starts_differ(to_root, "+++ b/"@, 4);
    lemma_starts_differ(to_root, "--- /"@, 0);
    assert(to_root.skip(5) =~= path);
    let same = "+++ a/"@ + path;
    lemma_starts_itself("+++ a/"@, path);
    lemma_starts_differ(same, "--- a/"@, 0);
    lemma_starts_differ(same, "+++ b/"@, 4);
    lemma_starts_differ(same, "--- /"@, 0);
    lemma_starts_differ(same, "+++ /"@, 4);
    assert(same.skip(6) =~= path);
}

/// A text does not begin with what it differs from.
proof fn lemma_starts_differ(text: Seq<char>, prefix: Seq<char>, k: int)
    requires
        0 <= k < prefix.len(),
        k < text.len() ==> text[k] != prefix[k],
    ensures
        !text::starts_with(text, prefix),
{
    text::lemma_occurs_chars(text, prefix, 0);
    if text::starts_with(text, prefix) {
        assert(text[0 + k] == prefix[k]);
    }
}

/// The path to show is one of the two paths, whole: the new one, unless it is empty or stands for
/// a missing file.
pub proof fn law_shown_path_is_whole(old: Seq<char>, new: Seq<char>)
    ensures
        new.len() > 0 && new != "/dev/null"@ && new != "dev/null"@ ==> diff::shown_path(old, new)
            == new,
        new.len() == 0 || new == "/dev/null"@ || new == "dev/null"@ ==> diff::shown_path(old, new)
            == old,
{
}

/// The files that come one behind the other in a diff.
proof fn lemma_hunks_of_path(files: Seq<FileDiff>, path: Seq<char>)
    requires
        path.len() > 0,
        !diff::dev_null(path),
        forall|i: int|
            0 <= i < files.len() ==> ((#[trigger] files[i]).paths matches Some(lines) ==> lines == (
                "--- a/"@ + path,
                "+++ b/"@ + path,
            )),
        forall|i: int|
            0 <= i < files.len() && (#[trigger] files[i]).paths is None ==> files[i].hunks.len()
                == 0,
    ensures
        forall|i: int|
            0 <= i < roundtrip::diff_hunks(files).len() ==> {
                let h = #[trigger] roundtrip::diff_hunks(files)[i];
                h.file == path && h.old_file == path && h.new_file == path
            },
    decreases files.len(),
{
    if files.len() > 0 {
        let front = files.drop_last();
        let last = files.last();
        assert(files[files.len() - 1] == last);
        assert forall|i: int| 0 <= i < front.len() implies ((#[trigger] front[i]).paths matches Some(
            lines,
        ) ==> lines == ("--- a/"@ + path, "+++ b/"@ + path)) by {
            assert(front[i] == files[i]);
        }
        assert forall|i: int|
            0 <= i < front.len() && (#[trigger] front[i]).paths is None implies front[i].hunks.len()
            == 0 by {
            assert(front[i] == files[i]);
        }
        lemma_hunks_of_path(front, path);
        law_path_lines_name_paths(path);
        let before = roundtrip::diff_hunks(front);
        let all = roundtrip::diff_hunks(files);
        assert forall|i: int| 0 <= i < all.len() implies ({
            let h = #[trigger] all[i];
            h.file == path && h.old_file == path && h.new_file == path
        }) by {
            if i < before.len() {
                assert(all[i] == before[i]);
            } else {
                assert(all[i] == last.parsed()[i - before.len()]);
            }
        }
    }
}

/// In a diff whose path lines are `--- a/` and `+++ b/` with the same path behind them, every hunk
/// that is read belongs to that path and shows it whole.
pub proof fn law_hunks_show_their_path(files: Seq<FileDiff>, path: Seq<char>)
    requires
        path.len() > 0,
        !diff::dev_null(path),
        forall|i: int|
            0 <= i < files.len() ==> (#[trigger] files[i]).well_formed(i == files.len() - 1),
        roundtrip::shares_no_metadata(files),
        forall|i: int|
            0 <= i < roundtrip::diff_lines(files).len() ==> text::one_line(
                #[trigger] roundtrip::diff_lines(files)[i],
            ),
        forall|i: int|
            0 <= i < files.len() ==> ((#[trigger] files[i]).paths matches Some(lines) ==> lines == (
                "--- a/"@ + path,
                "+++ b/"@ + path,
            )),
    ensures
        ({
            let raw = surgeon::joined(roundtrip::diff_lines(files));
            let hunks = diff::hunks_of(text::replaced(raw, "\r\n"@, "\r\r\n"@));
            forall|i: int|
                0 <= i < hunks.len() ==> {
                    let h = #[trigger] hunks[i];
                    h.file == path && h.old_file == path && h.new_file == path
                }
        }),
{
    roundtrip::law_diff_reads_back(files);
    assert forall|i: int|
        0 <= i < files.len() && (#[trigger] files[i]).paths is None implies files[i].hunks.len()
        == 0 by {
        assert(files[i].well_formed(i == files.len() - 1));
    }
    lemma_hunks_of_path(files, path);
}

/// The hunk that is being read, complete.
pub open spec fn read_hunk(state: ReaderView) -> HunkView {
    HunkView {
        file: if state.new_file.len() == 0 || state.new_file == "/dev/null"@ || state.new_file
            == "dev/null"@ {
            state.old_file
        } else {
            state.new_file
        },
        old_file: state.old_file,
        new_file: state.new_file,
        file_header: state.file_header,
        header: state.header->0,
        lines: state.lines,
        unsupported_metadata: state.unsupported,
    }
}

/// The hunks that are complete once the one that is being read, if any, is.
pub open spec fn all_hunks(state: ReaderView) -> Seq<HunkView> {
    if state.header is Some {
        state.hunks + seq![read_hunk(state)]
    } else {
        state.hunks
    }
}

/// A line of a body that is not complete is taken as it is, whatever stands in it. It is one fewer
/// to come on the old side unless it is added, and on the new side unless it is removed; the marker
/// for a missing line feed counts on neither.
pub proof fn law_body_lines_are_taken(state: ReaderView, line: Seq<char>)
    requires
        state.header is Some,
        state.old_left > 0 || state.new_left > 0,
    ensures
        ({
            let after = state.with_line(line);
            let is_marker = line.len() > 0 && line[0] == '\\';
            let is_added = line.len() > 0 && line[0] == '+';
            let is_removed = line.len() > 0 && line[0] == '-';
            &&& after.lines == state.lines + seq![line]
            &&& after.header == state.header && after.hunks == state.hunks
            &&& after.old_file == state.old_file && after.new_file == state.new_file
            &&& after.file_header == state.file_header && after.unsupported == state.unsupported
            &&& after.old_left == if is_marker || is_added || state.old_left == 0 {
                state.old_left as int
            } else {
                state.old_left - 1
            }
            &&& after.new_left == if is_marker || is_removed || state.new_left == 0 {
                state.new_left as int
            } else {
                state.new_left - 1
            }
        }),
{
    reveal(ReaderView::with_line);
    assert(state.with_line(line).lines =~= state.lines + seq![line]);
}

/// A line outside a body: one that begins with `diff --git` completes the hunk in front of it and
/// begins a file of which nothing is known; a `--- ` line completes it too and names the old file;
/// a `+++ ` line names the new one; a `@@ ` line completes it and begins another hunk, with the
/// lines that it announces to come; any other line belongs to the hunk, if there is one.
pub proof fn law_lines_outside_bodies(state: ReaderView, line: Seq<char>)
    requires
        state.header is None || (state.old_left == 0 && state.new_left == 0),
    ensures
        ({
            let after = state.with_line(line);
            let is_git = text::starts_with(line, "diff --git"@);
            let is_old = text::starts_with(line, "--- "@);
            let is_new = text::starts_with(line, "+++ "@);
            let is_range = text::starts_with(line, "@@ "@);
            &&& is_git ==> {
                &&& after.hunks == all_hunks(state)
                &&& after.header is None && after.lines.len() == 0 && after.unsupported is None
                &&& after.old_file.len() == 0 && after.new_file.len() == 0
                &&& after.file_header.len() == 0
            }
            &&& is_old ==> {
                &&& after.hunks == all_hunks(state)
                &&& after.header is None && (state.header is Some ==> after.lines.len() == 0)
                &&& after.file_header == line && after.old_file == diff::diff_path(line)
                &&& after.new_file == state.new_file && after.unsupported == state.unsupported
            }
            &&& is_new ==> {
                &&& after.hunks == state.hunks && after.header == state.header
                &&& after.lines == state.lines
                &&& after.file_header == state.file_header + seq!['\n'] + line
                &&& after.new_file == diff::diff_path(line) && after.old_file == state.old_file
                &&& after.unsupported == state.unsupported
            }
            &&& is_range ==> {
                &&& after.hunks == all_hunks(state)
                &&& after.header == Some(line)
                &&& (state.header is Some ==> after.lines.len() == 0)
                &&& (after.old_left, after.new_left) == header::header_counts(line)
                &&& after.file_header == state.file_header
                &&& after.old_file == state.old_file && after.new_file == state.new_file
                &&& after.unsupported == state.unsupported
            }
            &&& !is_git && !is_old && !is_new && !is_range ==> {
                &&& after.hunks == state.hunks && after.header == state.header
                &&& state.header is Some ==> after.lines == state.lines + seq![line]
                &&& state.header is None ==> after.lines == state.lines
                &&& after.file_header == state.file_header
                &&& after.old_file == state.old_file && after.new_file == state.new_file
                &&& state.unsupported is Some ==> after.unsupported == state.unsupported
                &&& state.unsupported is None ==> after.unsupported == diff::unsupported_preamble(
                    line,
                )
            }
        }),
{
    reveal(ReaderView::with_line);
    reveal_strlit("diff --git");
    reveal_strlit("--- ");
    reveal_strlit("+++ ");
    reveal_strlit("@@ ");
    let after = state.with_line(line);
    if text::starts_with(line, "diff --git"@) {
        roundtrip::lemma_first_char(line, "diff --git"@);
        lemma_starts_differ(line, "--- "@, 0);
        lemma_starts_differ(line, "+++ "@, 0);
        lemma_starts_differ(line, "@@ "@, 0);
    } else if text::starts_with(line, "--- "@) {
        roundtrip::lemma_first_char(line, "--- "@);
        lemma_tells_nothing(line);
        lemma_starts_differ(line, "+++ "@, 0);
        lemma_starts_differ(line, "@@ "@, 0);
    } else if text::starts_with(line, "+++ "@) {
        roundtrip::lemma_first_char(line, "+++ "@);
        lemma_tells_nothing(line);
        lemma_starts_differ(line, "@@ "@, 0);
    } else if text::starts_with(line, "@@ "@) {
        roundtrip::lemma_first_char(line, "@@ "@);
        lemma_tells_nothing(line);
    } else {
        assert(state.lines.push(line) =~= state.lines + seq![line]);
    }
    assert(state.hunks.push(state.current()) =~= state.hunks + seq![read_hunk(state)]);
}

/// A line that begins with another mark than those of a preamble tells nothing.
proof fn lemma_tells_nothing(line: Seq<char>)
    requires
        line.len() > 0,
        line[0] == '-' || line[0] == '+' || line[0] == '@',
    ensures
        diff::unsupported_preamble(line) is None,
{
    lemma_no_rename(line);
    lemma_no_copy(line);
    lemma_no_mode(line);
    reveal_strlit("similarity index ");
    reveal_strlit("dissimilarity index ");
    lemma_starts_differ(line, "similarity index "@, 0);
    lemma_starts_differ(line, "dissimilarity index "@, 0);
}

/// A diff is read line by line, from nothing, and its end completes the last hunk.
pub proof fn law_diffs_are_read_by_line(state: ReaderView, lines: Seq<Seq<char>>, line: Seq<char>)
    ensures
        state.with_lines(Seq::empty()) == state,
        state.with_lines(lines.push(line)) == state.with_lines(lines).with_line(line),
        diff::hunks_of_lines(lines) == all_hunks(
            (ReaderView {
                old_file: Seq::empty(),
                new_file: Seq::empty(),
                file_header: Seq::empty(),
                header: None,
                lines: Seq::empty(),
                unsupported: None,
                old_left: 0,
                new_left: 0,
                hunks: Seq::empty(),
            }).with_lines(lines),
        ),
{
    assert(lines.push(line).drop_last() =~= lines);
    let done = ReaderView::fresh(Seq::empty(), 0, 0).with_lines(lines);
    assert(done.hunks.push(done.current()) =~= done.hunks + seq![read_hunk(done)]);
}

/// A preamble line tells what a text patch cannot carry by the words it begins with, whatever
/// stands behind them. Lines on new and deleted files tell nothing.
pub proof fn law_unsupported_words(rest: Seq<char>)
    ensures
        diff::unsupported_preamble("rename from "@ + rest) == Some("rename from"@),
        diff::unsupported_preamble("rename to "@ + rest) == Some("rename to"@),
        diff::unsupported_preamble("copy from "@ + rest) == Some("copy from"@),
        diff::unsupported_preamble("copy to "@ + rest) == Some("copy to"@),
        diff::unsupported_preamble("old mode "@ + rest) == Some("old mode"@),
        diff::unsupported_preamble("new mode "@ + rest) == Some("new mode"@),
        diff::unsupported_preamble("similarity index "@ + rest) == Some("similarity index"@),
        diff::unsupported_preamble("dissimilarity index "@ + rest) == Some("dissimilarity index"@),
        diff::unsupported_preamble("new file mode "@ + rest) is None,
        diff::unsupported_preamble("deleted file mode "@ + rest) is None,
        diff::unsupported_preamble("index "@ + rest) is None,
{
    reveal_strlit("rename from ");
    reveal_strlit("rename to ");
    reveal_strlit("copy from ");
    reveal_strlit("copy to ");
    reveal_strlit("old mode ");
    reveal_strlit("new mode ");
    reveal_strlit("similarity index ");
    reveal_strlit("dissimilarity index ");
    reveal_strlit("new file mode ");
    reveal_strlit("deleted file mode ");
    reveal_strlit("index ");
    lemma_starts_itself("rename from "@, rest);
    lemma_starts_itself("rename to "@, rest);
    lemma_starts_itself("copy from "@, rest);
    lemma_starts_itself("copy to "@, rest);
    lemma_starts_itself("old mode "@, rest);
    lemma_starts_itself("new mode "@, rest);
    lemma_starts_itself("similarity index "@, rest);
    lemma_starts_itself("dissimilarity index "@, rest);
    lemma_starts_differ("rename to "@ + rest, "rename from "@, 7);
    lemma_no_rename("copy from "@ + rest);
    lemma_no_rename("copy to "@ + rest);
    lemma_starts_differ("copy to "@ + rest, "copy from "@, 5);
    lemma_no_rename("old mode "@ + rest);
    lemma_no_copy("old mode "@ + rest);
    lemma_no_rename("new mode "@ + rest);
    lemma_no_copy("new mode "@ + rest);
    lemma_starts_differ("new mode "@ + rest, "old mode "@, 0);
    lemma_no_rename("similarity index "@ + rest);
    lemma_no_copy("similarity index "@ + rest);
    lemma_no_mode("similarity index "@ + rest);
    lemma_no_rename("dissimilarity index "@ + rest);
    lemma_no_copy("dissimilarity index "@ + rest);
    lemma_no_mode("dissimilarity index "@ + rest);
    lemma_starts_differ("dissimilarity index "@ + rest, "similarity index "@, 0);
    let created = "new file mode "@ + rest;
    lemma_no_rename(created);
    lemma_no_copy(created);
    lemma_starts_differ(created, "old mode "@, 0);
    lemma_starts_differ(created, "new mode "@, 4);
    lemma_starts_differ(created, "similarity index "@, 0);
    lemma_starts_differ(created, "dissimilarity index "@, 0);
    let deleted = "deleted file mode "@ + rest;
    lemma_no_rename(deleted);
    lemma_no_copy(deleted);
    lemma_no_mode(deleted);
    lemma_starts_differ(deleted, "similarity index "@, 0);
    lemma_starts_differ(deleted, "dissimilarity index "@, 1);
    let index = "index "@ + rest;
    lemma_no_rename(index);
    lemma_no_copy(index);
    lemma_no_mode(index);
    lemma_starts_differ(index, "similarity index "@, 0);
    lemma_starts_differ(index, "dissimilarity index "@, 0);
}

/// Where a preamble line tells something, it begins with the words that it tells and a space, and
/// those are among the few that there are.
pub proof fn law_unsupported_needs_words(line: Seq<char>)
    ensures
        diff::unsupported_preamble(line) matches Some(words) ==> {
            &&& text::starts_with(line, words + seq![' '])
            &&& words == "rename from"@ || words == "rename to"@ || words == "copy from"@ || words
                == "copy to"@ || words == "old mode"@ || words == "new mode"@ || words
                == "similarity index"@ || words == "dissimilarity index"@
        },
{
    reveal_strlit("rename from ");
    reveal_strlit("rename to ");
    reveal_strlit("copy from ");
    reveal_strlit("copy to ");
    reveal_strlit("old mode ");
    reveal_strlit("new mode ");
    reveal_strlit("similarity index ");
    reveal_strlit("dissimilarity index ");
    reveal_strlit("rename from");
    reveal_strlit("rename to");
    reveal_strlit("copy from");
    reveal_strlit("copy to");
    reveal_strlit("old mode");
    reveal_strlit("new mode");
    reveal_strlit("similarity index");
    reveal_strlit("dissimilarity index");
    assert("rename from"@ + seq![' '] =~= "rename from "@);
    assert("rename to"@ + seq![' '] =~= "rename to "@);
    assert("copy from"@ + seq![' '] =~= "copy from "@);
    assert("copy to"@ + seq![' '] =~= "copy to "@);
    assert("old mode"@ + seq![' '] =~= "old mode "@);
    assert("new mode"@ + seq![' '] =~= "new mode "@);
    assert("similarity index"@ + seq![' '] =~= "similarity index "@);
    assert("dissimilarity index"@ + seq![' '] =~= "dissimilarity index "@);
}

/// A text begins with its own front.
proof fn lemma_starts_itself(front: Seq<char>, rest: Seq<char>)
    ensures
        text::starts_with(front + rest, front),
{
    assert((front + rest).subrange(0, front.len() as int) =~= front);
}

/// A line that does not begin with `r` tells of no renaming.
proof fn lemma_no_rename(line: Seq<char>)
    requires
        line.len() > 0,
        line[0] != 'r',
    ensures
        !text::starts_with(line, "rename from "@),
        !text::starts_with(line, "rename to "@),
{
    reveal_strlit("rename from ");
    reveal_strlit("rename to ");
    lemma_starts_differ(line, "rename from "@, 0);
    lemma_starts_differ(line, "rename to "@, 0);
}

/// A line that does not begin with `c` tells of no copying.
proof fn lemma_no_copy(line: Seq<char>)
    requires
        line.len() > 0,
        line[0] != 'c',
    ensures
        !text::starts_with(line, "copy from "@),
        !text::starts_with(line, "copy to "@),
{
    reveal_strlit("copy from ");
    reveal_strlit("copy to ");
    lemma_starts_differ(line, "copy from "@, 0);
    lemma_starts_differ(line, "copy to "@, 0);
}

/// A line that begins with neither `o` nor `n` tells of no mode.
proof fn lemma_no_mode(line: Seq<char>)
    requires
        line.len() > 0,
        line[0] != 'o',
        line[0] != 'n',
    ensures
        !text::starts_with(line, "old mode "@),
        !text::starts_with(line, "new mode "@),
{
    reveal_strlit("old mode ");
    reveal_strlit("new mode ");
    lemma_starts_differ(line, "old mode "@, 0);
    lemma_starts_differ(line, "new mode "@, 0);
}

// ---------------------------------------------------------------------------------------------
// Selections
// ---------------------------------------------------------------------------------------------

/// Line `i` lies in one of the ranges, ends included.
pub open spec fn lies_in(ranges: Seq<(usize, usize)>, i: int) -> bool {
    exists|k: int| 0 <= k < ranges.len() && (#[trigger] ranges[k]).0 <= i <= ranges[k].1
}

/// Inverted ranges hold exactly the lines from 1 to `len` that the ranges do not hold, in order
/// and with a line between any two of them that neither holds.
pub proof fn law_inverse(picked: Seq<(usize, usize)>, len: usize)
    ensures
        ({
            let rest = ranges::inverse(picked, len);
            &&& forall|i: int| #[trigger] lies_in(rest, i) <==> 1 <= i <= len && !lies_in(picked, i)
            &&& forall|k: int, l: int|
                0 <= k < l < rest.len() ==> (#[trigger] rest[k]).1 + 1 < (#[trigger] rest[l]).0
            &&& forall|k: int| 0 <= k < rest.len() ==> (#[trigger] rest[k]).0 <= rest[k].1
        }),
{
    ranges::lemma_inverse_inverts(picked, len);
    let rest = ranges::inverse(picked, len);
    assert forall|i: int| #[trigger] lies_in(rest, i) <==> 1 <= i <= len && !lies_in(picked, i) by {
        lemma_lies_in(rest, i);
        lemma_lies_in(picked, i);
    }
}

/// The lines that ranges cover are those that lie in them.
proof fn lemma_lies_in(picked: Seq<(usize, usize)>, i: int)
    ensures
        ranges::covered(picked, i) == lies_in(picked, i),
{
    if ranges::covered(picked, i) {
        let k = choose|k: int| 0 <= k < picked.len() && ranges::within(#[trigger] picked[k], i);
        assert(picked[k].0 <= i <= picked[k].1);
    }
    if lies_in(picked, i) {
        let k = choose|k: int|
            0 <= k < picked.len() && (#[trigger] picked[k]).0 <= i <= picked[k].1;
        assert(ranges::within(picked[k], i));
    }
}

/// A line is chosen of a hunk exactly where a part of the selection with the hunk's id holds it;
/// parts with other ids play no part.
pub proof fn law_chosen_lines(selected: Seq<SpecView>, id: Seq<char>, i: int)
    ensures
        lies_in(selection::chosen_ranges(selected, id), i) <==> exists|k: int|
            0 <= k < selected.len() && (#[trigger] selected[k]).id == id && lies_in(
                selected[k].ranges,
                i,
            ),
    decreases selected.len(),
{
    if selected.len() > 0 {
        let front = selected.drop_last();
        let last = selected.last();
        law_chosen_lines(front, id, i);
        let before = selection::chosen_ranges(front, id);
        if last.id == id {
            lemma_lies_in_add(before, last.ranges, i);
        }
        if exists|k: int|
            0 <= k < selected.len() && (#[trigger] selected[k]).id == id && lies_in(
                selected[k].ranges,
                i,
            ) {
            let k = choose|k: int|
                0 <= k < selected.len() && (#[trigger] selected[k]).id == id && lies_in(
                    selected[k].ranges,
                    i,
                );
            if k < front.len() {
                assert(front[k] == selected[k]);
            }
        }
        if lies_in(before, i) {
            let k = choose|k: int|
                0 <= k < front.len() && (#[trigger] front[k]).id == id && lies_in(
                    front[k].ranges,
                    i,
                );
            assert(selected[k] == front[k]);
        }
        assert(selected[selected.len() - 1] == last);
    }
}

/// What lies in one of two lists of ranges lies in both put together.
proof fn lemma_lies_in_add(a: Seq<(usize, usize)>, b: Seq<(usize, usize)>, i: int)
    ensures
        lies_in(a + b, i) == (lies_in(a, i) || lies_in(b, i)),
{
    let all = a + b;
    if lies_in(a, i) {
        let k = choose|k: int| 0 <= k < a.len() && (#[trigger] a[k]).0 <= i <= a[k].1;
        assert(all[k] == a[k]);
    }
    if lies_in(b, i) {
        let k = choose|k: int| 0 <= k < b.len() && (#[trigger] b[k]).0 <= i <= b[k].1;
        assert(all[k + a.len()] == b[k]);
    }
    if lies_in(all, i) {
        let k = choose|k: int| 0 <= k < all.len() && (#[trigger] all[k]).0 <= i <= all[k].1;
        if k < a.len() {
            assert(a[k] == all[k]);
        } else {
            assert(b[k - a.len()] == all[k]);
        }
    }
}

/// What is left over of a hunk has the hunk's id and is of that hunk. It is the whole hunk where
/// no part of the selection has its id, nothing where one takes it whole, and otherwise holds
/// exactly the lines that are not chosen; it is nothing exactly where no change is among those.
pub proof fn law_leftover(id: Seq<char>, h: HunkView, selected: Seq<SpecView>)
    requires
        h.lines.len() <= usize::MAX,
    ensures
        ({
            let chosen = exists|k: int|
                0 <= k < selected.len() && (#[trigger] selected[k]).id == id;
            let whole = exists|k: int|
                0 <= k < selected.len() && (#[trigger] selected[k]).id == id
                    && selected[k].ranges.len() == 0;
            let taken = selection::chosen_ranges(selected, id);
            match selection::leftover(id, h, selected) {
                Some(spec) => {
                    &&& spec.id == id && spec.hunk == h
                    &&& !whole
                    &&& !chosen <==> spec.ranges.len() == 0
                    &&& chosen ==> forall|i: int| #[trigger]
                        lies_in(spec.ranges, i) <==> 1 <= i <= h.lines.len() && !lies_in(taken, i)
                    &&& chosen ==> exists|i: int|
                        0 <= i < h.lines.len() && hunk::is_change(#[trigger] h.lines[i])
                            && !lies_in(taken, i + 1)
                },
                None => whole || (chosen && forall|i: int|
                    0 <= i < h.lines.len() && hunk::is_change(#[trigger] h.lines[i]) ==> lies_in(
                        taken,
                        i + 1,
                    )),
            }
        }),
{
    let taken = selection::chosen_ranges(selected, id);
    let len = h.lines.len() as usize;
    let rest = ranges::inverse(taken, len);
    law_inverse(taken, len);
    if selection::is_chosen_whole(selected, id) {
        let k = choose|k: int|
            0 <= k < selected.len() && (#[trigger] selected[k]).id == id
                && selected[k].ranges.len() == 0;
        assert(selected[k].id == id);
    } else if selection::is_chosen(selected, id) {
        if selection::has_change_in(h.lines, rest) {
            let i = choose|i: int|
                0 <= i < h.lines.len() && hunk::is_change(#[trigger] h.lines[i])
                    && ranges::covered(rest, i + 1);
            lemma_lies_in(rest, i + 1);
            assert(!lies_in(taken, i + 1));
            assert(rest.len() > 0);
        } else {
            assert forall|i: int|
                0 <= i < h.lines.len() && hunk::is_change(#[trigger] h.lines[i]) implies lies_in(
                taken,
                i + 1,
            ) by {
                lemma_lies_in(rest, i + 1);
                assert(!ranges::covered(rest, i + 1));
            }
        }
    }
}

/// What a selection leaves over of hunks one behind the other is what it leaves over of the first
/// and then what it leaves over of the others.
pub proof fn law_leftovers_add(
    a: Seq<(Seq<char>, HunkView)>,
    b: Seq<(Seq<char>, HunkView)>,
    selected: Seq<SpecView>,
)
    ensures
        selection::leftovers(a + b, selected) == selection::leftovers(a, selected)
            + selection::leftovers(b, selected),
        a.len() == 1 ==> selection::leftovers(a, selected) == match selection::leftover(
            a[0].0,
            a[0].1,
            selected,
        ) {
            Some(spec) => seq![spec],
            None => Seq::empty(),
        },
    decreases b.len(),
{
    if b.len() == 0 {
        assert(a + b =~= a);
        assert(selection::leftovers(a, selected) + selection::leftovers(b, selected)
            =~= selection::leftovers(a, selected));
    } else {
        law_leftovers_add(a, b.drop_last(), selected);
        assert((a + b).drop_last() =~= a + b.drop_last());
        assert((a + b).last() == b.last());
        assert(selection::leftovers(a + b, selected) =~= selection::leftovers(a, selected)
            + selection::leftovers(b, selected));
    }
    if a.len() == 1 {
        assert(a.drop_last() =~= Seq::empty());
        assert(selection::leftovers(a.drop_last(), selected) =~= Seq::empty());
    }
}

// ---------------------------------------------------------------------------------------------
// Patches
// ---------------------------------------------------------------------------------------------

/// Undoing adds what was removed and removes what was added; other lines stay. The two files trade
/// places, and so do the two sides of the body; the file to show and the metadata stay.
pub proof fn law_reversed_hunk(h: HunkView, i: int, text: Seq<char>)
    requires
        0 <= i < h.lines.len(),
    ensures
        ({
            let r = patch::reversed_hunk(h);
            &&& r.lines.len() == h.lines.len()
            &&& h.lines[i] == seq!['+'] + text <==> r.lines[i] == seq!['-'] + text
            &&& h.lines[i] == seq!['-'] + text <==> r.lines[i] == seq!['+'] + text
            &&& !hunk::is_change(h.lines[i]) ==> r.lines[i] == h.lines[i]
            &&& r.old_file == h.new_file && r.new_file == h.old_file
            &&& r.header == header::reversed_header(h.header)
            &&& r.file == h.file && r.unsupported_metadata == h.unsupported_metadata
            &&& r.file_header == patch::old_path_line(h.new_file) + seq!['\n']
                + patch::new_path_line(h.old_file)
            &&& hunk::old_side(r.lines) == hunk::new_side(h.lines)
            &&& hunk::new_side(r.lines) == hunk::old_side(h.lines)
        }),
{
    crate::laws::law_reversed_sides(h.lines);
    let r = patch::reversed_hunk(h);
    let line = h.lines[i];
    let turned = r.lines[i];
    assert((seq!['+'] + text).drop_first() =~= text);
    assert((seq!['-'] + text).drop_first() =~= text);
    if hunk::is_added(line) {
        assert(line =~= seq!['+'] + line.drop_first());
        assert(turned.drop_first() =~= line.drop_first());
        assert(turned[0] == '-');
    } else if hunk::is_removed(line) {
        assert(line =~= seq!['-'] + line.drop_first());
        assert(turned.drop_first() =~= line.drop_first());
        assert(turned[0] == '+');
    }
}

/// The patch for two selections together is the patch for the one and then that for the other; an
/// error in the one, or else in the other, is the error of both.
pub proof fn law_combined_patch_adds(a: Seq<SpecView>, b: Seq<SpecView>, reverse: bool)
    ensures
        patch::combined_patch(a + b, reverse) == match (
            patch::combined_patch(a, reverse),
            patch::combined_patch(b, reverse),
        ) {
            (Ok(front), Ok(back)) => Ok::<Seq<char>, PatchErrorView>(front + back),
            (Err(e), _) => Err(e),
            (Ok(_), Err(e)) => Err(e),
        },
    decreases b.len(),
{
    if b.len() == 0 {
        assert(a + b =~= a);
        if let Ok(front) = patch::combined_patch(a, reverse) {
            assert(front + Seq::<char>::empty() =~= front);
        }
    } else {
        law_combined_patch_adds(a, b.drop_last(), reverse);
        assert((a + b).drop_last() =~= a + b.drop_last());
        assert((a + b).last() == b.last());
        if let (Ok(front), Ok(middle), Ok(last)) = (
            patch::combined_patch(a, reverse),
            patch::combined_patch(b.drop_last(), reverse),
            patch::single_patch(b.last(), reverse),
        ) {
            assert(front + middle + last =~= front + (middle + last));
        }
    }
}

/// The patch for a single hunk: refused, by the hunk's id, where a text patch cannot carry the
/// change; the hunk as it is where it is taken whole; and cut down to the picked lines otherwise.
/// To undo, the hunk is turned round after it is cut down.
pub proof fn law_patch_of_one_hunk(id: Seq<char>, h: HunkView, picked: Seq<(usize, usize)>)
    ensures
        ({
            let one = seq![SpecView { id, hunk: h, ranges: picked }];
            let done = patch::combined_patch(one, false);
            let undone = patch::combined_patch(one, true);
            &&& h.unsupported_metadata matches Some(what) ==> {
                let message = "hunk "@ + id + " involves '"@ + what
                    + "' which is not supported for hunk-level operations"@;
                &&& done matches Err(e) && e is Unsupported && e.message() == message
                &&& undone matches Err(e) && e is Unsupported && e.message() == message
            }
            &&& h.unsupported_metadata is None && picked.len() == 0 ==> {
                &&& done matches Ok(text) && text == surgeon::patch_text(h)
                &&& undone matches Ok(text) && text == surgeon::patch_text(patch::reversed_hunk(h))
            }
            &&& h.unsupported_metadata is None && picked.len() > 0 ==> {
                &&& match surgeon::sliced_hunk(h, picked, false) {
                    Ok(cut) => done matches Ok(text) && text == surgeon::patch_text(cut),
                    Err(message) => done matches Err(e) && e is BadHeader && e.message() == message,
                }
                &&& match surgeon::sliced_hunk(h, picked, true) {
                    Ok(cut) => undone matches Ok(text) && text == surgeon::patch_text(
                        patch::reversed_hunk(cut),
                    ),
                    Err(message) => undone matches Err(e) && e is BadHeader && e.message()
                        == message,
                }
            }
        }),
{
    let spec = SpecView { id, hunk: h, ranges: picked };
    let one = seq![spec];
    assert(one.drop_last() =~= Seq::empty());
    assert(one.last() == spec);
    lemma_one_patch(spec, false);
    lemma_one_patch(spec, true);
}

/// The patch for a selection of one hunk.
proof fn lemma_one_patch(spec: SpecView, reverse: bool)
    ensures
        patch::combined_patch(seq![spec], reverse) == patch::single_patch(spec, reverse),
{
    let one = seq![spec];
    assert(one.drop_last() =~= Seq::empty());
    assert(patch::combined_patch(one.drop_last(), reverse) == Ok::<Seq<char>, PatchErrorView>(
        Seq::empty(),
    ));
    if let Ok(text) = patch::single_patch(spec, reverse) {
        assert(Seq::<char>::empty() + text =~= text);
    }
}

/// Each hunk has the id that was given to it.
pub proof fn law_ids_belong_to_hunks(ids: Seq<Seq<char>>, hunks: Seq<HunkView>)
    requires
        ids.len() == hunks.len(),
    ensures
        surgeon::with_ids(ids, hunks).len() == hunks.len(),
        forall|i: int|
            0 <= i < hunks.len() ==> (#[trigger] surgeon::with_ids(ids, hunks)[i]).0 == ids[i]
                && surgeon::with_ids(ids, hunks)[i].1 == hunks[i],
{
}

} // verus!
