//! The counts of a `@@` line and the body that it announces.
use crate::header;
use crate::hunk;
use crate::hunk::HunkView;
use crate::patch;
use crate::ranges;
use crate::surgeon;
use crate::text;
use vstd::prelude::*;

verus! {

/// The `@@` line announces exactly the lines of the body, on both sides.
pub open spec fn announces(line: Seq<char>, body: Seq<Seq<char>>) -> bool {
    header::header_counts(line) == (
        surgeon::marked_count(body, '-', ' '),
        surgeon::marked_count(body, '+', ' '),
    )
}

/// No range of digits and commas holds a space.
pub open spec fn spaceless(range: Seq<char>) -> bool {
    forall|i: int| 0 <= i < range.len() ==> #[trigger] range[i] != ' '
}

/// Where no space is, nothing that begins with one is found.
pub(crate) proof fn lemma_spaceless(range: Seq<char>)
    requires
        spaceless(range),
    ensures
        text::find(range, " +"@) is None,
        text::find(range, " @@"@) is None,
{
    reveal_strlit(" +");
    reveal_strlit(" @@");
    let k: int = 0;
    assert forall|j: int| 0 <= j <= range.len() implies !#[trigger] text::occurs_at(
        range,
        " +"@,
        j,
    ) by {
        text::lemma_occurs_chars(range, " +"@, j);
        if text::occurs_at(range, " +"@, j) {
            assert(range[j + k] == " +"@[k]);
        }
    }
    text::lemma_find_none(range, " +"@);
    assert forall|j: int| 0 <= j <= range.len() implies !#[trigger] text::occurs_at(
        range,
        " @@"@,
        j,
    ) by {
        text::lemma_occurs_chars(range, " @@"@, j);
        if text::occurs_at(range, " @@"@, j) {
            assert(range[j + k] == " @@"@[k]);
        }
    }
    text::lemma_find_none(range, " @@"@);
}

/// A range is read back into its start and its count.
pub(crate) proof fn lemma_counted_range(start: nat, count: nat)
    requires
        start <= usize::MAX,
        count <= usize::MAX,
    ensures
        spaceless(surgeon::counted_range(start, count)),
        text::one_line(surgeon::counted_range(start, count)),
        header::range_start(surgeon::counted_range(start, count)) == Some(start),
        header::range_count(surgeon::counted_range(start, count)) == Some(count),
{
    reveal_strlit(",");
    let a = text::decimal(start);
    let b = text::decimal(count);
    let range = surgeon::counted_range(start, count);
    let n = a.len() as int;
    text::lemma_decimal_reads_back(start);
    text::lemma_decimal_reads_back(count);
    assert forall|i: int| 0 <= i < range.len() implies #[trigger] range[i] != ' ' && range[i]
        != '\n' by {
        if i < n {
            assert(range[i] == a[i] && text::is_digit(a[i]));
        } else if i > n {
            assert(range[i] == b[i - n - 1] && text::is_digit(b[i - n - 1]));
        }
    }
    assert(range.subrange(n, n + 1) =~= ","@);
    assert forall|j: int| 0 <= j < n implies !#[trigger] text::occurs_at(range, ","@, j) by {
        text::lemma_occurs_chars(range, ","@, j);
        if text::occurs_at(range, ","@, j) {
            let k: int = 0;
            assert(range[j + k] == ","@[k]);
            assert(range[j] == a[j] && text::is_digit(a[j]));
        }
    }
    text::lemma_find_is(range, ","@, n);
    assert(range.take(n) =~= a);
    assert(range.skip(n + 1) =~= b);
}

/// A text that ends with something other than white space keeps its end.
proof fn lemma_trim_end_keeps(front: Seq<char>, tail: Seq<char>)
    requires
        front.len() > 0,
        !text::is_white(front.last()),
    ensures
        text::trim_end(front + tail) == front + text::trim_end(tail),
    decreases tail.len(),
{
    if tail.len() == 0 {
        assert(front + tail =~= front);
        assert(front + text::trim_end(tail) =~= front);
    } else if text::is_white(tail.last()) {
        assert((front + tail).drop_last() =~= front + tail.drop_last());
        lemma_trim_end_keeps(front, tail.drop_last());
    }
}

/// White space around a `@@` line does not hide its ranges.
pub(crate) proof fn lemma_trimmed_header(old: Seq<char>, new: Seq<char>, tail: Seq<char>)
    ensures
        text::trim(header::header_line(old, new, tail)) == header::header_line(
            old,
            new,
            text::trim_end(tail),
        ),
{
    reveal_strlit("@@ -");
    reveal_strlit(" @@");
    let front = "@@ -"@ + old + " +"@ + new + " @@"@;
    let line = header::header_line(old, new, tail);
    assert(line =~= front + tail);
    assert(line[0] == '@');
    assert(text::trim_start(line) == line);
    assert(front.last() == '@');
    lemma_trim_end_keeps(front, tail);
}

/// The counts of a `@@` line made for a body, and the starts given to it, are read back.
pub proof fn law_counted_header_reads_back(
    old_start: nat,
    new_start: nat,
    context: Seq<char>,
    body: Seq<Seq<char>>,
)
    requires
        old_start <= usize::MAX,
        new_start <= usize::MAX,
        body.len() <= usize::MAX,
    ensures
        ({
            let line = surgeon::counted_header(old_start, new_start, context, body);
            &&& announces(line, body)
            &&& header::header_starts(line) == Some((old_start, new_start))
        }),
{
    lemma_counted_header_parts(old_start, new_start, context, body);
    let old = surgeon::counted_range(old_start, surgeon::marked_count(body, '-', ' '));
    let new = surgeon::counted_range(new_start, surgeon::marked_count(body, '+', ' '));
    lemma_spaceless(old);
    lemma_spaceless(new);
    lemma_trimmed_header(old, new, context);
    header::lemma_header_line_parts(old, new, text::trim_end(context));
}

/// The parts of a `@@` line made for a body.
pub(crate) proof fn lemma_counted_header_parts(
    old_start: nat,
    new_start: nat,
    context: Seq<char>,
    body: Seq<Seq<char>>,
)
    requires
        old_start <= usize::MAX,
        new_start <= usize::MAX,
        body.len() <= usize::MAX,
    ensures
        ({
            let line = surgeon::counted_header(old_start, new_start, context, body);
            let old = surgeon::counted_range(old_start, surgeon::marked_count(body, '-', ' '));
            let new = surgeon::counted_range(new_start, surgeon::marked_count(body, '+', ' '));
            &&& line == header::header_line(old, new, context)
            &&& header::header_parts(line) == Some((old, new, context))
            &&& header::header_ranges(line) == Some((old, new))
            &&& spaceless(old)
            &&& spaceless(new)
            &&& text::one_line(old)
            &&& text::one_line(new)
            &&& header::range_start(old) == Some(old_start)
            &&& header::range_start(new) == Some(new_start)
            &&& header::range_count(old) == Some(surgeon::marked_count(body, '-', ' '))
            &&& header::range_count(new) == Some(surgeon::marked_count(body, '+', ' '))
        }),
{
    lemma_marked_at_most(body, '-', ' ');
    lemma_marked_at_most(body, '+', ' ');
    let old = surgeon::counted_range(old_start, surgeon::marked_count(body, '-', ' '));
    let new = surgeon::counted_range(new_start, surgeon::marked_count(body, '+', ' '));
    lemma_counted_range(old_start, surgeon::marked_count(body, '-', ' '));
    lemma_counted_range(new_start, surgeon::marked_count(body, '+', ' '));
    lemma_spaceless(old);
    lemma_spaceless(new);
    let line = surgeon::counted_header(old_start, new_start, context, body);
    header::lemma_header_line_parts(old, new, context);
}

/// No more lines are marked than there are.
proof fn lemma_marked_at_most(body: Seq<Seq<char>>, a: char, b: char)
    ensures
        surgeon::marked_count(body, a, b) <= body.len(),
    decreases body.len(),
{
    if body.len() > 0 {
        lemma_marked_at_most(body.drop_last(), a, b);
    }
}

/// A hunk that has been cut down announces exactly its body, and starts where it started.
pub proof fn law_slice_announces(h: HunkView, picked: Seq<(usize, usize)>, reverse: bool)
    requires
        h.lines.len() <= usize::MAX,
        surgeon::sliced_hunk(h, picked, reverse) is Ok,
    ensures
        ({
            let sliced = surgeon::sliced_hunk(h, picked, reverse)->Ok_0;
            &&& announces(sliced.header, sliced.lines)
            &&& surgeon::plain_frame(h.header) is Some ==> header::header_starts(sliced.header)
                == header::header_starts(h.header)
        }),
{
    let sliced = surgeon::sliced_hunk(h, picked, reverse)->Ok_0;
    lemma_slice_no_longer(h.lines, picked, reverse);
    let (old_start, new_start, context) = surgeon::frame(h.header)->Ok_0;
    law_counted_header_reads_back(old_start, new_start, context, sliced.lines);
    if surgeon::plain_frame(h.header) is Some {
        lemma_plain_frame(h.header);
        lemma_plain_header(h.header);
    }
}

/// Cutting down adds no lines.
pub(crate) proof fn lemma_slice_no_longer(lines: Seq<Seq<char>>, picked: Seq<(usize, usize)>, reverse: bool)
    ensures
        surgeon::sliced_lines(lines, picked, reverse).len() <= lines.len(),
    decreases lines.len(),
{
    if lines.len() > 0 {
        lemma_slice_no_longer(lines.drop_last(), picked, reverse);
    }
}

/// A plain `@@` line says where its sides start.
pub(crate) proof fn lemma_plain_header(line: Seq<char>)
    requires
        surgeon::plain_frame(line) is Some,
    ensures
        ({
            let (old, new, tail) = header::header_parts(line)->0;
            let (old_start, new_start, _) = surgeon::plain_frame(line)->0;
            &&& header::header_starts(line) == Some((old_start, new_start))
            &&& line == header::header_line(old, new, tail)
            &&& spaceless(old)
            &&& spaceless(new)
            &&& text::find(new, " +"@) is None
        }),
{
    let (old, new, tail) = header::header_parts(line)->0;
    header::lemma_parts_make_header(line);
    assert forall|i: int| 0 <= i < old.len() implies #[trigger] old[i] != ' ' by {
        assert(text::is_digit(old[i]) || old[i] == ',');
    }
    assert forall|i: int| 0 <= i < new.len() implies #[trigger] new[i] != ' ' by {
        assert(text::is_digit(new[i]) || new[i] == ',');
    }
    lemma_spaceless(old);
    lemma_spaceless(new);
    lemma_trimmed_header(old, new, tail);
    header::lemma_header_line_parts(old, new, text::trim_end(tail));
}

/// A word ends where white space begins.
proof fn lemma_word_length(word: Seq<char>, rest: Seq<char>)
    requires
        forall|i: int| 0 <= i < word.len() ==> !text::is_white(#[trigger] word[i]),
        rest.len() > 0 ==> text::is_white(rest[0]),
    ensures
        surgeon::word_length(word + rest) == word.len(),
    decreases word.len(),
{
    if word.len() > 0 {
        let behind = word.drop_first();
        assert((word + rest).drop_first() =~= behind + rest);
        assert((word + rest)[0] == word[0]);
        assert forall|i: int| 0 <= i < behind.len() implies !text::is_white(
            #[trigger] behind[i],
        ) by {
            assert(behind[i] == word[i + 1]);
        }
        lemma_word_length(behind, rest);
    } else {
        assert(word + rest =~= rest);
    }
}

/// A word in front of white space is the first word.
proof fn lemma_first_word(word: Seq<char>, rest: Seq<char>)
    requires
        word.len() > 0,
        forall|i: int| 0 <= i < word.len() ==> !text::is_white(#[trigger] word[i]),
        rest.len() > 0 ==> text::is_white(rest[0]),
    ensures
        surgeon::first_word(word + rest) == (word, rest),
        surgeon::first_word(seq![' '] + word + rest) == (word, rest),
{
    lemma_word_length(word, rest);
    let all = word + rest;
    assert(all[0] == word[0]);
    assert(text::trim_start(all) == all);
    let spaced = seq![' '] + word + rest;
    assert(spaced.drop_first() =~= all);
    assert(text::trim_start(spaced) == text::trim_start(all));
    assert(all.take(word.len() as int) =~= word);
    assert(all.skip(word.len() as int) =~= rest);
}

/// The words in front of the second `@@` of a plain `@@` line.
proof fn lemma_plain_words(old: Seq<char>, new: Seq<char>)
    requires
        surgeon::plain_range(old),
        surgeon::plain_range(new),
    ensures
        surgeon::first_word(seq!['-'] + old + " +"@ + new) == (seq!['-'] + old, " +"@ + new),
        surgeon::first_word(" +"@ + new) == (seq!['+'] + new, Seq::<char>::empty()),
{
    reveal_strlit(" +");
    let first = seq!['-'] + old;
    let second = seq!['+'] + new;
    assert forall|i: int| 0 <= i < first.len() implies !text::is_white(#[trigger] first[i]) by {
        if i > 0 {
            assert(first[i] == old[i - 1]);
        }
    }
    assert forall|i: int| 0 <= i < second.len() implies !text::is_white(#[trigger] second[i]) by {
        if i > 0 {
            assert(second[i] == new[i - 1]);
        }
    }
    assert(seq!['-'] + old + " +"@ + new =~= first + (" +"@ + new));
    lemma_first_word(first, " +"@ + new);
    assert(" +"@ + new =~= seq![' '] + second + Seq::<char>::empty());
    lemma_first_word(second, Seq::<char>::empty());
}

/// The context of a plain `@@` line is what stands behind its second `@@`.
proof fn lemma_plain_context(old: Seq<char>, new: Seq<char>, tail: Seq<char>)
    requires
        surgeon::plain_range(old),
        surgeon::plain_range(new),
    ensures
        surgeon::context_of(header::header_line(old, new, tail)) == tail,
{
    reveal_strlit("@@ -");
    reveal_strlit(" +");
    reveal_strlit(" @@");
    reveal_strlit("@@ ");
    reveal_strlit("@@");
    let line = header::header_line(old, new, tail);
    assert(line.subrange(0, 3) =~= "@@ "@);
    text::lemma_find_is(line, "@@ "@, 0);
    let rest = line.skip(3);
    let front = seq!['-'] + old + " +"@ + new + seq![' '];
    assert(rest =~= front + "@@"@ + tail);
    let n = front.len() as int;
    assert(rest.subrange(n, n + 2) =~= "@@"@);
    assert forall|j: int| 0 <= j < n implies !#[trigger] text::occurs_at(rest, "@@"@, j) by {
        text::lemma_occurs_chars(rest, "@@"@, j);
        if text::occurs_at(rest, "@@"@, j) {
            let k: int = 0;
            assert(rest[j + k] == "@@"@[k]);
            assert(rest[j] == front[j]);
            let o = old.len() as int;
            if 1 <= j < 1 + o {
                assert(front[j] == old[j - 1]);
            } else if 3 + o <= j < n - 1 {
                assert(front[j] == new[j - 3 - o]);
            }
        }
    }
    text::lemma_find_is(rest, "@@"@, n);
    assert(rest.skip(n + 2) =~= tail);
}

/// Slicing takes over the starts and the tail of a plain `@@` line.
pub(crate) proof fn lemma_plain_frame(line: Seq<char>)
    requires
        surgeon::plain_frame(line) is Some,
    ensures
        surgeon::frame(line) == Ok::<(nat, nat, Seq<char>), Seq<char>>(
            surgeon::plain_frame(line)->0,
        ),
{
    reveal_strlit("@@ -");
    reveal_strlit(" +");
    reveal_strlit(" @@");
    header::lemma_parts_make_header(line);
    let (old, new, tail) = header::header_parts(line)->0;
    let both = seq!['-'] + old + " +"@ + new;
    let rest = line.skip(3);
    let mark = seq!['@', '@', ' '];
    assert(line.subrange(0, 3) =~= mark);
    assert(rest =~= both + " @@"@ + tail);
    assert(!text::starts_with(rest, mark)) by {
        text::lemma_occurs_chars(rest, mark, 0);
        let k: int = 0;
        assert(rest[0 + k] == '-');
        if text::starts_with(rest, mark) {
            assert(rest[0 + k] == mark[k]);
        }
    }
    assert(surgeon::without_marks(line) == surgeon::without_marks(rest));
    assert(surgeon::without_marks(rest) == rest);
    let inner = old + " +"@ + new + " @@"@ + tail;
    assert(rest =~= seq!['-'] + inner);
    assert forall|j: int| 0 <= j < 1 implies !#[trigger] text::occurs_at(
        seq!['-'] + inner,
        " @@"@,
        j,
    ) by {
        text::lemma_occurs_chars(rest, " @@"@, j);
        let k: int = 0;
        if text::occurs_at(rest, " @@"@, j) {
            assert(rest[j + k] == " @@"@[k]);
        }
    }
    text::lemma_find_behind(seq!['-'], inner, " @@"@);
    assert(rest.take(both.len() as int) =~= both);
    assert(text::before(rest, " @@"@) == both);
    lemma_plain_words(old, new);
    assert((seq!['-'] + old).skip(1) =~= old);
    assert((seq!['+'] + new).skip(1) =~= new);
    lemma_plain_context(old, new, tail);
}

/// Reversing swaps the marks.
proof fn lemma_reversed_marks(lines: Seq<Seq<char>>)
    ensures
        surgeon::marked_count(patch::reversed_lines(lines), '-', ' ') == surgeon::marked_count(
            lines,
            '+',
            ' ',
        ),
        surgeon::marked_count(patch::reversed_lines(lines), '+', ' ') == surgeon::marked_count(
            lines,
            '-',
            ' ',
        ),
    decreases lines.len(),
{
    if lines.len() > 0 {
        lemma_reversed_marks(lines.drop_last());
        assert(patch::reversed_lines(lines).drop_last() =~= patch::reversed_lines(
            lines.drop_last(),
        ));
    }
}

/// A hunk that announces exactly its body does so reversed too, where its `@@` line has no third
/// range.
pub proof fn law_reverse_announces(h: HunkView)
    requires
        announces(h.header, h.lines),
        header::header_parts(h.header) matches Some((_, new, _)) && text::find(new, " +"@) is None,
    ensures
        announces(patch::reversed_hunk(h).header, patch::reversed_hunk(h).lines),
{
    header::law_reversed_header_swaps(h.header);
    lemma_reversed_marks(h.lines);
}

} // verus!
