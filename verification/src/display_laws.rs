//! What a reader sees of a hunk.
use crate::display;
use crate::header;
use crate::hunk;
use crate::hunk::HunkView;
use crate::route_laws;
use crate::terminal;
use crate::text;
use vstd::prelude::*;

verus! {

/// The sides of a hunk start where its `@@` line says, and at the first line where it does not say.
pub proof fn law_starts(h: HunkView)
    ensures
        header::header_starts(h.header) matches Some(both) ==> display::starts(h) == both,
        header::header_starts(h.header) is None ==> display::starts(h) == (1nat, 1nat),
{
}

/// Lines are numbered side by side: an added line by how many lines of the new side stand in front
/// of it, any other by how many of the old side do.
pub proof fn law_line_numbers(h: HunkView, i: int)
    requires
        0 <= i < h.lines.len(),
    ensures
        route_laws::begins_with(h.lines[i], '+') ==> display::line_number(h, i) + (
        route_laws::count_of(h.lines.take(i), '-')) == display::starts(h).1 + i,
        !route_laws::begins_with(h.lines[i], '+') ==> display::line_number(h, i) + (
        route_laws::count_of(h.lines.take(i), '+')) == display::starts(h).0 + i,
{
    route_laws::law_sides_count(h.lines.take(i));
}

/// Padding puts spaces in front up to the width, and nothing where the text is as wide already.
pub proof fn law_padding(text: Seq<char>, width: nat)
    ensures
        text.len() >= width ==> display::padded(text, width) == text,
        text.len() <= width ==> {
            let shown = display::padded(text, width);
            &&& shown.len() == width
            &&& shown.skip(width - text.len()) == text
            &&& forall|i: int| 0 <= i < width - text.len() ==> #[trigger] shown[i] == ' '
        },
{
    let shown = display::padded(text, width);
    if text.len() >= width {
        assert(shown =~= text);
    } else {
        assert(shown.skip(width - text.len()) =~= text);
    }
}

/// A row shows the number of the line, its mark and its text, whole. Context lines that lost their
/// mark are shown as context.
pub proof fn law_plain_row(h: HunkView, i: int, text: Seq<char>)
    requires
        0 <= i < h.lines.len(),
    ensures
        ({
            let number = display::padded(
                text::decimal(display::line_number(h, i)),
                display::number_width(h),
            );
            let row = display::plain_row(h, i);
            &&& h.lines[i] == seq!['+'] + text ==> row == number + seq![':', '+'] + text
                + seq!['\n']
            &&& h.lines[i] == seq!['-'] + text ==> row == number + seq![':', '-'] + text
                + seq!['\n']
            &&& h.lines[i] == seq![' '] + text ==> row == number + seq![':', ' '] + text
                + seq!['\n']
            &&& h.lines[i] == text && (text.len() == 0 || (text[0] != '+' && text[0] != '-'
                && text[0] != ' ')) ==> row == number + seq![':', ' '] + text + seq!['\n']
        }),
{
    let number = display::shown_number(h, i);
    let line = h.lines[i];
    assert((seq!['+'] + text).drop_first() =~= text);
    assert((seq!['-'] + text).drop_first() =~= text);
    assert((seq![' '] + text).drop_first() =~= text);
    let mark = display::shown_mark(line);
    assert(number + seq![':'] + seq![mark] =~= number + seq![':', mark]);
}

/// Numbers take as many characters as the largest start and the length of the body together.
pub proof fn law_number_width(h: HunkView)
    ensures
        ({
            let (old, new) = display::starts(h);
            &&& old >= new ==> display::number_width(h) == text::decimal(
                old + h.lines.len(),
            ).len() && (display::numbers_fit(h) <==> old + h.lines.len() <= usize::MAX)
            &&& old <= new ==> display::number_width(h) == text::decimal(
                new + h.lines.len(),
            ).len() && (display::numbers_fit(h) <==> new + h.lines.len() <= usize::MAX)
        }),
{
}

/// The lines that are shown in front of line `n`, then that line.
pub proof fn law_rows_add_up(h: HunkView, lights: Seq<Option<Seq<char>>>, on: bool, n: nat)
    ensures
        display::plain_rows(h, n + 1) == display::plain_rows(h, n) + display::plain_row(
            h,
            n as int,
        ),
        display::plain_rows(h, 0).len() == 0,
        display::plain_display(h) == display::plain_rows(h, h.lines.len()),
        display::coloured_rows(h, lights, on, n + 1) == display::coloured_rows(h, lights, on, n)
            + display::coloured_row(h, n as int, lights, on),
        display::coloured_rows(h, lights, on, 0).len() == 0,
        display::coloured_display(h, lights, on) == display::coloured_rows(
            h,
            lights,
            on,
            h.lines.len(),
        ),
{
}

/// What is highlighted is what the hunk leaves behind, line by line and whole.
pub proof fn law_highlighted_lines(h: HunkView, k: int)
    requires
        0 <= k < hunk::new_side(h.lines).len(),
    ensures
        display::lines_to_highlight(h).len() + route_laws::count_of(h.lines, '-') == h.lines.len(),
        display::lines_to_highlight(h)[k] == hunk::new_side(h.lines)[k] + seq!['\n'],
{
    route_laws::law_sides_count(h.lines);
    assert(display::lines_to_highlight(h)[k] =~= hunk::new_side(h.lines)[k] + seq!['\n']);
}

/// A highlighted line loses one line feed at its end and nothing else, and colours are reset behind
/// it; what could not be highlighted is shown as it is.
pub proof fn law_finished(line: Seq<char>, content: Seq<char>)
    ensures
        display::finished(Some(line + seq!['\n']), content) == line + "\u{1b}[0m"@,
        line.len() == 0 || line.last() != '\n' ==> display::finished(Some(line), content) == line
            + "\u{1b}[0m"@,
        display::finished(None, content) == content,
{
    assert((line + seq!['\n']).drop_last() =~= line);
}

/// A row in colours shows the number, the mark and the line: an added line and a context line as
/// they are highlighted, by the next of the lines that the hunk leaves behind; a removed line as
/// it is, in red. Without styles the same is shown without codes.
pub proof fn law_coloured_row(h: HunkView, i: int, lights: Seq<Option<Seq<char>>>, text: Seq<char>)
    requires
        0 <= i < h.lines.len(),
    ensures
        ({
            let number = display::padded(
                text::decimal(display::line_number(h, i)),
                display::number_width(h),
            );
            let light = lights[i - route_laws::count_of(h.lines.take(i), '-')];
            let bare = display::coloured_row(h, i, lights, false);
            let row = display::coloured_row(h, i, lights, true);
            let dim = "\u{1b}[2m"@ + number + "\u{1b}[0m"@;
            &&& h.lines[i] == seq!['+'] + text ==> {
                let body = display::finished(light, text);
                &&& bare == number + " "@ + "+"@ + " "@ + body + "\n"@
                &&& row == dim + " "@ + ("\u{1b}[32m"@ + "+"@ + "\u{1b}[0m"@) + " "@ + body + "\n"@
            }
            &&& h.lines[i] == seq!['-'] + text ==> {
                &&& bare == number + " "@ + "-"@ + " "@ + text + "\n"@
                &&& row == dim + " "@ + ("\u{1b}[31m"@ + "-"@ + "\u{1b}[0m"@) + " "@ + (
                "\u{1b}[31m"@ + text + "\u{1b}[0m"@) + "\n"@
            }
            &&& h.lines[i] == seq![' '] + text || (h.lines[i] == text && (text.len() == 0 || (text[0]
                != '+' && text[0] != '-' && text[0] != ' '))) ==> {
                let body = display::finished(light, text);
                &&& bare == number + " "@ + " "@ + " "@ + body + "\n"@
                &&& row == dim + " "@ + ("\u{1b}[2m"@ + " "@ + "\u{1b}[0m"@) + " "@ + body + "\n"@
            }
        }),
{
    route_laws::law_sides_count(h.lines.take(i));
    assert((seq!['+'] + text).drop_first() =~= text);
    assert((seq!['-'] + text).drop_first() =~= text);
    assert((seq![' '] + text).drop_first() =~= text);
}

/// Lines are highlighted with the syntax for the extension where there is one, and as plain text
/// where there is none, in the same theme.
pub proof fn law_lights(extension: Seq<char>, lines: Seq<Seq<char>>)
    ensures
        terminal::has_syntax(extension) ==> terminal::lights(extension, lines)
            == terminal::highlighted("base16-ocean.dark"@, extension, lines),
        !terminal::has_syntax(extension) ==> terminal::lights(extension, lines)
            == terminal::highlighted_plain("base16-ocean.dark"@, lines),
{
}

/// A text does not hold this character.
pub open spec fn is_free_of(text: Seq<char>, c: char) -> bool {
    forall|i: int| 0 <= i < text.len() ==> #[trigger] text[i] != c
}

/// What stands behind the last mark.
proof fn lemma_after_last(front: Seq<char>, back: Seq<char>, mark: char)
    requires
        is_free_of(back, mark),
    ensures
        terminal::after_last(front + seq![mark] + back, mark) == Some(back),
        terminal::after_last(back, mark) is None,
    decreases back.len(),
{
    let all = front + seq![mark] + back;
    if back.len() == 0 {
        assert(all.last() == mark);
    } else {
        let less = back.drop_last();
        lemma_after_last(front, less, mark);
        assert(all.drop_last() =~= front + seq![mark] + less);
        assert(all.last() == back.last());
        assert(back[back.len() - 1] != mark);
        assert(less.push(back.last()) =~= back);
    }
}

/// The extension of a path is what stands behind the last dot of its last component, whatever
/// directories stand in front; there is none without a dot, or with one in front alone.
pub proof fn law_extension(directory: Seq<char>, stem: Seq<char>, extension: Seq<char>)
    requires
        is_free_of(stem, '/'),
        is_free_of(extension, '/'),
        is_free_of(extension, '.'),
    ensures
        stem.len() > 0 ==> {
            &&& terminal::extension_of(stem + seq!['.'] + extension) == Some(extension)
            &&& terminal::extension_of(directory + seq!['/'] + (stem + seq!['.'] + extension))
                == Some(extension)
        },
        terminal::extension_of(extension) is None,
        terminal::extension_of(seq!['.'] + extension) is None,
        terminal::extension_of(directory + seq!['/'] + extension) is None,
        terminal::extension_of(directory + seq!['/'] + (seq!['.'] + extension)) is None,
        terminal::lookup_extension(Some(extension)) == extension,
        terminal::lookup_extension(None).len() == 0,
{
    let name = stem + seq!['.'] + extension;
    let hidden = seq!['.'] + extension;
    assert(is_free_of(name, '/'));
    assert(is_free_of(hidden, '/'));
    lemma_after_last(directory, name, '/');
    lemma_after_last(directory, hidden, '/');
    lemma_after_last(directory, extension, '/');
    lemma_after_last(stem, extension, '.');
    lemma_after_last(Seq::empty(), extension, '.');
    assert(Seq::<char>::empty() + seq!['.'] + extension =~= hidden);
}

} // verus!
