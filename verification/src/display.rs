//! Showing a hunk with absolute line numbers.
use crate::header;
use crate::hunk;
use crate::hunk::{DiffHunk, HunkView};
use crate::terminal;
use crate::text;
use vstd::prelude::*;

verus! {

// ---------------------------------------------------------------------------------------------
// Rows
// ---------------------------------------------------------------------------------------------

/// The lines at which the two sides of a hunk start; the first line, where its `@@` line does not
/// say.
pub open spec fn starts(h: HunkView) -> (nat, nat) {
    match header::header_starts(h.header) {
        Some(both) => both,
        None => (1, 1),
    }
}

/// The greater of two numbers.
pub open spec fn larger(a: nat, b: nat) -> nat {
    if a >= b {
        a
    } else {
        b
    }
}

/// The line numbers of a hunk fit the machine.
pub open spec fn numbers_fit(h: HunkView) -> bool {
    larger(starts(h).0, starts(h).1) + h.lines.len() <= usize::MAX
}

/// The number of a body line: on the new side for an added line, on the old side for any other.
pub open spec fn line_number(h: HunkView, i: int) -> nat {
    if hunk::is_added(h.lines[i]) {
        starts(h).1 + hunk::new_side(h.lines.take(i)).len()
    } else {
        starts(h).0 + hunk::old_side(h.lines.take(i)).len()
    }
}

/// How many characters line numbers take.
pub open spec fn number_width(h: HunkView) -> nat {
    text::decimal(larger(starts(h).0, starts(h).1) + h.lines.len()).len()
}

/// `text` with spaces in front up to a width.
pub open spec fn padded(text: Seq<char>, width: nat) -> Seq<char> {
    Seq::new(
        if width > text.len() {
            (width - text.len()) as nat
        } else {
            0
        },
        |i: int| ' ',
    ) + text
}

/// The mark that a body line is shown with.
pub open spec fn shown_mark(line: Seq<char>) -> char {
    if hunk::is_added(line) {
        '+'
    } else if hunk::is_removed(line) {
        '-'
    } else {
        ' '
    }
}

/// The number of a body line as it is shown.
pub open spec fn shown_number(h: HunkView, i: int) -> Seq<char> {
    padded(text::decimal(line_number(h, i)), number_width(h))
}

/// A body line as it is shown without colours.
pub open spec fn plain_row(h: HunkView, i: int) -> Seq<char> {
    shown_number(h, i) + seq![':'] + seq![shown_mark(h.lines[i])] + hunk::content(h.lines[i])
        + seq!['\n']
}

/// The first `n` body lines as they are shown without colours.
pub open spec fn plain_rows(h: HunkView, n: nat) -> Seq<char>
    decreases n,
{
    if n == 0 {
        Seq::empty()
    } else {
        plain_rows(h, (n - 1) as nat) + plain_row(h, n - 1)
    }
}

/// A hunk as it is shown without colours.
pub open spec fn plain_display(h: HunkView) -> Seq<char> {
    plain_rows(h, h.lines.len())
}

/// The mark that a body line is shown with.
#[derive(Clone, Copy, PartialEq, Eq, Structural)]
enum Mark {
    Added,
    Removed,
    Context,
}

/// A body line with what is shown of it.
struct Row {
    mark: Mark,
    number: String,
    content: String,
}

/// The row shows body line `i`.
spec fn shows(row: Row, h: HunkView, i: int) -> bool {
    &&& row.mark == (if hunk::is_added(h.lines[i]) {
        Mark::Added
    } else if hunk::is_removed(h.lines[i]) {
        Mark::Removed
    } else {
        Mark::Context
    })
    &&& row.number@ == shown_number(h, i)
    &&& row.content@ == hunk::content(h.lines[i])
}

/// `text` with spaces in front up to a width.
fn pad(text: &str, width: usize) -> (r: String)
    ensures
        r@ == padded(text@, width as nat),
{
    let n: usize = text.unicode_len();
    let mut out = String::new();
    let mut i: usize = n;
    while i < width
        invariant
            n <= i,
            i <= width || i == n,
            out@ =~= Seq::new((i - n) as nat, |k: int| ' '),
        decreases width - i,
    {
        out.push(' ');
        i = i + 1;
    }
    out.append(text);
    assert(out@ =~= padded(text@, width as nat));
    out
}

/// The text of a body line behind its mark.
fn content_of(line: &str) -> (r: String)
    ensures
        r@ == hunk::content(line@),
{
    match hunk::mark(line) {
        Some(c) => {
            if c == '+' || c == '-' || c == ' ' {
                let rest = line.substring_char(1, line.unicode_len());
                assert(rest@ =~= line@.drop_first());
                rest.to_string()
            } else {
                line.to_string()
            }
        },
        None => line.to_string(),
    }
}

/// No side of a body is longer than the body.
proof fn lemma_sides_at_most(lines: Seq<Seq<char>>)
    ensures
        hunk::old_side(lines).len() <= lines.len(),
        hunk::new_side(lines).len() <= lines.len(),
    decreases lines.len(),
{
    if lines.len() > 0 {
        lemma_sides_at_most(lines.drop_last());
    }
}

/// The rows of a hunk.
fn rows_of(hunk: &DiffHunk) -> (r: Vec<Row>)
    requires
        numbers_fit(hunk@),
    ensures
        r@.len() == hunk@.lines.len(),
        forall|i: int| 0 <= i < r@.len() ==> shows(#[trigger] r@[i], hunk@, i),
{
    let (old_start, new_start) = match header::parse_header_starts(&hunk.header) {
        Some(both) => both,
        None => (1, 1),
    };
    let n: usize = hunk.lines.len();
    let last: usize = (if old_start >= new_start {
        old_start
    } else {
        new_start
    }) + n;
    let width: usize = text::decimal_text(last).as_str().unicode_len();
    let mut old_line: usize = old_start;
    let mut new_line: usize = new_start;
    let mut rows: Vec<Row> = Vec::new();
    let mut i: usize = 0;
    let ghost h = hunk@;
    assert(h.lines.take(0) =~= Seq::empty());
    while i < n
        invariant
            i <= n,
            n == hunk.lines@.len(),
            h == hunk@,
            starts(h) == (old_start as nat, new_start as nat),
            numbers_fit(h),
            width == number_width(h),
            old_line == old_start + hunk::old_side(h.lines.take(i as int)).len(),
            new_line == new_start + hunk::new_side(h.lines.take(i as int)).len(),
            rows@.len() == i,
            forall|k: int| 0 <= k < i ==> shows(#[trigger] rows@[k], h, k),
        decreases n - i,
    {
        let line = &hunk.lines[i];
        proof {
            assert(h.lines[i as int] == line@);
            assert(h.lines.take(i + 1).drop_last() =~= h.lines.take(i as int));
            lemma_sides_at_most(h.lines.take(i as int));
        }
        let (mark, number) = if hunk::adds(line) {
            let number: usize = new_line;
            new_line = new_line + 1;
            (Mark::Added, number)
        } else if hunk::removes(line) {
            let number: usize = old_line;
            old_line = old_line + 1;
            (Mark::Removed, number)
        } else {
            let number: usize = old_line;
            old_line = old_line + 1;
            new_line = new_line + 1;
            (Mark::Context, number)
        };
        let row = Row {
            mark,
            number: pad(&text::decimal_text(number), width),
            content: content_of(line),
        };
        assert(shows(row, h, i as int));
        rows.push(row);
        i = i + 1;
    }
    rows
}

/// Shows a hunk without colours.
fn format_plain(hunk: &DiffHunk) -> (r: String)
    requires
        numbers_fit(hunk@),
    ensures
        r@ == plain_display(hunk@),
{
    let rows = rows_of(hunk);
    let ghost h = hunk@;
    let mut out = String::new();
    let mut i: usize = 0;
    while i < rows.len()
        invariant
            i <= rows@.len(),
            rows@.len() == h.lines.len(),
            forall|k: int| 0 <= k < rows@.len() ==> shows(#[trigger] rows@[k], h, k),
            out@ == plain_rows(h, i as nat),
        decreases rows@.len() - i,
    {
        let row = &rows[i];
        let ghost before = out@;
        assert(shows(rows@[i as int], h, i as int));
        out.append(&row.number);
        out.push(':');
        match row.mark {
            Mark::Added => {
                out.push('+');
            },
            Mark::Removed => {
                out.push('-');
            },
            Mark::Context => {
                out.push(' ');
            },
        }
        out.append(&row.content);
        out.push('\n');
        assert(out@ =~= before + plain_row(h, i as int));
        i = i + 1;
    }
    out
}

// ---------------------------------------------------------------------------------------------
// Colours
// ---------------------------------------------------------------------------------------------

/// The lines that are highlighted, each with its line feed: what the hunk leaves behind.
pub open spec fn lines_to_highlight(h: HunkView) -> Seq<Seq<char>> {
    Seq::new(hunk::new_side(h.lines).len(), |k: int| hunk::new_side(h.lines)[k].push('\n'))
}

/// A highlighted line without its line feed and with colours reset behind it; the bare content
/// where it could not be highlighted.
pub open spec fn finished(light: Option<Seq<char>>, content: Seq<char>) -> Seq<char> {
    match light {
        Some(line) => (if line.len() > 0 && line.last() == '\n' {
            line.drop_last()
        } else {
            line
        }) + "\u{1b}[0m"@,
        None => content,
    }
}

/// The number, the mark and the body of a row, put together.
pub open spec fn row_text(number: Seq<char>, mark: Seq<char>, body: Seq<char>) -> Seq<char> {
    number + " "@ + mark + " "@ + body + "\n"@
}

/// A body line as it is shown in colours: a dim number; a green mark on added and a red one on
/// removed lines; and the highlighted line, or all red where it is removed. Where styles are off,
/// only the highlighting is there.
pub open spec fn coloured_row(
    h: HunkView,
    i: int,
    lights: Seq<Option<Seq<char>>>,
    on: bool,
) -> Seq<char> {
    let line = h.lines[i];
    let content = hunk::content(line);
    let light = lights[hunk::new_side(h.lines.take(i)).len() as int];
    let number = terminal::painted(shown_number(h, i), terminal::dim_code(), on);
    if hunk::is_added(line) {
        row_text(
            number,
            terminal::painted("+"@, terminal::green_code(), on),
            finished(light, content),
        )
    } else if hunk::is_removed(line) {
        row_text(
            number,
            terminal::painted("-"@, terminal::red_code(), on),
            terminal::painted(content, terminal::red_code(), on),
        )
    } else {
        row_text(
            number,
            terminal::painted(" "@, terminal::dim_code(), on),
            finished(light, content),
        )
    }
}

/// The first `n` body lines as they are shown in colours.
pub open spec fn coloured_rows(
    h: HunkView,
    lights: Seq<Option<Seq<char>>>,
    on: bool,
    n: nat,
) -> Seq<char>
    decreases n,
{
    if n == 0 {
        Seq::empty()
    } else {
        coloured_rows(h, lights, on, (n - 1) as nat) + coloured_row(h, n - 1, lights, on)
    }
}

/// A hunk as it is shown in colours, given its highlighted lines.
pub open spec fn coloured_display(
    h: HunkView,
    lights: Seq<Option<Seq<char>>>,
    on: bool,
) -> Seq<char> {
    coloured_rows(h, lights, on, h.lines.len())
}

/// Puts the number, the mark and the body of a row together.
pub fn format_row(number: &str, mark: &str, body: &str) -> (r: String)
    ensures
        r@ == row_text(number@, mark@, body@),
{
    let mut out = String::new();
    out.append(number);
    out.append(" ");
    out.append(mark);
    out.append(" ");
    out.append(body);
    out.append("\n");
    assert(out@ =~= row_text(number@, mark@, body@));
    out
}

/// Takes the line feed off a highlighted line and resets the colours behind it; a line that could
/// not be highlighted is shown as it is.
pub fn finish_highlight(light: &Option<String>, content: &str) -> (r: String)
    ensures
        r@ == finished(hunk::optional_view(*light), content@),
{
    match light {
        Some(line) => {
            let cs = text::chars_of(line);
            let n: usize = cs.len();
            let end: usize = if n > 0 && cs[n - 1] == '\n' {
                n - 1
            } else {
                n
            };
            let mut out = text::string_of(&cs, 0, end);
            assert(out@ =~= if n > 0 && line@.last() == '\n' {
                line@.drop_last()
            } else {
                line@
            });
            out.append("\u{1b}[0m");
            out
        },
        None => content.to_string(),
    }
}

/// What is highlighted of a hunk.
fn highlight_input(rows: &Vec<Row>, Ghost(h): Ghost<HunkView>) -> (r: Vec<String>)
    requires
        rows@.len() == h.lines.len(),
        forall|i: int| 0 <= i < rows@.len() ==> shows(#[trigger] rows@[i], h, i),
    ensures
        text::views(r@) == lines_to_highlight(h),
{
    let mut out: Vec<String> = Vec::new();
    let mut i: usize = 0;
    assert(h.lines.take(0) =~= Seq::empty());
    while i < rows.len()
        invariant
            i <= rows@.len(),
            rows@.len() == h.lines.len(),
            forall|k: int| 0 <= k < rows@.len() ==> shows(#[trigger] rows@[k], h, k),
            out@.len() == hunk::new_side(h.lines.take(i as int)).len(),
            forall|k: int|
                0 <= k < out@.len() ==> #[trigger] out@[k]@ == hunk::new_side(
                    h.lines.take(i as int),
                )[k].push('\n'),
        decreases rows@.len() - i,
    {
        let row = &rows[i];
        proof {
            assert(shows(rows@[i as int], h, i as int));
            assert(h.lines.take(i + 1).drop_last() =~= h.lines.take(i as int));
            assert(h.lines.take(i + 1).last() == h.lines[i as int]);
        }
        if row.mark != Mark::Removed {
            let mut line = row.content.clone();
            line.push('\n');
            out.push(line);
        }
        i = i + 1;
    }
    assert(h.lines.take(i as int) =~= h.lines);
    assert(text::views(out@) =~= lines_to_highlight(h));
    out
}

/// Shows a hunk in colours, with its highlighted lines. `on` says whether styles are on.
pub fn format_with_lights(hunk: &DiffHunk, lights: &Vec<Option<String>>, on: bool) -> (r: String)
    requires
        numbers_fit(hunk@),
        lights@.len() == hunk::new_side(hunk@.lines).len(),
    ensures
        r@ == coloured_display(hunk@, terminal::optional_views(lights@), on),
{
    let rows = rows_of(hunk);
    let ghost h = hunk@;
    let ghost named = terminal::optional_views(lights@);
    let total: usize = lights.len();
    let mut out = String::new();
    let mut next: usize = 0;
    let mut i: usize = 0;
    assert(h.lines.take(0) =~= Seq::empty());
    while i < rows.len()
        invariant
            i <= rows@.len(),
            rows@.len() == h.lines.len(),
            forall|k: int| 0 <= k < rows@.len() ==> shows(#[trigger] rows@[k], h, k),
            named == terminal::optional_views(lights@),
            total == lights@.len(),
            lights@.len() == hunk::new_side(h.lines).len(),
            next == hunk::new_side(h.lines.take(i as int)).len(),
            out@ == coloured_rows(h, named, on, i as nat),
        decreases rows@.len() - i,
    {
        let row = &rows[i];
        proof {
            assert(shows(rows@[i as int], h, i as int));
            assert(h.lines.take(i + 1).drop_last() =~= h.lines.take(i as int));
            assert(h.lines.take(i + 1).last() == h.lines[i as int]);
            lemma_side_grows(h.lines, i + 1);
        }
        let number = terminal::dim(&row.number, on);
        let (mark, body) = match row.mark {
            Mark::Added => (
                terminal::green("+", on),
                finish_highlight(&lights[next], &row.content),
            ),
            Mark::Removed => (terminal::red("-", on), terminal::red(&row.content, on)),
            Mark::Context => (
                terminal::dim(" ", on),
                finish_highlight(&lights[next], &row.content),
            ),
        };
        if row.mark != Mark::Removed {
            assert(named[next as int] == hunk::optional_view(lights@[next as int]));
            next = next + 1;
        }
        let piece = format_row(&number, &mark, &body);
        assert(piece@ == coloured_row(h, i as int, named, on));
        out.append(&piece);
        i = i + 1;
    }
    out
}

/// Shows a hunk in colours, highlighted for a file extension. `on` says whether styles are on.
pub fn format_coloured(hunk: &DiffHunk, extension: &str, on: bool) -> (r: String)
    requires
        numbers_fit(hunk@),
    ensures
        r@ == coloured_display(
            hunk@,
            terminal::lights(extension@, lines_to_highlight(hunk@)),
            on,
        ),
{
    let rows = rows_of(hunk);
    let input = highlight_input(&rows, Ghost(hunk@));
    let lights = terminal::light_up(extension, &input);
    assert(text::views(input@).len() == lines_to_highlight(hunk@).len());
    format_with_lights(hunk, &lights, on)
}

/// What a front part of a body leaves behind is no longer than what the body leaves behind.
proof fn lemma_side_grows(lines: Seq<Seq<char>>, n: int)
    requires
        0 <= n <= lines.len(),
    ensures
        hunk::new_side(lines.take(n)).len() <= hunk::new_side(lines).len(),
    decreases lines.len() - n,
{
    if n < lines.len() {
        assert(lines.take(n + 1).drop_last() =~= lines.take(n));
        lemma_side_grows(lines, n + 1);
    } else {
        assert(lines.take(n) =~= lines);
    }
}

/// Whether the line numbers of a hunk can all be written down.
pub fn has_numbers(hunk: &DiffHunk) -> (r: bool)
    ensures
        r == numbers_fit(hunk@),
{
    let (old_start, new_start) = match header::parse_header_starts(&hunk.header) {
        Some(both) => both,
        None => (1, 1),
    };
    let larger: usize = if old_start >= new_start {
        old_start
    } else {
        new_start
    };
    larger.checked_add(hunk.lines.len()).is_some()
}

/// Shows a hunk with absolute line numbers; with `color`, with diff colours and syntax
/// highlighting as well. Whether styles are on, the terminal and the environment decide; which
/// extension a path has, the platform does where platforms differ.
pub fn format_hunk_display(hunk: &DiffHunk, color: bool) -> (r: String)
    requires
        numbers_fit(hunk@),
    ensures
        !color ==> r@ == plain_display(hunk@),
        color ==> exists|extension: Seq<char>, on: bool|
            {
                &&& terminal::is_portable_path(hunk@.file) ==> extension
                    == terminal::lookup_extension(terminal::extension_of(hunk@.file))
                &&& r@ == #[trigger] coloured_display(
                    hunk@,
                    terminal::lights(extension, lines_to_highlight(hunk@)),
                    on,
                )
            },
{
    if color {
        let extension = terminal::extension_or_empty(terminal::extension(&hunk.file));
        format_coloured(hunk, &extension, terminal::styles_are_on())
    } else {
        format_plain(hunk)
    }
}

// ---------------------------------------------------------------------------------------------
// What holds of what is shown
// ---------------------------------------------------------------------------------------------

/// A text without the character that starts an escape code.
pub open spec fn has_no_escapes(text: Seq<char>) -> bool {
    forall|i: int| 0 <= i < text.len() ==> #[trigger] text[i] != '\u{1b}'
}

/// Two texts without escape codes make one without.
proof fn lemma_no_escapes_add(a: Seq<char>, b: Seq<char>)
    requires
        has_no_escapes(a),
        has_no_escapes(b),
    ensures
        has_no_escapes(a + b),
{
    assert forall|i: int| 0 <= i < (a + b).len() implies #[trigger] (a + b)[i] != '\u{1b}' by {
        if i < a.len() {
            assert((a + b)[i] == a[i]);
        } else {
            assert((a + b)[i] == b[i - a.len()]);
        }
    }
}

/// A row of a line without escape codes has none.
proof fn lemma_row_has_no_escapes(h: HunkView, i: int)
    requires
        0 <= i < h.lines.len(),
        has_no_escapes(h.lines[i]),
    ensures
        has_no_escapes(plain_row(h, i)),
{
    let line = h.lines[i];
    let digits = text::decimal(line_number(h, i));
    text::lemma_decimal_reads_back(line_number(h, i));
    assert forall|k: int| 0 <= k < digits.len() implies #[trigger] digits[k] != '\u{1b}' by {
        assert(text::is_digit(digits[k]));
    }
    let number = shown_number(h, i);
    let spaces = number.len() - digits.len();
    assert forall|k: int| 0 <= k < number.len() implies #[trigger] number[k] != '\u{1b}' by {
        if k >= spaces {
            assert(number[k] == digits[k - spaces]);
        }
    }
    let body = hunk::content(line);
    assert forall|k: int| 0 <= k < body.len() implies #[trigger] body[k] != '\u{1b}' by {
        if body.len() < line.len() {
            assert(body[k] == line[k + 1]);
        }
    }
    lemma_no_escapes_add(number, seq![':']);
    lemma_no_escapes_add(number + seq![':'], seq![shown_mark(line)]);
    lemma_no_escapes_add(number + seq![':'] + seq![shown_mark(line)], body);
    lemma_no_escapes_add(number + seq![':'] + seq![shown_mark(line)] + body, seq!['\n']);
}

/// Without colours nothing that is shown is an escape code, unless the hunk itself holds one.
pub proof fn law_plain_display_has_no_escapes(h: HunkView)
    requires
        forall|i: int| 0 <= i < h.lines.len() ==> has_no_escapes(#[trigger] h.lines[i]),
    ensures
        has_no_escapes(plain_display(h)),
{
    lemma_plain_rows_have_no_escapes(h, h.lines.len());
}

/// The first rows have no escape codes.
proof fn lemma_plain_rows_have_no_escapes(h: HunkView, n: nat)
    requires
        n <= h.lines.len(),
        forall|i: int| 0 <= i < h.lines.len() ==> has_no_escapes(#[trigger] h.lines[i]),
    ensures
        has_no_escapes(plain_rows(h, n)),
    decreases n,
{
    if n > 0 {
        lemma_plain_rows_have_no_escapes(h, (n - 1) as nat);
        assert(has_no_escapes(h.lines[n - 1]));
        lemma_row_has_no_escapes(h, n - 1);
        lemma_no_escapes_add(plain_rows(h, (n - 1) as nat), plain_row(h, n - 1));
    }
}

/// A greater number takes no fewer digits.
proof fn lemma_decimal_grows(a: nat, b: nat)
    requires
        a <= b,
    ensures
        text::decimal(a).len() <= text::decimal(b).len(),
    decreases b,
{
    if b >= 10 {
        if a >= 10 {
            lemma_decimal_grows(a / 10, b / 10);
        }
    }
}

/// The line numbers of a hunk are aligned: all take the same number of characters.
pub proof fn law_numbers_are_aligned(h: HunkView, i: int)
    requires
        0 <= i < h.lines.len(),
    ensures
        shown_number(h, i).len() == number_width(h),
{
    lemma_sides_at_most(h.lines.take(i));
    lemma_decimal_grows(line_number(h, i), larger(starts(h).0, starts(h).1) + h.lines.len());
}

} // verus!
