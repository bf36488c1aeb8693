//! Colours and syntax highlighting: the parts of `console` and `syntect` that hunks are shown
//! with, and what is relied on of them.
use crate::hunk;
use crate::text;
use vstd::prelude::*;

verus! {

/// `plain` between an escape code and the code that resets it; `plain` itself where styles are
/// off.
pub open spec fn painted(plain: Seq<char>, code: Seq<char>, on: bool) -> Seq<char> {
    if on {
        code + plain + "\u{1b}[0m"@
    } else {
        plain
    }
}

/// The code for green.
pub open spec fn green_code() -> Seq<char> {
    "\u{1b}[32m"@
}

/// The code for red.
pub open spec fn red_code() -> Seq<char> {
    "\u{1b}[31m"@
}

/// The code for dim text.
pub open spec fn dim_code() -> Seq<char> {
    "\u{1b}[2m"@
}

/// The code for bold text.
pub open spec fn bold_code() -> Seq<char> {
    "\u{1b}[1m"@
}

/// `console::colors_enabled`: whether styles are on for standard output. The terminal and the
/// environment decide, so nothing is said of the result.
#[verifier::external_body]
pub(crate) fn styles_are_on() -> (r: bool) {
    console::colors_enabled()
}

/// `console::Style::green` with `force_styling`: the text in the style, or as it is where styles are
/// off.
#[verifier::external_body]
pub(crate) fn green(plain: &str, on: bool) -> (r: String)
    ensures
        r@ == painted(plain@, green_code(), on),
{
    console::Style::new().green().force_styling(on).apply_to(plain).to_string()
}

/// `console::Style::red` with `force_styling`: the text in the style, or as it is where styles are
/// off.
#[verifier::external_body]
pub(crate) fn red(plain: &str, on: bool) -> (r: String)
    ensures
        r@ == painted(plain@, red_code(), on),
{
    console::Style::new().red().force_styling(on).apply_to(plain).to_string()
}

/// `console::Style::dim` with `force_styling`: the text in the style, or as it is where styles are
/// off.
#[verifier::external_body]
pub(crate) fn dim(plain: &str, on: bool) -> (r: String)
    ensures
        r@ == painted(plain@, dim_code(), on),
{
    console::Style::new().dim().force_styling(on).apply_to(plain).to_string()
}

/// `console::Style::bold` with `force_styling`: the text in the style, or as it is where styles are
/// off.
#[verifier::external_body]
pub(crate) fn bold(plain: &str, on: bool) -> (r: String)
    ensures
        r@ == painted(plain@, bold_code(), on),
{
    console::Style::new().bold().force_styling(on).apply_to(plain).to_string()
}

// ---------------------------------------------------------------------------------------------
// Highlighting
// ---------------------------------------------------------------------------------------------

/// The theme that hunks are shown in, one of those that come with `syntect`.
pub open spec fn theme() -> Seq<char> {
    "base16-ocean.dark"@
}

/// Whether `syntect` comes with a syntax for a file extension.
pub uninterp spec fn has_syntax(extension: Seq<char>) -> bool;

/// `syntect::parsing::SyntaxSet::find_syntax_by_extension`, on the syntaxes that come with the
/// crate: whether there is one for the extension.
#[verifier::external_body]
pub(crate) fn finds_syntax(extension: &str) -> (r: bool)
    ensures
        r == has_syntax(extension@),
{
    let syntaxes = syntect::parsing::SyntaxSet::load_defaults_newlines();
    syntaxes.find_syntax_by_extension(extension).is_some()
}

/// How `syntect` highlights the lines of a text, one behind the other, in a theme, with the
/// syntax for a file extension: the line with 24-bit terminal escapes, or nothing where it fails.
pub uninterp spec fn highlighted(
    theme: Seq<char>,
    extension: Seq<char>,
    lines: Seq<Seq<char>>,
) -> Seq<Option<Seq<char>>>;

/// How `syntect` highlights the lines of a text as plain text.
pub uninterp spec fn highlighted_plain(
    theme: Seq<char>,
    lines: Seq<Seq<char>>,
) -> Seq<Option<Seq<char>>>;

/// What optional strings hold.
pub open spec fn optional_views(strings: Seq<Option<String>>) -> Seq<Option<Seq<char>>> {
    Seq::new(strings.len(), |i: int| hunk::optional_view(strings[i]))
}

/// `syntect::easy::HighlightLines::highlight_line`, for each line in turn, with the syntax for a
/// file extension and the theme out of the sets that come with the crate, each result formatted by
/// `syntect::util::as_24_bit_terminal_escaped`: one result for each line.
#[verifier::external_body]
pub(crate) fn highlight_lines(
    theme_name: &str,
    extension: &str,
    lines: &Vec<String>,
) -> (r: Vec<Option<String>>)
    requires
        theme_name@ == theme(),
        has_syntax(extension@),
    ensures
        optional_views(r@) == highlighted(theme_name@, extension@, text::views(lines@)),
        r@.len() == lines@.len(),
{
    let syntaxes = syntect::parsing::SyntaxSet::load_defaults_newlines();
    let themes = syntect::highlighting::ThemeSet::load_defaults();
    let syntax = syntaxes.find_syntax_by_extension(extension).unwrap();
    let mut lighter = syntect::easy::HighlightLines::new(syntax, &themes.themes[theme_name]);
    lines.iter().map(|line| {
        let pieces = lighter.highlight_line(line, &syntaxes).ok()?;
        Some(syntect::util::as_24_bit_terminal_escaped(&pieces, false))
    }).collect()
}

/// `syntect::parsing::SyntaxSet::find_syntax_plain_text`, and then as [`highlight_lines`] with the
/// syntax that it gives: one result for each line.
#[verifier::external_body]
pub(crate) fn highlight_plain_lines(
    theme_name: &str,
    lines: &Vec<String>,
) -> (r: Vec<Option<String>>)
    requires
        theme_name@ == theme(),
    ensures
        optional_views(r@) == highlighted_plain(theme_name@, text::views(lines@)),
        r@.len() == lines@.len(),
{
    let syntaxes = syntect::parsing::SyntaxSet::load_defaults_newlines();
    let themes = syntect::highlighting::ThemeSet::load_defaults();
    let syntax = syntaxes.find_syntax_plain_text();
    let mut lighter = syntect::easy::HighlightLines::new(syntax, &themes.themes[theme_name]);
    lines.iter().map(|line| {
        let pieces = lighter.highlight_line(line, &syntaxes).ok()?;
        Some(syntect::util::as_24_bit_terminal_escaped(&pieces, false))
    }).collect()
}

/// How the lines of a file with this extension are highlighted: with the syntax for it, or as
/// plain text where there is none.
pub open spec fn lights(extension: Seq<char>, lines: Seq<Seq<char>>) -> Seq<Option<Seq<char>>> {
    if has_syntax(extension) {
        highlighted(theme(), extension, lines)
    } else {
        highlighted_plain(theme(), lines)
    }
}

/// Highlights the lines of a file with this extension: with the syntax for it, or as plain text
/// where there is none.
pub fn light_up(extension: &str, lines: &Vec<String>) -> (r: Vec<Option<String>>)
    ensures
        optional_views(r@) == lights(extension@, text::views(lines@)),
        r@.len() == lines@.len(),
{
    if finds_syntax(extension) {
        highlight_lines("base16-ocean.dark", extension, lines)
    } else {
        highlight_plain_lines("base16-ocean.dark", lines)
    }
}

// ---------------------------------------------------------------------------------------------
// File extensions
// ---------------------------------------------------------------------------------------------

/// What stands behind the last `mark` in `text`.
pub open spec fn after_last(text: Seq<char>, mark: char) -> Option<Seq<char>>
    decreases text.len(),
{
    if text.len() == 0 {
        None
    } else if text.last() == mark {
        Some(Seq::empty())
    } else {
        match after_last(text.drop_last(), mark) {
            Some(behind) => Some(behind.push(text.last())),
            None => None,
        }
    }
}

/// The last component of a path.
pub open spec fn file_name(path: Seq<char>) -> Seq<char> {
    match after_last(path, '/') {
        Some(name) => name,
        None => path,
    }
}

/// A relative path that ends in the name of a file, without the characters that some platform
/// takes apart in a way of its own.
pub open spec fn is_portable_path(path: Seq<char>) -> bool {
    &&& forall|i: int| 0 <= i < path.len() ==> #[trigger] path[i] != '\\' && path[i] != ':'
    &&& path.len() > 0 && path[0] != '/'
    &&& file_name(path).len() > 0
    &&& file_name(path) != seq!['.']
    &&& file_name(path) != seq!['.', '.']
}

/// What stands behind the last dot of the file name; there is no extension where there is no dot
/// but one in front.
pub open spec fn extension_of(path: Seq<char>) -> Option<Seq<char>> {
    match after_last(file_name(path), '.') {
        Some(extension) => if extension.len() + 1 < file_name(path).len() {
            Some(extension)
        } else {
            None
        },
        None => None,
    }
}

/// `std::path::Path::extension`: what stands behind the last dot of the file name, if there is an
/// extension. Stated of portable paths alone.
#[verifier::external_body]
pub(crate) fn extension(path: &str) -> (r: Option<String>)
    ensures
        is_portable_path(path@) ==> hunk::optional_view(r) == extension_of(path@),
{
    std::path::Path::new(path).extension().and_then(|e| e.to_str()).map(|e| e.to_string())
}

/// The extension that a syntax is looked up by; the empty text where there is none.
pub open spec fn lookup_extension(extension: Option<Seq<char>>) -> Seq<char> {
    match extension {
        Some(extension) => extension,
        None => Seq::empty(),
    }
}

/// The extension that a syntax is looked up by; the empty text where there is none.
pub fn extension_or_empty(extension: Option<String>) -> (r: String)
    ensures
        r@ == lookup_extension(hunk::optional_view(extension)),
{
    match extension {
        Some(extension) => extension,
        None => {
            let none = String::new();
            assert(none@ =~= Seq::empty());
            none
        },
    }
}

} // verus!
