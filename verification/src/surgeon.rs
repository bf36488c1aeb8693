//! The parts of the `git_surgeon` crate that hunks are handed to, and what is relied on of them.
use crate::header;
use crate::hunk;
use crate::hunk::{DiffHunk, HunkView};
use crate::ranges;
use crate::selection;
use crate::text;
use vstd::prelude::*;

verus! {

// ---------------------------------------------------------------------------------------------
// Refusing what a patch cannot carry
// ---------------------------------------------------------------------------------------------

/// The message that refuses a hunk.
pub open spec fn unsupported_message(id: Seq<char>, metadata: Seq<char>) -> Seq<char> {
    "hunk "@ + id + " involves '"@ + metadata
        + "' which is not supported for hunk-level operations"@
}

/// `git_surgeon::diff::check_supported`: passes a hunk without unsupported metadata and refuses
/// any other with a message that names the hunk and the metadata. The error comes as its text.
#[verifier::external_body]
pub(crate) fn check_supported(hunk: DiffHunk, id: &str) -> (r: Result<(), String>)
    ensures
        r is Ok <==> hunk@.unsupported_metadata is None,
        r is Err ==> r->Err_0@ == unsupported_message(id@, hunk@.unsupported_metadata->0),
{
    let DiffHunk { file, old_file, new_file, file_header, header, lines, unsupported_metadata } = hunk;
    let hunk = git_surgeon::diff::DiffHunk {
        file, old_file, new_file, file_header, header, lines, unsupported_metadata,
    };
    git_surgeon::diff::check_supported(&hunk, id).map_err(|e| e.to_string())
}

// ---------------------------------------------------------------------------------------------
// Slicing
// ---------------------------------------------------------------------------------------------

/// What becomes of a body line: changes outside the picked ranges are neutralised, so that they
/// are dropped or become context, whichever the state that the patch applies to calls for.
pub open spec fn sliced_line(line: Seq<char>, picked: bool, reverse: bool) -> Option<Seq<char>> {
    if picked || !hunk::is_change(line) {
        Some(line)
    } else if hunk::is_added(line) == reverse {
        Some(seq![' '] + line.drop_first())
    } else {
        None
    }
}

/// The body with the changes outside the given ranges neutralised.
pub open spec fn sliced_lines(
    lines: Seq<Seq<char>>,
    picked: Seq<(usize, usize)>,
    reverse: bool,
) -> Seq<Seq<char>>
    decreases lines.len(),
{
    if lines.len() == 0 {
        Seq::empty()
    } else {
        let front = sliced_lines(lines.drop_last(), picked, reverse);
        match sliced_line(lines.last(), ranges::covered(picked, lines.len() as int), reverse) {
            Some(line) => front.push(line),
            None => front,
        }
    }
}

/// How many lines of the body begin with one of two marks.
pub open spec fn marked_count(lines: Seq<Seq<char>>, a: char, b: char) -> nat
    decreases lines.len(),
{
    if lines.len() == 0 {
        0
    } else {
        let first = hunk::mark_of(lines.last());
        marked_count(lines.drop_last(), a, b) + if first == Some(a) || first == Some(b) {
            1nat
        } else {
            0nat
        }
    }
}

/// A range of digits and commas that starts with a number.
pub open spec fn plain_range(range: Seq<char>) -> bool {
    &&& forall|i: int|
        0 <= i < range.len() ==> (text::is_digit(#[trigger] range[i]) || range[i] == ',')
    &&& header::range_start(range) is Some
}

/// What stands in a `@@` line with two plain ranges: the lines at which the two sides start and
/// what stands behind the second `@@`.
pub open spec fn plain_frame(header: Seq<char>) -> Option<(nat, nat, Seq<char>)> {
    match header::header_parts(header) {
        Some((old, new, tail)) => if plain_range(old) && plain_range(new) {
            Some((header::range_start(old)->0, header::range_start(new)->0, tail))
        } else {
            None
        },
        None => None,
    }
}

/// A text without the `@@ ` at its front, however often it stands there.
pub open spec fn without_marks(text: Seq<char>) -> Seq<char>
    decreases text.len(),
{
    if text::starts_with(text, seq!['@', '@', ' ']) {
        without_marks(text.skip(3))
    } else {
        text
    }
}

/// How many characters at the front of a text are not white.
pub open spec fn word_length(text: Seq<char>) -> nat
    decreases text.len(),
{
    if text.len() == 0 || text::is_white(text[0]) {
        0
    } else {
        1 + word_length(text.drop_first())
    }
}

/// The first word of a text, which is empty where there is none, and what stands behind it.
pub open spec fn first_word(text: Seq<char>) -> (Seq<char>, Seq<char>) {
    let rest = text::trim_start(text);
    let n = word_length(rest) as int;
    (rest.take(n), rest.skip(n))
}

/// The start of the range in a word that begins with this mark.
pub open spec fn marked_start(word: Seq<char>, mark: char) -> Option<nat> {
    if word.len() > 0 && word[0] == mark {
        header::range_start(word.skip(1))
    } else {
        None
    }
}

/// What stands behind the first `@@` that follows the first `@@ `.
pub open spec fn context_of(header: Seq<char>) -> Seq<char> {
    match text::split_once(header, "@@ "@) {
        Some((_, rest)) => match text::split_once(rest, "@@"@) {
            Some((_, context)) => context,
            None => Seq::empty(),
        },
        None => Seq::empty(),
    }
}

/// What slicing takes over from a `@@` line: the lines at which the two sides start, out of the
/// first two words, and the context; or the message, where a start cannot be read.
pub open spec fn frame(header: Seq<char>) -> Result<(nat, nat, Seq<char>), Seq<char>> {
    let (first, rest) = first_word(text::before(without_marks(header), " @@"@));
    let (second, _) = first_word(rest);
    match (marked_start(first, '-'), marked_start(second, '+')) {
        (Some(old_start), Some(new_start)) => Ok((old_start, new_start, context_of(header))),
        (Some(_), None) => Err("cannot parse new start from header"@),
        (None, _) => Err("cannot parse old start from header"@),
    }
}

/// The range with this start and this count.
pub open spec fn counted_range(start: nat, count: nat) -> Seq<char> {
    text::decimal(start) + ","@ + text::decimal(count)
}

/// The `@@` line for a body: the given starts and context, and the body's own counts.
pub open spec fn counted_header(
    old_start: nat,
    new_start: nat,
    context: Seq<char>,
    lines: Seq<Seq<char>>,
) -> Seq<char> {
    header::header_line(
        counted_range(old_start, marked_count(lines, '-', ' ')),
        counted_range(new_start, marked_count(lines, '+', ' ')),
        context,
    )
}

/// A hunk cut down to the changes in the given ranges, or the message that says why it cannot be.
pub open spec fn sliced_hunk(
    hunk: HunkView,
    picked: Seq<(usize, usize)>,
    reverse: bool,
) -> Result<HunkView, Seq<char>> {
    match frame(hunk.header) {
        Ok((old_start, new_start, context)) => {
            let lines = sliced_lines(hunk.lines, picked, reverse);
            let header = counted_header(old_start, new_start, context, lines);
            Ok(HunkView { header, lines, ..hunk })
        },
        Err(message) => Err(message),
    }
}

/// What a result with a hunk or a message holds.
pub open spec fn hunk_or_message(r: Result<DiffHunk, String>) -> Result<HunkView, Seq<char>> {
    match r {
        Ok(hunk) => Ok(hunk@),
        Err(message) => Err(message@),
    }
}

/// `git_surgeon::patch::slice_hunk_multi`: keeps the changes in the given 1-based line ranges,
/// neutralises the others, and renews the counts of the `@@` line. The starts and the context stay,
/// as do the paths and the metadata. The error, for a `@@` line whose starts cannot be read, comes
/// as its text.
#[verifier::external_body]
pub(crate) fn slice_hunk_multi(
    hunk: DiffHunk,
    picked: &[(usize, usize)],
    reverse: bool,
) -> (r: Result<DiffHunk, String>)
    ensures
        hunk_or_message(r) == sliced_hunk(hunk@, picked@, reverse),
{
    let DiffHunk { file, old_file, new_file, file_header, header, lines, unsupported_metadata } = hunk;
    let whole = git_surgeon::diff::DiffHunk {
        file, old_file, new_file, file_header, header, lines, unsupported_metadata,
    };
    match git_surgeon::patch::slice_hunk_multi(&whole, picked, reverse) {
        Ok(git_surgeon::diff::DiffHunk {
            file, old_file, new_file, file_header, header, lines, unsupported_metadata,
        }) => Ok(DiffHunk {
            file, old_file, new_file, file_header, header, lines, unsupported_metadata,
        }),
        Err(e) => Err(e.to_string()),
    }
}

// ---------------------------------------------------------------------------------------------
// Patches
// ---------------------------------------------------------------------------------------------

/// Each line with a line feed behind it.
pub open spec fn joined(lines: Seq<Seq<char>>) -> Seq<char>
    decreases lines.len(),
{
    if lines.len() == 0 {
        Seq::empty()
    } else {
        joined(lines.drop_last()) + lines.last() + seq!['\n']
    }
}

/// The patch of a hunk: its path lines, its `@@` line and its body, each ended by a line feed.
pub open spec fn patch_text(hunk: HunkView) -> Seq<char> {
    hunk.file_header + seq!['\n'] + hunk.header + seq!['\n'] + joined(hunk.lines)
}

/// `git_surgeon::patch::build_patch`: the patch of a single hunk.
#[verifier::external_body]
pub(crate) fn build_patch(hunk: DiffHunk) -> (r: String)
    ensures
        r@ == patch_text(hunk@),
{
    let DiffHunk { file, old_file, new_file, file_header, header, lines, unsupported_metadata } = hunk;
    git_surgeon::patch::build_patch(&git_surgeon::diff::DiffHunk {
        file, old_file, new_file, file_header, header, lines, unsupported_metadata,
    })
}

// ---------------------------------------------------------------------------------------------
// Naming hunks
// ---------------------------------------------------------------------------------------------

/// The id that `git_surgeon::hunk_id::assign_ids` gives to a hunk with this path and this body,
/// but for the number that tells hunks with the same id apart.
pub uninterp spec fn short_id(file: Seq<char>, lines: Seq<Seq<char>>) -> Seq<char>;

/// How often a text occurs.
pub open spec fn occurrences(texts: Seq<Seq<char>>, wanted: Seq<char>) -> nat
    decreases texts.len(),
{
    if texts.len() == 0 {
        0
    } else {
        occurrences(texts.drop_last(), wanted) + if texts.last() == wanted {
            1nat
        } else {
            0nat
        }
    }
}

/// Ids that tell hunks apart: where a short id occurs again, it gets a number.
pub open spec fn numbered_ids(short: Seq<Seq<char>>) -> Seq<Seq<char>> {
    Seq::new(short.len(), |i: int| numbered_id(short[i], occurrences(short.take(i + 1), short[i])))
}

/// A short id that occurs for the `n`th time.
pub open spec fn numbered_id(short: Seq<char>, n: nat) -> Seq<char> {
    if n <= 1 {
        short
    } else {
        short + "-"@ + text::decimal(n)
    }
}

/// The ids of hunks, in order.
pub open spec fn ids_of(hunks: Seq<HunkView>) -> Seq<Seq<char>> {
    numbered_ids(Seq::new(hunks.len(), |i: int| short_id(hunks[i].file, hunks[i].lines)))
}

/// `git_surgeon::hunk_id::assign_ids`: an id for each hunk. It starts with the first seven digits
/// of a hash of the hunk's path and body; where those occur for the second time, `-2` follows, and
/// so on.
#[verifier::external_body]
pub(crate) fn ids_for(hunks: Vec<DiffHunk>) -> (r: Vec<String>)
    ensures
        text::views(r@) == numbered_ids(
            Seq::new(hunks@.len(), |i: int| short_id(hunks@[i]@.file, hunks@[i]@.lines)),
        ),
        forall|i: int|
            0 <= i < r@.len() ==> (#[trigger] r@[i])@.len() >= 7 && r@[i]@.take(7) == short_id(
                hunks@[i]@.file,
                hunks@[i]@.lines,
            ),
{
    let hunks: Vec<git_surgeon::diff::DiffHunk> = hunks.into_iter().map(|h| {
        let DiffHunk { file, old_file, new_file, file_header, header, lines, unsupported_metadata } = h;
        git_surgeon::diff::DiffHunk {
            file, old_file, new_file, file_header, header, lines, unsupported_metadata,
        }
    }).collect();
    git_surgeon::hunk_id::assign_ids(&hunks).into_iter().map(|(id, _)| id).collect()
}

/// A text that occurs at the end occurs more often than in front of it.
proof fn lemma_occurs_again(texts: Seq<Seq<char>>, i: int, j: int)
    requires
        0 <= i < j < texts.len(),
        texts[i] == texts[j],
    ensures
        occurrences(texts.take(i + 1), texts[i]) < occurrences(texts.take(j + 1), texts[j]),
        occurrences(texts.take(i + 1), texts[i]) >= 1,
    decreases j,
{
    assert(texts.take(j + 1).drop_last() =~= texts.take(j));
    assert(texts.take(i + 1).drop_last() =~= texts.take(i));
    lemma_occurrences_grow(texts, i + 1, j, texts[i]);
}

/// More texts hold a text no less often.
proof fn lemma_occurrences_grow(texts: Seq<Seq<char>>, i: int, j: int, wanted: Seq<char>)
    requires
        0 <= i <= j <= texts.len(),
    ensures
        occurrences(texts.take(i), wanted) <= occurrences(texts.take(j), wanted),
    decreases j - i,
{
    if i < j {
        assert(texts.take(j).drop_last() =~= texts.take(j - 1));
        lemma_occurrences_grow(texts, i, j - 1, wanted);
    }
}

/// Numbers tell the same short id apart.
proof fn lemma_numbered_apart(short: Seq<char>, a: nat, b: nat)
    requires
        1 <= a < b,
    ensures
        numbered_id(short, a) != numbered_id(short, b),
{
    reveal_strlit("-");
    let n = short.len() as int;
    let second = numbered_id(short, b);
    text::lemma_decimal_reads_back(a);
    text::lemma_decimal_reads_back(b);
    assert(second.skip(n + 1) =~= text::decimal(b));
    if a > 1 {
        assert(numbered_id(short, a).skip(n + 1) =~= text::decimal(a));
    } else {
        assert(second.len() > short.len());
    }
}

/// No id is given twice: short ids of the same length stay apart, and a number tells those apart
/// that are the same.
pub proof fn law_ids_are_unique(short: Seq<Seq<char>>)
    requires
        forall|i: int, j: int|
            0 <= i < short.len() && 0 <= j < short.len() ==> (#[trigger] short[i]).len() == (
            #[trigger] short[j]).len(),
    ensures
        numbered_ids(short).no_duplicates(),
{
    let ids = numbered_ids(short);
    assert forall|i: int, j: int| 0 <= i < j < ids.len() implies ids[i] != ids[j] by {
        let n = short[i].len() as int;
        assert(short[j].len() == n);
        assert(ids[i].take(n) =~= short[i]);
        assert(ids[j].take(n) =~= short[j]);
        if short[i] == short[j] {
            lemma_occurs_again(short, i, j);
            lemma_numbered_apart(
                short[i],
                occurrences(short.take(i + 1), short[i]),
                occurrences(short.take(j + 1), short[j]),
            );
        }
    }
}

/// Hunks with their ids in front of them.
pub open spec fn with_ids(ids: Seq<Seq<char>>, hunks: Seq<HunkView>) -> Seq<
    (Seq<char>, HunkView),
> {
    Seq::new(hunks.len(), |i: int| (ids[i], hunks[i]))
}

/// Puts ids in front of the hunks that they belong to.
pub fn name_hunks<'a>(ids: &Vec<String>, hunks: &'a [DiffHunk]) -> (r: Vec<
    (String, &'a DiffHunk),
>)
    requires
        ids@.len() == hunks@.len(),
    ensures
        selection::identified_views(r@) == with_ids(
            text::views(ids@),
            hunk::hunk_views(hunks@),
        ),
{
    let ghost expected = with_ids(text::views(ids@), hunk::hunk_views(hunks@));
    let mut out: Vec<(String, &'a DiffHunk)> = Vec::new();
    let mut i: usize = 0;
    while i < hunks.len()
        invariant
            i <= hunks@.len() == ids@.len(),
            expected == with_ids(text::views(ids@), hunk::hunk_views(hunks@)),
            out@.len() == i,
            forall|j: int|
                0 <= j < i ==> (#[trigger] out@[j]).0@ == expected[j].0 && out@[j].1@
                    == expected[j].1,
        decreases hunks@.len() - i,
    {
        out.push((ids[i].clone(), &hunks[i]));
        i = i + 1;
    }
    assert(selection::identified_views(out@) =~= expected);
    out
}

/// Gives each hunk an id, made from its path and its body. Line numbers play no part in it, so
/// the id stays when the hunk moves. No id is given twice.
pub fn assign_ids<'a>(hunks: &'a [DiffHunk]) -> (r: Vec<(String, &'a DiffHunk)>)
    ensures
        selection::identified_views(r@) == with_ids(
            ids_of(hunk::hunk_views(hunks@)),
            hunk::hunk_views(hunks@),
        ),
        ids_of(hunk::hunk_views(hunks@)).no_duplicates(),
{
    let mut copies: Vec<DiffHunk> = Vec::new();
    let mut i: usize = 0;
    while i < hunks.len()
        invariant
            i <= hunks@.len(),
            copies@.len() == i,
            forall|j: int| 0 <= j < i ==> (#[trigger] copies@[j])@ == hunks@[j]@,
        decreases hunks@.len() - i,
    {
        copies.push(hunks[i].clone());
        i = i + 1;
    }
    let ghost views = hunk::hunk_views(hunks@);
    assert(hunk::hunk_views(copies@) =~= views);
    let ids = ids_for(copies);
    proof {
        let short = Seq::new(views.len(), |i: int| short_id(views[i].file, views[i].lines));
        assert(short =~= Seq::new(
            copies@.len(),
            |i: int| short_id(copies@[i]@.file, copies@[i]@.lines),
        ));
        assert(text::views(ids@).len() == ids@.len());
        assert forall|i: int| 0 <= i < short.len() implies (#[trigger] short[i]).len() == 7 by {
            assert(ids@[i]@.take(7) == short[i]);
        }
        law_ids_are_unique(short);
    }
    name_hunks(&ids, hunks)
}

} // verus!
