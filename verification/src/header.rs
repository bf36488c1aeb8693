//! The `@@ -start,count +start,count @@` line of a hunk.
use crate::text;
use vstd::prelude::*;

verus! {

/// The old and the new range of a `@@` line: what stands between `@@ -` and the next ` @@`,
/// parted at the first ` +`.
pub open spec fn header_ranges(header: Seq<char>) -> Option<(Seq<char>, Seq<char>)> {
    match text::without_prefix(header, "@@ -"@) {
        Some(rest) => text::split_once(text::before(rest, " @@"@), " +"@),
        None => None,
    }
}

/// The line at which a range `start[,count]` starts.
pub open spec fn range_start(range: Seq<char>) -> Option<nat> {
    text::number(text::before(range, ","@))
}

/// How many lines a range `start[,count]` spans; a range without a count spans one. A range whose
/// start is no number is none; how large the start is plays no part.
pub open spec fn range_count(range: Seq<char>) -> Option<nat> {
    if !text::is_numeral(text::before(range, ","@)) {
        None
    } else {
        match text::split_once(range, ","@) {
            Some((_, count)) => text::number(count),
            None => Some(1),
        }
    }
}

/// How many body lines a `@@` line announces for the old and the new side. A malformed line
/// announces none.
pub open spec fn header_counts(header: Seq<char>) -> (nat, nat) {
    match header_ranges(header) {
        Some((old, new)) => match (range_count(old), range_count(new)) {
            (Some(o), Some(n)) => (o, n),
            _ => (0, 0),
        },
        None => (0, 0),
    }
}

/// The lines at which the old and the new side of a hunk start.
pub open spec fn header_starts(header: Seq<char>) -> Option<(nat, nat)> {
    match header_ranges(text::trim(header)) {
        Some((old, new)) => match (range_start(old), range_start(new)) {
            (Some(o), Some(n)) => Some((o, n)),
            _ => None,
        },
        None => None,
    }
}

/// The old range, the new range and what stands behind the second `@@`.
pub open spec fn header_parts(header: Seq<char>) -> Option<(Seq<char>, Seq<char>, Seq<char>)> {
    match text::without_prefix(header, "@@ -"@) {
        Some(rest) => match text::split_once(rest, " @@"@) {
            Some((ranges, tail)) => match text::split_once(ranges, " +"@) {
                Some((old, new)) => Some((old, new, tail)),
                None => None,
            },
            None => None,
        },
        None => None,
    }
}

/// The `@@` line with these ranges and this tail.
pub open spec fn header_line(old: Seq<char>, new: Seq<char>, tail: Seq<char>) -> Seq<char> {
    "@@ -"@ + old + " +"@ + new + " @@"@ + tail
}

/// The `@@` line with its two ranges swapped.
pub open spec fn reversed_header(header: Seq<char>) -> Seq<char> {
    match header_parts(header) {
        Some((old, new, tail)) => header_line(new, old, tail),
        None => header,
    }
}

/// The old and the new range of a `@@` line.
fn ranges<'a>(header: &'a str) -> (r: Option<(&'a str, &'a str)>)
    ensures
        text::texts_in(r) == header_ranges(header@),
{
    match text::strip_prefix(header, "@@ -") {
        Some(rest) => text::cut(text::up_to(rest, " @@"), " +"),
        None => None,
    }
}

/// How many lines a range spans.
fn count(range: &str) -> (r: Option<usize>)
    ensures
        match r {
            Some(n) => range_count(range@) == Some(n as nat),
            None => range_count(range@) is None,
        },
{
    if !text::spells_number(text::up_to(range, ",")) {
        return None;
    }
    match text::cut(range, ",") {
        Some((_, c)) => text::parse_usize(c),
        None => Some(1),
    }
}

/// Reads `(old_count, new_count)` from a `@@` line. A missing count means 1; a malformed line
/// gives `(0, 0)`.
pub fn parse_header_counts(header: &str) -> (r: (usize, usize))
    ensures
        (r.0 as nat, r.1 as nat) == header_counts(header@),
{
    match ranges(header) {
        Some((old, new)) => match (count(old), count(new)) {
            (Some(o), Some(n)) => (o, n),
            _ => (0, 0),
        },
        None => (0, 0),
    }
}

/// Reads the lines at which the two sides start from a `@@` line.
pub fn parse_header_starts(header: &str) -> (r: Option<(usize, usize)>)
    ensures
        match r {
            Some((old, new)) => header_starts(header@) == Some((old as nat, new as nat)),
            None => header_starts(header@) is None,
        },
{
    match ranges(text::trimmed(header)) {
        Some((old, new)) => {
            let o = text::parse_usize(text::up_to(old, ","));
            let n = text::parse_usize(text::up_to(new, ","));
            match (o, n) {
                (Some(o), Some(n)) => Some((o, n)),
                _ => None,
            }
        },
        None => None,
    }
}

/// Swaps the ranges of a `@@` line; a line that is not one stays as it is.
pub fn reverse_header(header: &str) -> (r: String)
    ensures
        r@ == reversed_header(header@),
{
    if let Some(rest) = text::strip_prefix(header, "@@ -") {
        if let Some((both, tail)) = text::cut(rest, " @@") {
            if let Some((old, new)) = text::cut(both, " +") {
                let mut out = String::new();
                out.append("@@ -");
                out.append(new);
                out.append(" +");
                out.append(old);
                out.append(" @@");
                out.append(tail);
                assert(out@ =~= header_line(new@, old@, tail@));
                return out;
            }
        }
    }
    header.to_string()
}

// ---------------------------------------------------------------------------------------------
// Laws
// ---------------------------------------------------------------------------------------------

/// A `@@` line is made up of its parts.
pub proof fn lemma_parts_make_header(header: Seq<char>)
    ensures
        header_parts(header) matches Some((old, new, tail)) ==> {
            &&& header == header_line(old, new, tail)
            &&& text::find(old + " +"@ + new, " +"@) == Some(old.len() as int)
            &&& text::find(old + " +"@ + new + " @@"@ + tail, " @@"@) == Some(
                (old.len() + 2 + new.len()) as int,
            )
        },
{
    reveal_strlit("@@ -");
    reveal_strlit(" @@");
    reveal_strlit(" +");
    if let Some((old, new, tail)) = header_parts(header) {
        let rest = header.skip(4);
        assert(header =~= "@@ -"@ + rest);
        text::lemma_find_some(rest, " @@"@);
        let i = text::find(rest, " @@"@)->0;
        let both = rest.take(i);
        assert(rest =~= both + " @@"@ + tail) by {
            assert(rest.subrange(i, i + 3) == " @@"@);
        }
        text::lemma_find_some(both, " +"@);
        let k = text::find(both, " +"@)->0;
        assert(both =~= old + " +"@ + new) by {
            assert(both.subrange(k, k + 2) == " +"@);
        }
        assert(header =~= header_line(old, new, tail));
    }
}

/// A `@@` line is read back into its parts, where the second ` @@` and the first ` +` are those
/// that part the ranges.
proof fn lemma_parts_read_back(old: Seq<char>, new: Seq<char>, tail: Seq<char>)
    requires
        text::first_at(old + " +"@ + new, " +"@, old.len() as int),
        text::first_at(
            old + " +"@ + new + " @@"@ + tail,
            " @@"@,
            (old.len() + 2 + new.len()) as int,
        ),
    ensures
        header_parts(header_line(old, new, tail)) == Some((old, new, tail)),
        header_ranges(header_line(old, new, tail)) == Some((old, new)),
{
    reveal_strlit("@@ -");
    reveal_strlit(" @@");
    reveal_strlit(" +");
    let header = header_line(old, new, tail);
    let both = old + " +"@ + new;
    let rest = both + " @@"@ + tail;
    assert(header =~= "@@ -"@ + rest);
    assert(header.subrange(0, 4) =~= "@@ -"@);
    assert(header.skip(4) =~= rest);
    text::lemma_find_is(rest, " @@"@, both.len() as int);
    assert(rest.take(both.len() as int) =~= both);
    assert(rest.skip(both.len() as int + 3) =~= tail);
    text::lemma_find_is(both, " +"@, old.len() as int);
    assert(both.take(old.len() as int) =~= old);
    assert(both.skip(old.len() as int + 2) =~= new);
}

/// The first ` +` between two ranges is the one that parts them.
proof fn lemma_first_plus(old: Seq<char>, new: Seq<char>)
    requires
        text::find(old, " +"@) is None,
    ensures
        text::first_at(old + " +"@ + new, " +"@, old.len() as int),
{
    reveal_strlit(" +");
    let both = old + " +"@ + new;
    let o = old.len() as int;
    assert(both.subrange(o, o + 2) =~= " +"@);
    assert forall|j: int| 0 <= j < o implies !#[trigger] text::occurs_at(both, " +"@, j) by {
        text::lemma_occurs_chars(both, " +"@, j);
        text::lemma_occurs_chars(old, " +"@, j);
        if text::occurs_at(both, " +"@, j) {
            assert(both[j + 0] == " +"@[0] && both[j + 1] == " +"@[1]);
            if j + 1 < o {
                assert(old[j] == both[j] && old[j + 1] == both[j + 1]);
                text::lemma_find_at_most(old, " +"@, j);
            }
        }
    }
}

/// The first ` @@` behind two ranges is the one that ends them.
proof fn lemma_first_at_signs(old: Seq<char>, new: Seq<char>, tail: Seq<char>)
    requires
        text::find(old, " @@"@) is None,
        text::find(new, " @@"@) is None,
    ensures
        text::first_at(
            old + " +"@ + new + " @@"@ + tail,
            " @@"@,
            (old.len() + 2 + new.len()) as int,
        ),
{
    reveal_strlit(" @@");
    reveal_strlit(" +");
    let rest = old + " +"@ + new + " @@"@ + tail;
    let o = old.len() as int;
    let n = new.len() as int;
    let end = o + 2 + n;
    assert(rest.subrange(end, end + 3) =~= " @@"@);
    assert forall|j: int| 0 <= j < end implies !#[trigger] text::occurs_at(rest, " @@"@, j) by {
        text::lemma_occurs_chars(rest, " @@"@, j);
        if text::occurs_at(rest, " @@"@, j) {
            assert(rest[j + 0] == " @@"@[0]);
            assert(rest[j + 1] == " @@"@[1]);
            assert(rest[j + 2] == " @@"@[2]);
            if j + 2 < o {
                assert(old[j] == rest[j] && old[j + 1] == rest[j + 1] && old[j + 2] == rest[j + 2]);
                text::lemma_occurs_chars(old, " @@"@, j);
                text::lemma_find_at_most(old, " @@"@, j);
            } else if j >= o + 2 {
                let k = j - o - 2;
                if k + 2 < n {
                    assert(new[k] == rest[j] && new[k + 1] == rest[j + 1] && new[k + 2] == rest[j
                        + 2]);
                    text::lemma_occurs_chars(new, " @@"@, k);
                    text::lemma_find_at_most(new, " @@"@, k);
                } else if k + 1 == n {
                    assert(rest[j + 1] == ' ');
                } else {
                    assert(rest[j + 2] == ' ');
                }
            } else if j + 2 == o {
                assert(rest[j + 2] == ' ');
            } else if j + 1 == o {
                assert(rest[j + 1] == ' ');
            } else if j == o {
                assert(rest[j + 1] == '+');
            } else {
                assert(rest[j] == '+');
            }
        }
    }
}

/// A part of a text that stands in front of the first occurrence holds none itself.
proof fn lemma_part_free(front: Seq<char>, part: Seq<char>, back: Seq<char>, needle: Seq<char>)
    requires
        needle.len() > 0,
        text::find(front + part + back, needle) matches Some(i) ==> front.len() + part.len() <= i,
    ensures
        text::find(part, needle) is None,
{
    let whole = front + part + back;
    if text::find(part, needle) is Some {
        text::lemma_find_some(part, needle);
        let i = text::find(part, needle)->0;
        let at = i + front.len();
        assert(whole.subrange(at, at + needle.len()) =~= part.subrange(i, i + needle.len()));
        text::lemma_find_at_most(whole, needle, at);
    }
}

/// Any two ranges that hold neither ` +` nor ` @@` are read back out of a `@@` line.
pub proof fn lemma_header_line_parts(old: Seq<char>, new: Seq<char>, tail: Seq<char>)
    requires
        text::find(old, " +"@) is None,
        text::find(old, " @@"@) is None,
        text::find(new, " @@"@) is None,
    ensures
        header_parts(header_line(old, new, tail)) == Some((old, new, tail)),
        header_ranges(header_line(old, new, tail)) == Some((old, new)),
{
    lemma_first_plus(old, new);
    lemma_first_at_signs(old, new, tail);
    lemma_parts_read_back(old, new, tail);
}

/// Swapping the ranges of a `@@` line: the parts of the result are the parts of the line with the
/// ranges swapped, and so are the counts. Left out are lines whose new range holds another ` +`,
/// at which the result would be parted.
pub proof fn law_reversed_header_swaps(header: Seq<char>)
    requires
        header_parts(header) matches Some((_, new, _)) && text::find(new, " +"@) is None,
    ensures
        ({
            let (old, new, tail) = header_parts(header)->0;
            let (old_count, new_count) = header_counts(header);
            &&& header_parts(reversed_header(header)) == Some((new, old, tail))
            &&& header_counts(reversed_header(header)) == (new_count, old_count)
        }),
{
    lemma_parts_make_header(header);
    let (old, new, tail) = header_parts(header)->0;
    let both = old + " +"@ + new;
    reveal_strlit(" @@");
    reveal_strlit(" +");
    assert(both =~= Seq::empty() + old + (" +"@ + new));
    lemma_part_free(Seq::empty(), old, " +"@ + new, " +"@);
    let rest = both + " @@"@ + tail;
    assert(rest =~= Seq::empty() + old + (" +"@ + new + " @@"@ + tail));
    lemma_part_free(Seq::empty(), old, " +"@ + new + " @@"@ + tail, " @@"@);
    assert(rest =~= (old + " +"@) + new + (" @@"@ + tail));
    lemma_part_free(old + " +"@, new, " @@"@ + tail, " @@"@);
    lemma_header_line_parts(new, old, tail);
    lemma_header_line_parts(old, new, tail);
}

/// Swapping the ranges of a `@@` line twice gives the line back.
pub proof fn law_reversed_header_twice(header: Seq<char>)
    requires
        header_parts(header) matches Some((_, new, _)) ==> text::find(new, " +"@) is None,
    ensures
        reversed_header(reversed_header(header)) == header,
{
    if header_parts(header) is Some {
        law_reversed_header_swaps(header);
        lemma_parts_make_header(header);
    }
}

} // verus!
