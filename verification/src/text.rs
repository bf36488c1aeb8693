//! Text as a sequence of characters: the searching, splitting and number handling that diffs need.
use vstd::prelude::*;

verus! {

/// `std`'s `String::push`: the character goes to the end of the string.
pub assume_specification[ String::push ](string: &mut String, ch: char)
    ensures
        final(string)@ == old(string)@.push(ch),
;

// ---------------------------------------------------------------------------------------------
// Searching
// ---------------------------------------------------------------------------------------------

/// `needle` stands in `text` at position `i`.
pub open spec fn occurs_at(text: Seq<char>, needle: Seq<char>, i: int) -> bool {
    &&& 0 <= i
    &&& i + needle.len() <= text.len()
    &&& text.subrange(i, i + needle.len()) == needle
}

/// The first place where `needle` stands in `text` is `i`.
pub open spec fn first_at(text: Seq<char>, needle: Seq<char>, i: int) -> bool {
    &&& occurs_at(text, needle, i)
    &&& forall|j: int| 0 <= j < i ==> !#[trigger] occurs_at(text, needle, j)
}

/// Where `needle` first stands in `text`, if anywhere.
pub open spec fn find(text: Seq<char>, needle: Seq<char>) -> Option<int> {
    if exists|i: int| #[trigger] first_at(text, needle, i) {
        Some(choose|i: int| #[trigger] first_at(text, needle, i))
    } else {
        None
    }
}

/// `text` begins with `prefix`.
pub open spec fn starts_with(text: Seq<char>, prefix: Seq<char>) -> bool {
    occurs_at(text, prefix, 0)
}

/// What stands in front of and behind the first `sep` in `text`.
pub open spec fn split_once(text: Seq<char>, sep: Seq<char>) -> Option<(Seq<char>, Seq<char>)> {
    match find(text, sep) {
        Some(i) => Some((text.take(i), text.skip(i + sep.len()))),
        None => None,
    }
}

/// The part of `text` in front of the first `sep`, or all of it.
pub open spec fn before(text: Seq<char>, sep: Seq<char>) -> Seq<char> {
    match find(text, sep) {
        Some(i) => text.take(i),
        None => text,
    }
}

/// A first occurrence is what `find` finds.
pub proof fn lemma_find_is(text: Seq<char>, needle: Seq<char>, i: int)
    requires
        first_at(text, needle, i),
    ensures
        find(text, needle) == Some(i),
{
    let k = choose|k: int| #[trigger] first_at(text, needle, k);
    assert(first_at(text, needle, k));
    if k < i {
        assert(!occurs_at(text, needle, k));
    } else if i < k {
        assert(!occurs_at(text, needle, i));
    }
}

/// What `find` finds is a first occurrence.
pub proof fn lemma_find_some(text: Seq<char>, needle: Seq<char>)
    ensures
        find(text, needle) matches Some(i) ==> first_at(text, needle, i) && 0 <= i
            && i + needle.len() <= text.len(),
{
}

/// Whatever occurs somewhere is found, at that place or before it.
pub proof fn lemma_find_at_most(text: Seq<char>, needle: Seq<char>, i: int)
    requires
        occurs_at(text, needle, i),
    ensures
        find(text, needle) is Some,
        find(text, needle)->0 <= i,
    decreases i,
{
    if first_at(text, needle, i) {
        lemma_find_is(text, needle, i);
    } else {
        let j = choose|j: int| 0 <= j < i && #[trigger] occurs_at(text, needle, j);
        lemma_find_at_most(text, needle, j);
    }
}

/// What occurs nowhere is not found.
pub proof fn lemma_find_none(text: Seq<char>, needle: Seq<char>)
    requires
        forall|j: int| 0 <= j <= text.len() ==> !#[trigger] occurs_at(text, needle, j),
    ensures
        find(text, needle) is None,
{
    if exists|i: int| #[trigger] first_at(text, needle, i) {
        let i = choose|i: int| #[trigger] first_at(text, needle, i);
        assert(occurs_at(text, needle, i));
    }
}

/// An occurrence, character by character.
pub proof fn lemma_occurs_chars(text: Seq<char>, needle: Seq<char>, i: int)
    ensures
        occurs_at(text, needle, i) <==> (0 <= i && i + needle.len() <= text.len() && forall|k: int|
            0 <= k < needle.len() ==> text[i + k] == #[trigger] needle[k]),
{
    if 0 <= i && i + needle.len() <= text.len() {
        let part = text.subrange(i, i + needle.len());
        assert(forall|k: int| 0 <= k < needle.len() ==> part[k] == text[i + k]);
        if occurs_at(text, needle, i) {
            assert forall|k: int| 0 <= k < needle.len() implies text[i + k]
                == #[trigger] needle[k] by {
                assert(part[k] == needle[k]);
            }
        } else {
            assert(!(part =~= needle));
        }
    }
}

/// The characters of a string, one by one.
pub fn chars_of(s: &str) -> (r: Vec<char>)
    ensures
        r@ == s@,
{
    let mut out: Vec<char> = Vec::new();
    for c in it: s.chars()
        invariant
            out@ =~= it.seq().take(it.index()),
            it.seq() == s@,
    {
        out.push(c);
    }
    out
}

/// The string that the characters of `cs` from `from` up to `to` make.
pub fn string_of(cs: &Vec<char>, from: usize, to: usize) -> (r: String)
    requires
        from <= to <= cs@.len(),
    ensures
        r@ == cs@.subrange(from as int, to as int),
{
    let mut out = String::new();
    let mut i: usize = from;
    while i < to
        invariant
            from <= i <= to <= cs@.len(),
            out@ =~= cs@.subrange(from as int, i as int),
        decreases to - i,
    {
        out.push(cs[i]);
        i = i + 1;
    }
    out
}

/// The same characters in the same order.
pub fn same_text(a: &str, b: &str) -> (r: bool)
    ensures
        r == (a@ == b@),
{
    let x = chars_of(a);
    let y = chars_of(b);
    if x.len() != y.len() {
        return false;
    }
    let mut i: usize = 0;
    while i < x.len()
        invariant
            x@ == a@,
            y@ == b@,
            x@.len() == y@.len(),
            i <= x@.len(),
            forall|j: int| 0 <= j < i ==> x@[j] == y@[j],
        decreases x@.len() - i,
    {
        if x[i] != y[i] {
            assert(a@[i as int] != b@[i as int]);
            return false;
        }
        i = i + 1;
    }
    assert(a@ =~= b@);
    true
}

/// Tells whether `needle` stands in `text` at position `at`.
fn matches_at(text: &Vec<char>, needle: &Vec<char>, at: usize) -> (r: bool)
    requires
        at + needle@.len() <= text@.len(),
    ensures
        r == occurs_at(text@, needle@, at as int),
{
    let end: usize = text.len();
    let mut i: usize = 0;
    while i < needle.len()
        invariant
            i <= needle@.len(),
            end == text@.len(),
            at + needle@.len() <= text@.len(),
            forall|j: int| 0 <= j < i ==> text@[at + j] == needle@[j],
        decreases needle@.len() - i,
    {
        if text[at + i] != needle[i] {
            assert(text@.subrange(at as int, at + needle@.len())[i as int] != needle@[i as int]);
            return false;
        }
        i = i + 1;
    }
    assert(text@.subrange(at as int, at + needle@.len()) =~= needle@);
    true
}

/// Where `needle` first stands in `text`, if anywhere.
pub fn find_in(text: &Vec<char>, needle: &Vec<char>) -> (r: Option<usize>)
    ensures
        match r {
            Some(i) => find(text@, needle@) == Some(i as int),
            None => find(text@, needle@) is None,
        },
{
    if needle.len() > text.len() {
        proof {
            lemma_find_none(text@, needle@);
        }
        return None;
    }
    let last: usize = text.len() - needle.len();
    let mut i: usize = 0;
    loop
        invariant
            i <= last,
            last == text@.len() - needle@.len(),
            forall|j: int| 0 <= j < i ==> !#[trigger] occurs_at(text@, needle@, j),
        decreases last - i,
    {
        if matches_at(text, needle, i) {
            proof {
                lemma_find_is(text@, needle@, i as int);
            }
            return Some(i);
        }
        if i == last {
            proof {
                lemma_find_none(text@, needle@);
            }
            return None;
        }
        i = i + 1;
    }
}

/// Tells whether `text` begins with `prefix`.
pub fn begins(text: &str, prefix: &str) -> (r: bool)
    ensures
        r == starts_with(text@, prefix@),
{
    let mut t = text.chars();
    let mut p = prefix.chars();
    let ghost mut k: int = 0;
    loop
        invariant
            0 <= k <= text@.len(),
            k <= prefix@.len(),
            vstd::std_specs::iter::IteratorSpec::remaining(&t) == text@.skip(k),
            vstd::std_specs::iter::IteratorSpec::remaining(&p) == prefix@.skip(k),
            forall|j: int| 0 <= j < k ==> text@[j] == prefix@[j],
        decreases prefix@.len() - k,
    {
        match p.next() {
            None => {
                assert(text@.subrange(0, prefix@.len() as int) =~= prefix@);
                return true;
            },
            Some(x) => {
                match t.next() {
                    None => {
                        return false;
                    },
                    Some(y) => {
                        if x != y {
                            assert(text@[k] != prefix@[k]);
                            assert(starts_with(text@, prefix@) ==> text@.subrange(
                                0,
                                prefix@.len() as int,
                            )[k] == prefix@[k]);
                            return false;
                        }
                        proof {
                            k = k + 1;
                        }
                    },
                }
            },
        }
    }
}

/// `text` without `prefix` in front, if it begins with it.
pub open spec fn without_prefix(text: Seq<char>, prefix: Seq<char>) -> Option<Seq<char>> {
    if starts_with(text, prefix) {
        Some(text.skip(prefix.len() as int))
    } else {
        None
    }
}

/// What an optional piece of text holds.
pub open spec fn text_in(piece: Option<&str>) -> Option<Seq<char>> {
    match piece {
        Some(s) => Some(s@),
        None => None,
    }
}

/// What two optional pieces of text hold.
pub open spec fn texts_in(pieces: Option<(&str, &str)>) -> Option<(Seq<char>, Seq<char>)> {
    match pieces {
        Some((a, b)) => Some((a@, b@)),
        None => None,
    }
}

/// `text` without `prefix` in front, if it begins with it.
pub fn strip_prefix<'a>(text: &'a str, prefix: &str) -> (r: Option<&'a str>)
    ensures
        text_in(r) == without_prefix(text@, prefix@),
{
    if begins(text, prefix) {
        Some(text.substring_char(prefix.unicode_len(), text.unicode_len()))
    } else {
        None
    }
}

/// What stands in front of and behind the first `sep` in `text`.
pub fn cut<'a>(text: &'a str, sep: &str) -> (r: Option<(&'a str, &'a str)>)
    ensures
        texts_in(r) == split_once(text@, sep@),
{
    let cs = chars_of(text);
    let needle = chars_of(sep);
    proof {
        lemma_find_some(text@, sep@);
    }
    match find_in(&cs, &needle) {
        Some(i) => {
            let end: usize = cs.len();
            Some((text.substring_char(0, i), text.substring_char(i + needle.len(), end)))
        },
        None => None,
    }
}

/// The part of `text` in front of the first `sep`, or all of it.
pub fn up_to<'a>(text: &'a str, sep: &str) -> (r: &'a str)
    ensures
        r@ == before(text@, sep@),
{
    match cut(text, sep) {
        Some((front, _)) => front,
        None => text,
    }
}

// ---------------------------------------------------------------------------------------------
// White space
// ---------------------------------------------------------------------------------------------

/// The characters with Unicode's White_Space property.
pub open spec fn is_white(c: char) -> bool {
    ||| '\u{9}' <= c <= '\u{d}'
    ||| c == ' '
    ||| c == '\u{85}'
    ||| c == '\u{a0}'
    ||| c == '\u{1680}'
    ||| '\u{2000}' <= c <= '\u{200a}'
    ||| c == '\u{2028}'
    ||| c == '\u{2029}'
    ||| c == '\u{202f}'
    ||| c == '\u{205f}'
    ||| c == '\u{3000}'
}

/// `text` without the white characters at its start.
pub open spec fn trim_start(text: Seq<char>) -> Seq<char>
    decreases text.len(),
{
    if text.len() > 0 && is_white(text[0]) {
        trim_start(text.drop_first())
    } else {
        text
    }
}

/// `text` without the white characters at its end.
pub open spec fn trim_end(text: Seq<char>) -> Seq<char>
    decreases text.len(),
{
    if text.len() > 0 && is_white(text.last()) {
        trim_end(text.drop_last())
    } else {
        text
    }
}

/// `text` without the white characters at its two ends.
pub open spec fn trim(text: Seq<char>) -> Seq<char> {
    trim_end(trim_start(text))
}

/// Tells whether `c` has Unicode's White_Space property.
pub fn white(c: char) -> (r: bool)
    ensures
        r == is_white(c),
{
    ('\u{9}' <= c && c <= '\u{d}') || c == ' ' || c == '\u{85}' || c == '\u{a0}' || c == '\u{1680}'
        || ('\u{2000}' <= c && c <= '\u{200a}') || c == '\u{2028}' || c == '\u{2029}' || c
        == '\u{202f}' || c == '\u{205f}' || c == '\u{3000}'
}

/// `text` without the white characters at its two ends.
pub fn trimmed<'a>(text: &'a str) -> (r: &'a str)
    ensures
        r@ == trim(text@),
{
    let cs = chars_of(text);
    let mut from: usize = 0;
    let mut to: usize = cs.len();
    assert(cs@.skip(0) =~= cs@);
    while from < to && white(cs[from])
        invariant
            from <= to,
            to == cs@.len(),
            trim_start(cs@) == trim_start(cs@.skip(from as int)),
        decreases to - from,
    {
        assert(cs@.skip(from as int).drop_first() =~= cs@.skip(from + 1));
        from = from + 1;
    }
    let ghost start = cs@.skip(from as int);
    assert(trim_start(cs@) == start) by {
        if from < to {
            assert(start[0] == cs@[from as int]);
        }
    }
    assert(cs@.subrange(from as int, to as int) =~= start);
    while from < to && white(cs[to - 1])
        invariant
            from <= to <= cs@.len(),
            trim_end(start) == trim_end(cs@.subrange(from as int, to as int)),
        decreases to - from,
    {
        assert(cs@.subrange(from as int, to as int).drop_last() =~= cs@.subrange(
            from as int,
            to - 1,
        ));
        assert(cs@.subrange(from as int, to as int).last() == cs@[to - 1]);
        to = to - 1;
    }
    assert(trim_end(cs@.subrange(from as int, to as int)) == cs@.subrange(from as int, to as int))
        by {
        if from < to {
            assert(cs@.subrange(from as int, to as int).last() == cs@[to - 1]);
        }
    }
    text.substring_char(from, to)
}

// ---------------------------------------------------------------------------------------------
// Numbers
// ---------------------------------------------------------------------------------------------

pub open spec fn is_digit(c: char) -> bool {
    '0' <= c <= '9'
}

/// The number that a digit stands for.
pub open spec fn digit_value(c: char) -> nat {
    (c as int - '0' as int) as nat
}

/// Every character of `text` is a decimal digit.
pub open spec fn all_digits(text: Seq<char>) -> bool {
    forall|i: int| 0 <= i < text.len() ==> is_digit(#[trigger] text[i])
}

/// The number that a run of decimal digits stands for.
pub open spec fn digits_value(text: Seq<char>) -> nat
    decreases text.len(),
{
    if text.len() == 0 {
        0
    } else {
        10 * digits_value(text.drop_last()) + digit_value(text.last())
    }
}

/// `text` without the `+` at its front, if there is one.
pub open spec fn unsigned(text: Seq<char>) -> Seq<char> {
    if text.len() > 0 && text[0] == '+' {
        text.skip(1)
    } else {
        text
    }
}

/// `text` spells a number of any size: decimal digits, with at most one `+` in front.
pub open spec fn is_numeral(text: Seq<char>) -> bool {
    unsigned(text).len() > 0 && all_digits(unsigned(text))
}

/// The machine-sized number that `text` spells.
pub open spec fn number(text: Seq<char>) -> Option<nat> {
    if is_numeral(text) && digits_value(unsigned(text)) <= usize::MAX {
        Some(digits_value(unsigned(text)))
    } else {
        None
    }
}

/// A longer run of digits never stands for less.
proof fn lemma_digits_grow(text: Seq<char>, n: int)
    requires
        0 <= n <= text.len(),
    ensures
        digits_value(text.take(n)) <= digits_value(text),
    decreases text.len() - n,
{
    if n < text.len() {
        lemma_digits_grow(text, n + 1);
        assert(text.take(n + 1).drop_last() =~= text.take(n));
    } else {
        assert(text.take(n) =~= text);
    }
}

/// Tells whether `text` spells a number of any size.
pub fn spells_number(text: &str) -> (r: bool)
    ensures
        r == is_numeral(text@),
{
    let cs = chars_of(text);
    let n: usize = cs.len();
    let from: usize = if n > 0 && cs[0] == '+' {
        1
    } else {
        0
    };
    let ghost digits = unsigned(cs@);
    let mut i: usize = from;
    while i < n
        invariant
            from <= i <= n,
            n == cs@.len(),
            digits == unsigned(text@),
            digits.len() == n - from,
            forall|j: int| 0 <= j < digits.len() ==> #[trigger] digits[j] == cs@[j + from],
            forall|j: int| 0 <= j < i - from ==> is_digit(#[trigger] digits[j]),
        decreases n - i,
    {
        let c = cs[i];
        assert(digits[i - from] == c);
        if !('0' <= c && c <= '9') {
            assert(!is_digit(digits[i - from]));
            return false;
        }
        i = i + 1;
    }
    from < n
}

/// Reads a number of decimal digits, with at most one `+` in front.
pub fn parse_usize(text: &str) -> (r: Option<usize>)
    ensures
        match r {
            Some(n) => number(text@) == Some(n as nat),
            None => number(text@) is None,
        },
{
    let cs = chars_of(text);
    let n: usize = cs.len();
    let mut from: usize = 0;
    if n > 0 && cs[0] == '+' {
        from = 1;
    }
    let ghost digits = cs@.skip(from as int);
    assert(from == 0 ==> digits =~= cs@);
    if from == n {
        return None;
    }
    let mut value: usize = 0;
    let mut i: usize = from;
    assert(digits.take(0) =~= Seq::<char>::empty());
    while i < n
        invariant
            from <= i <= n,
            n == cs@.len(),
            digits == cs@.skip(from as int),
            digits == unsigned(cs@),
            cs@ == text@,
            value == digits_value(digits.take(i - from)),
            forall|j: int| 0 <= j < i - from ==> is_digit(#[trigger] digits[j]),
        decreases n - i,
    {
        let c = cs[i];
        assert(digits[i - from] == c);
        if !('0' <= c && c <= '9') {
            assert(!is_digit(digits[i - from]));
            return None;
        }
        proof {
            assert(digits.take(i - from + 1).drop_last() =~= digits.take(i - from));
            assert(digits.take(i - from + 1).last() == c);
            lemma_digits_grow(digits, i - from + 1);
        }
        let d: usize = (c as u32 - '0' as u32) as usize;
        if value > usize::MAX / 10 {
            return None;
        }
        let tens: usize = value * 10;
        if tens > usize::MAX - d {
            return None;
        }
        value = tens + d;
        i = i + 1;
    }
    assert(digits.take(n - from) =~= digits);
    Some(value)
}

/// The digit that stands for `n`.
pub open spec fn digit_of(n: nat) -> char {
    ('0' as int + n) as char
}

/// `n` in decimal digits, without leading zeros.
pub open spec fn decimal(n: nat) -> Seq<char>
    decreases n,
{
    if n < 10 {
        seq![digit_of(n)]
    } else {
        decimal(n / 10).push(digit_of(n % 10))
    }
}

/// A decimal number reads back as the number.
pub proof fn lemma_decimal_reads_back(n: nat)
    ensures
        decimal(n).len() > 0,
        all_digits(decimal(n)),
        digits_value(decimal(n)) == n,
        n <= usize::MAX ==> number(decimal(n)) == Some(n),
    decreases n,
{
    assert(digits_value(Seq::<char>::empty()) == 0);
    if n < 10 {
        assert(decimal(n).drop_last() =~= Seq::<char>::empty());
    } else {
        lemma_decimal_reads_back(n / 10);
        assert(decimal(n).drop_last() =~= decimal(n / 10));
    }
    assert(is_digit(decimal(n)[0]));
}

/// `n` in decimal digits, without leading zeros.
pub fn decimal_text(n: usize) -> (r: String)
    ensures
        r@ == decimal(n as nat),
    decreases n,
{
    let mut out = if n < 10 {
        String::new()
    } else {
        decimal_text(n / 10)
    };
    let d: u8 = 48u8 + (n % 10) as u8;
    out.push(d as char);
    assert(out@ =~= decimal(n as nat));
    out
}

// ---------------------------------------------------------------------------------------------
// Lines
// ---------------------------------------------------------------------------------------------

/// `line` without the carriage return at its end, if there is one.
pub open spec fn strip_cr(line: Seq<char>) -> Seq<char> {
    if line.len() > 0 && line.last() == '\r' {
        line.drop_last()
    } else {
        line
    }
}

/// The lines of `text`: each ends with a line feed, or with a carriage return and a line feed,
/// neither of which belongs to it. The last one may lack the line feed.
pub open spec fn lines(text: Seq<char>) -> Seq<Seq<char>>
    decreases text.len(),
{
    if text.len() == 0 {
        Seq::empty()
    } else {
        match find(text, seq!['\n']) {
            None => seq![text],
            Some(i) => seq![strip_cr(text.take(i))] + lines(text.skip(i + 1)),
        }
    }
}

/// The lines of `text` with everything in front of the line feed, a carriage return as well.
pub open spec fn raw_lines(text: Seq<char>) -> Seq<Seq<char>>
    decreases text.len(),
{
    if text.len() == 0 {
        Seq::empty()
    } else {
        match find(text, seq!['\n']) {
            None => seq![text],
            Some(i) => seq![text.take(i)] + raw_lines(text.skip(i + 1)),
        }
    }
}

/// `text` holds no line feed.
pub open spec fn one_line(text: Seq<char>) -> bool {
    forall|i: int| 0 <= i < text.len() ==> #[trigger] text[i] != '\n'
}

/// The line feed behind a line is the first one.
pub proof fn lemma_line_end(line: Seq<char>, rest: Seq<char>)
    requires
        one_line(line),
    ensures
        find(line + seq!['\n'] + rest, seq!['\n']) == Some(line.len() as int),
        (line + seq!['\n'] + rest).take(line.len() as int) == line,
        (line + seq!['\n'] + rest).skip(line.len() as int + 1) == rest,
{
    let text = line + seq!['\n'] + rest;
    let n = line.len() as int;
    assert(text.take(n) =~= line);
    assert(text.skip(n + 1) =~= rest);
    assert(text.subrange(n, n + 1) =~= seq!['\n']);
    assert forall|j: int| 0 <= j < n implies !#[trigger] occurs_at(text, seq!['\n'], j) by {
        assert(text.subrange(j, j + 1)[0] == line[j]);
    }
    lemma_find_is(text, seq!['\n'], n);
}

/// A text without line feeds has none to find.
pub proof fn lemma_no_line_end(text: Seq<char>)
    requires
        one_line(text),
    ensures
        find(text, seq!['\n']) is None,
{
    assert forall|j: int| 0 <= j <= text.len() implies !#[trigger] occurs_at(text, seq!['\n'], j) by {
        if j < text.len() {
            assert(text.subrange(j, j + 1)[0] == text[j]);
        }
    }
    lemma_find_none(text, seq!['\n']);
}

/// Up to the first line feed there is none; behind it the text goes on.
pub proof fn lemma_first_line(text: Seq<char>)
    ensures
        match find(text, seq!['\n']) {
            Some(i) => {
                &&& 0 <= i < text.len()
                &&& one_line(text.take(i))
                &&& text == text.take(i) + seq!['\n'] + text.skip(i + 1)
            },
            None => one_line(text),
        },
{
    match find(text, seq!['\n']) {
        Some(i) => {
            lemma_find_some(text, seq!['\n']);
            assert(text.subrange(i, i + 1)[0] == text[i]);
            assert forall|j: int| 0 <= j < i implies #[trigger] text.take(i)[j] != '\n' by {
                assert(!occurs_at(text, seq!['\n'], j));
                if text[j] == '\n' {
                    assert(text.subrange(j, j + 1) =~= seq!['\n']);
                }
            }
            assert(text =~= text.take(i) + seq!['\n'] + text.skip(i + 1));
        },
        None => {
            assert forall|j: int| 0 <= j < text.len() implies #[trigger] text[j] != '\n' by {
                if text[j] == '\n' {
                    assert(text.subrange(j, j + 1) =~= seq!['\n']);
                    lemma_find_at_most(text, seq!['\n'], j);
                }
            }
        },
    }
}

/// What the strings of a sequence hold.
pub open spec fn views(strings: Seq<String>) -> Seq<Seq<char>> {
    Seq::new(strings.len(), |i: int| strings[i]@)
}

/// The lines of `text`, without their line ends.
pub fn lines_of(text: &str) -> (r: Vec<String>)
    ensures
        views(r@) == lines(text@),
{
    let cs = chars_of(text);
    let n: usize = cs.len();
    let mut out: Vec<String> = Vec::new();
    let mut start: usize = 0;
    let mut i: usize = 0;
    assert(cs@.skip(0) =~= cs@);
    assert(views(out@) + lines(cs@) =~= lines(cs@));
    while i < n
        invariant
            start <= i <= n,
            n == cs@.len(),
            lines(cs@) == views(out@) + lines(cs@.skip(start as int)),
            one_line(cs@.subrange(start as int, i as int)),
        decreases n - i,
    {
        if cs[i] == '\n' {
            let end: usize = if i > start && cs[i - 1] == '\r' {
                i - 1
            } else {
                i
            };
            let line = string_of(&cs, start, end);
            proof {
                let rest = cs@.skip(start as int);
                let front = cs@.subrange(start as int, i as int);
                assert(rest =~= front + seq!['\n'] + cs@.skip(i + 1));
                lemma_line_end(front, cs@.skip(i + 1));
                if i > start {
                    assert(front.last() == cs@[i - 1]);
                }
                assert(strip_cr(front) =~= line@);
                assert(lines(rest) == seq![line@] + lines(cs@.skip(i + 1)));
                assert(views(out@.push(line)) =~= views(out@).push(line@));
                assert(views(out@) + (seq![line@] + lines(cs@.skip(i + 1))) =~= views(
                    out@,
                ).push(line@) + lines(cs@.skip(i + 1)));
            }
            out.push(line);
            i = i + 1;
            start = i;
        } else {
            proof {
                let front = cs@.subrange(start as int, i as int);
                assert(cs@.subrange(start as int, i + 1) =~= front.push(cs@[i as int]));
            }
            i = i + 1;
        }
    }
    if start < n {
        let line = string_of(&cs, start, n);
        proof {
            let rest = cs@.skip(start as int);
            assert(rest =~= cs@.subrange(start as int, n as int));
            lemma_no_line_end(rest);
            assert(lines(rest) == seq![line@]);
            assert(views(out@.push(line)) =~= views(out@) + seq![line@]);
        }
        out.push(line);
    } else {
        assert(views(out@) + Seq::empty() =~= views(out@));
    }
    out
}

// ---------------------------------------------------------------------------------------------
// Replacing
// ---------------------------------------------------------------------------------------------

/// `text` with each `from` replaced by `to`, from left to right.
pub open spec fn replaced(text: Seq<char>, from: Seq<char>, to: Seq<char>) -> Seq<char>
    decreases text.len(),
{
    if from.len() == 0 {
        text
    } else {
        match find(text, from) {
            None => text,
            Some(i) => text.take(i) + to + replaced(text.skip(i + from.len()), from, to),
        }
    }
}

/// Where nothing is found in a front part, what is found is found behind it.
pub proof fn lemma_find_behind(front: Seq<char>, rest: Seq<char>, needle: Seq<char>)
    requires
        forall|j: int| 0 <= j < front.len() ==> !#[trigger] occurs_at(front + rest, needle, j),
    ensures
        find(front + rest, needle) == (match find(rest, needle) {
            Some(k) => Some(k + front.len()),
            None => None::<int>,
        }),
{
    let text = front + rest;
    let n = front.len() as int;
    assert forall|j: int| n <= j implies #[trigger] occurs_at(text, needle, j) == occurs_at(
        rest,
        needle,
        j - n,
    ) by {
        if j + needle.len() <= text.len() {
            assert(text.subrange(j, j + needle.len()) =~= rest.subrange(
                j - n,
                j - n + needle.len(),
            ));
        }
    }
    match find(rest, needle) {
        Some(k) => {
            lemma_find_some(rest, needle);
            assert(occurs_at(text, needle, k + n));
            assert forall|j: int| 0 <= j < k + n implies !#[trigger] occurs_at(text, needle, j) by {
                if j >= n {
                    assert(!occurs_at(rest, needle, j - n));
                }
            }
            lemma_find_is(text, needle, k + n);
        },
        None => {
            assert forall|j: int| 0 <= j <= text.len() implies !#[trigger] occurs_at(
                text,
                needle,
                j,
            ) by {
                if j >= n && occurs_at(text, needle, j) {
                    lemma_find_at_most(rest, needle, j - n);
                }
            }
            lemma_find_none(text, needle);
        },
    }
}

/// A front part in which nothing to replace begins stays as it is.
pub proof fn lemma_replaced_behind(
    front: Seq<char>,
    rest: Seq<char>,
    from: Seq<char>,
    to: Seq<char>,
)
    requires
        from.len() > 0,
        forall|j: int| 0 <= j < front.len() ==> !#[trigger] occurs_at(front + rest, from, j),
    ensures
        replaced(front + rest, from, to) == front + replaced(rest, from, to),
{
    lemma_find_behind(front, rest, from);
    match find(rest, from) {
        Some(k) => {
            lemma_find_some(rest, from);
            let i = k + front.len();
            assert((front + rest).take(i) =~= front + rest.take(k));
            assert((front + rest).skip(i + from.len()) =~= rest.skip(k + from.len()));
            let tail = replaced(rest.skip(k + from.len()), from, to);
            assert(front + rest.take(k) + to + tail =~= front + (rest.take(k) + to + tail));
        },
        None => {},
    }
}

/// `text` with each `from` replaced by `to`, from left to right.
pub fn replace_all(text: &str, from: &str, to: &str) -> (r: String)
    requires
        from@.len() > 0,
    ensures
        r@ == replaced(text@, from@, to@),
{
    let cs = chars_of(text);
    let needle = chars_of(from);
    let n: usize = cs.len();
    let m: usize = needle.len();
    let mut out = String::new();
    let mut i: usize = 0;
    assert(cs@.skip(0) =~= cs@);
    assert(out@ + replaced(cs@, from@, to@) =~= replaced(cs@, from@, to@));
    while i < n
        invariant
            i <= n,
            n == cs@.len(),
            m == needle@.len(),
            m > 0,
            needle@ == from@,
            replaced(cs@, from@, to@) == out@ + replaced(cs@.skip(i as int), from@, to@),
        decreases n - i,
    {
        let ghost rest = cs@.skip(i as int);
        let ghost before = out@;
        let hit = m <= n - i && matches_at(&cs, &needle, i);
        assert(hit == occurs_at(rest, from@, 0)) by {
            if m <= n - i {
                assert(rest.subrange(0, m as int) =~= cs@.subrange(i as int, i + m));
            }
        }
        if hit {
            proof {
                lemma_find_is(rest, from@, 0);
                assert(rest.take(0) + to@ =~= to@);
                assert(rest.skip(m as int) =~= cs@.skip(i + m));
                assert(before + (to@ + replaced(cs@.skip(i + m), from@, to@)) =~= before + to@
                    + replaced(cs@.skip(i + m), from@, to@));
            }
            out.append(to);
            i = i + m;
        } else {
            proof {
                let front = seq![cs@[i as int]];
                assert(rest =~= front + cs@.skip(i + 1));
                lemma_replaced_behind(front, cs@.skip(i + 1), from@, to@);
                assert(before + (front + replaced(cs@.skip(i + 1), from@, to@)) =~= before.push(
                    cs@[i as int],
                ) + replaced(cs@.skip(i + 1), from@, to@));
            }
            out.push(cs[i]);
            i = i + 1;
        }
    }
    proof {
        assert(cs@.skip(n as int) =~= Seq::<char>::empty());
        assert forall|j: int| 0 <= j <= 0 implies !#[trigger] occurs_at(
            Seq::<char>::empty(),
            from@,
            j,
        ) by {}
        lemma_find_none(Seq::<char>::empty(), from@);
        assert(out@ + Seq::<char>::empty() =~= out@);
    }
    out
}

// ---------------------------------------------------------------------------------------------
// Lists of strings
// ---------------------------------------------------------------------------------------------

/// What strings hold.
pub open spec fn str_views(strings: Seq<&str>) -> Seq<Seq<char>> {
    Seq::new(strings.len(), |i: int| strings[i]@)
}

/// Adds a copy of a text.
pub fn push_text(strings: &mut Vec<String>, added: &str)
    ensures
        views(final(strings)@) == views(old(strings)@).push(added@),
{
    strings.push(added.to_string());
    assert(views(strings@) =~= views(old(strings)@).push(added@));
}

/// Adds a copy of each text.
pub fn push_texts(strings: &mut Vec<String>, more: &[&str])
    ensures
        views(final(strings)@) == views(old(strings)@) + str_views(more@),
{
    let mut i: usize = 0;
    let ghost all = str_views(more@);
    assert(views(strings@) =~= views(old(strings)@) + all.take(0));
    while i < more.len()
        invariant
            i <= more@.len(),
            all == str_views(more@),
            views(strings@) == views(old(strings)@) + all.take(i as int),
        decreases more@.len() - i,
    {
        assert(all.take(i + 1) =~= all.take(i as int).push(more@[i as int]@));
        push_text(strings, more[i]);
        assert(views(strings@) =~= views(old(strings)@) + all.take(i + 1));
        i = i + 1;
    }
    assert(all.take(i as int) =~= all);
}

/// What pairs of strings hold.
pub open spec fn pair_views(pairs: Seq<(String, String)>) -> Seq<(Seq<char>, Seq<char>)> {
    Seq::new(pairs.len(), |i: int| (pairs[i].0@, pairs[i].1@))
}

/// Whether two lists hold the same texts.
pub fn same_texts(a: &Vec<String>, b: &Vec<String>) -> (r: bool)
    ensures
        r == (views(a@) == views(b@)),
{
    if a.len() != b.len() {
        assert(views(a@).len() != views(b@).len());
        return false;
    }
    let mut i: usize = 0;
    while i < a.len()
        invariant
            i <= a@.len() == b@.len(),
            forall|j: int| 0 <= j < i ==> #[trigger] views(a@)[j] == views(b@)[j],
        decreases a@.len() - i,
    {
        if !same_text(&a[i], &b[i]) {
            assert(views(a@)[i as int] != views(b@)[i as int]);
            return false;
        }
        i = i + 1;
    }
    assert(views(a@) =~= views(b@));
    true
}

/// Whether a list holds a text.
pub fn holds(list: &Vec<String>, wanted: &str) -> (r: bool)
    ensures
        r == views(list@).contains(wanted@),
{
    let mut i: usize = 0;
    while i < list.len()
        invariant
            i <= list@.len(),
            forall|j: int| 0 <= j < i ==> #[trigger] views(list@)[j] != wanted@,
        decreases list@.len() - i,
    {
        if same_text(&list[i], wanted) {
            assert(views(list@)[i as int] == wanted@);
            return true;
        }
        i = i + 1;
    }
    false
}

} // verus!
