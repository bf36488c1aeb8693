//! What taking texts apart gives back.
use crate::surgeon;
use crate::text;
use vstd::prelude::*;

verus! {

/// `needle` stands at `i`.
pub open spec fn stands_at(text: Seq<char>, needle: Seq<char>, i: int) -> bool {
    0 <= i && i + needle.len() <= text.len() && text.subrange(i, i + needle.len()) == needle
}

/// Parting a text at a separator loses nothing: the two parts with the separator between them are
/// the text, and the separator stands nowhere further in front. Where a text is not parted, the
/// separator stands nowhere in it.
pub proof fn law_parts_make_the_text(text: Seq<char>, sep: Seq<char>)
    ensures
        match text::split_once(text, sep) {
            Some((front, back)) => {
                &&& text == front + sep + back
                &&& text::before(text, sep) == front
                &&& forall|j: int| 0 <= j < front.len() ==> !#[trigger] stands_at(text, sep, j)
            },
            None => {
                &&& text::before(text, sep) == text
                &&& forall|j: int| !#[trigger] stands_at(text, sep, j)
            },
        },
{
    text::lemma_find_some(text, sep);
    match text::find(text, sep) {
        Some(i) => {
            assert(text =~= text.take(i) + sep + text.skip(i + sep.len()));
            assert forall|j: int| 0 <= j < i implies !#[trigger] stands_at(text, sep, j) by {
                assert(!text::occurs_at(text, sep, j));
            }
        },
        None => {
            assert forall|j: int| !#[trigger] stands_at(text, sep, j) by {
                if text::occurs_at(text, sep, j) {
                    text::lemma_find_at_most(text, sep, j);
                }
            }
        },
    }
}

/// A prefix that is taken off makes the text again in front of what is left; it is taken off
/// exactly where the text begins with it.
pub proof fn law_prefix_and_rest(text: Seq<char>, prefix: Seq<char>, rest: Seq<char>)
    ensures
        text::without_prefix(text, prefix) == Some(rest) <==> text == prefix + rest,
        text::starts_with(text, prefix) <==> text.len() >= prefix.len() && text.take(
            prefix.len() as int,
        ) == prefix,
{
    let n = prefix.len() as int;
    if text::starts_with(text, prefix) {
        assert(text.subrange(0, n) =~= text.take(n));
        assert(text =~= prefix + text.skip(n));
    }
    if text == prefix + rest {
        assert(text.subrange(0, n) =~= prefix);
        assert(text.skip(n) =~= rest);
    }
    if n <= text.len() {
        assert(text.subrange(0, n) =~= text.take(n));
    }
}

/// All characters are white.
pub open spec fn all_white(text: Seq<char>) -> bool {
    forall|i: int| 0 <= i < text.len() ==> text::is_white(#[trigger] text[i])
}

/// `middle` is `text` but for white characters at the two ends.
pub open spec fn is_middle(
    text: Seq<char>,
    front: Seq<char>,
    middle: Seq<char>,
    back: Seq<char>,
) -> bool {
    &&& text == front + middle + back
    &&& all_white(front)
    &&& all_white(back)
}

/// Taking white characters off the front takes off nothing else.
proof fn lemma_trim_start(text: Seq<char>) -> (front: Seq<char>)
    ensures
        text == front + text::trim_start(text),
        all_white(front),
        text::trim_start(text).len() > 0 ==> !text::is_white(text::trim_start(text)[0]),
    decreases text.len(),
{
    if text.len() > 0 && text::is_white(text[0]) {
        let front = lemma_trim_start(text.drop_first());
        let all = seq![text[0]] + front;
        assert(text =~= seq![text[0]] + text.drop_first());
        assert(text =~= all + text::trim_start(text));
        assert forall|i: int| 0 <= i < all.len() implies text::is_white(#[trigger] all[i]) by {
            if i > 0 {
                assert(all[i] == front[i - 1]);
            }
        }
        all
    } else {
        let front = Seq::<char>::empty();
        assert(text =~= front + text::trim_start(text));
        front
    }
}

/// Taking white characters off the end takes off nothing else.
proof fn lemma_trim_end(text: Seq<char>) -> (back: Seq<char>)
    ensures
        text == text::trim_end(text) + back,
        all_white(back),
        text::trim_end(text).len() > 0 ==> !text::is_white(text::trim_end(text).last())
            && text::trim_end(text)[0] == text[0],
    decreases text.len(),
{
    if text.len() > 0 && text::is_white(text.last()) {
        let back = lemma_trim_end(text.drop_last());
        let all = back.push(text.last());
        assert(text =~= text.drop_last().push(text.last()));
        assert(text =~= text::trim_end(text) + all);
        all
    } else {
        let back = Seq::<char>::empty();
        assert(text =~= text::trim_end(text) + back);
        back
    }
}

/// Trimming takes white characters off the two ends and nothing else, and leaves none there.
pub proof fn law_trim(text: Seq<char>)
    ensures
        exists|front: Seq<char>, back: Seq<char>|
            #[trigger] is_middle(text, front, text::trim(text), back),
        text::trim(text).len() > 0 ==> !text::is_white(text::trim(text)[0]) && !text::is_white(
            text::trim(text).last(),
        ),
{
    let front = lemma_trim_start(text);
    let rest = text::trim_start(text);
    let back = lemma_trim_end(rest);
    assert(front + rest =~= front + text::trim(text) + back);
    assert(is_middle(text, front, text::trim(text), back));
}

/// White characters round a text that neither begins nor ends with one are what trimming takes
/// off.
pub proof fn law_trim_gives_the_middle(front: Seq<char>, middle: Seq<char>, back: Seq<char>)
    requires
        all_white(front),
        all_white(back),
        middle.len() > 0,
        !text::is_white(middle[0]),
        !text::is_white(middle.last()),
    ensures
        text::trim(front + middle + back) == middle,
{
    lemma_trim_start_all(front, middle + back);
    assert(front + middle + back =~= front + (middle + back));
    lemma_trim_end_all(middle, back);
}

/// White characters in front are taken off.
proof fn lemma_trim_start_all(front: Seq<char>, rest: Seq<char>)
    requires
        all_white(front),
        rest.len() > 0,
        !text::is_white(rest[0]),
    ensures
        text::trim_start(front + rest) == rest,
    decreases front.len(),
{
    if front.len() == 0 {
        assert(front + rest =~= rest);
    } else {
        assert((front + rest)[0] == front[0]);
        assert((front + rest).drop_first() =~= front.drop_first() + rest);
        lemma_trim_start_all(front.drop_first(), rest);
    }
}

/// White characters behind are taken off.
proof fn lemma_trim_end_all(rest: Seq<char>, back: Seq<char>)
    requires
        all_white(back),
        rest.len() > 0,
        !text::is_white(rest.last()),
    ensures
        text::trim_end(rest + back) == rest,
    decreases back.len(),
{
    if back.len() == 0 {
        assert(rest + back =~= rest);
    } else {
        assert((rest + back).last() == back.last());
        assert((rest + back).drop_last() =~= rest + back.drop_last());
        lemma_trim_end_all(rest, back.drop_last());
    }
}

/// A digit spells its value, and one more digit behind a number makes it ten times as large and
/// adds its own value, as long as that fits.
pub proof fn law_one_more_digit(text: Seq<char>, c: char)
    requires
        '0' <= c <= '9',
    ensures
        text::number(seq![c]) == Some((c as int - '0' as int) as nat),
        text::number(text) matches Some(n) ==> text::number(text.push(c)) == {
            let m = (10 * n + (c as int - '0' as int)) as nat;
            if m <= usize::MAX {
                Some(m)
            } else {
                None
            }
        },
{
    let one = seq![c];
    assert(one.drop_last() =~= Seq::<char>::empty());
    assert(text::digits_value(one.drop_last()) == 0);
    assert(text::is_digit(one[0]));
    assert(text::unsigned(one) == one);
    if text::number(text) is Some {
        let more = text.push(c);
        let digits = text::unsigned(text);
        assert(text::unsigned(more) =~= digits.push(c));
        assert(digits.push(c).drop_last() =~= digits);
        assert forall|i: int| 0 <= i < digits.push(c).len() implies text::is_digit(
            #[trigger] digits.push(c)[i],
        ) by {
            if i < digits.len() {
                assert(digits.push(c)[i] == digits[i]);
            }
        }
    }
}

/// The white characters are those with the Unicode property White_Space. Of the ASCII characters
/// they are the space and those from tab to carriage return.
pub proof fn law_white_characters(c: char)
    ensures
        c as u32 <= 127 ==> (text::is_white(c) <==> c as u32 == 32 || 9 <= c as u32 <= 13),
        c as u32 > 127 ==> (text::is_white(c) <==> c as u32 == 133 || c as u32 == 160 || c as u32
            == 5760 || 8192 <= c as u32 <= 8202 || c as u32 == 8232 || c as u32 == 8233 || c as u32
            == 8239 || c as u32 == 8287 || c as u32 == 12288),
{
}

/// The digits of a number written down spell it: `number` and `decimal` undo each other. A zero or
/// a `+` in front changes nothing.
pub proof fn law_numbers_read_back(n: nat)
    requires
        n <= usize::MAX,
    ensures
        text::number(text::decimal(n)) == Some(n),
        text::number(seq!['0'] + text::decimal(n)) == Some(n),
        text::number(seq!['+'] + text::decimal(n)) == Some(n),
        n > 0 ==> text::decimal(n)[0] != '0',
{
    text::lemma_decimal_reads_back(n);
    let digits = text::decimal(n);
    let zero = seq!['0'] + digits;
    lemma_zero_in_front(digits);
    assert forall|i: int| 0 <= i < zero.len() implies text::is_digit(#[trigger] zero[i]) by {
        if i > 0 {
            assert(zero[i] == digits[i - 1]);
        }
    }
    assert(text::unsigned(zero) == zero);
    let plus = seq!['+'] + digits;
    assert(text::unsigned(plus) =~= digits);
    assert(text::is_digit(digits[0]));
    if n > 0 {
        lemma_no_zero_in_front(n);
    }
}

/// A zero in front of digits changes nothing.
proof fn lemma_zero_in_front(digits: Seq<char>)
    ensures
        text::digits_value(seq!['0'] + digits) == text::digits_value(digits),
    decreases digits.len(),
{
    let all = seq!['0'] + digits;
    if digits.len() == 0 {
        assert(all.drop_last() =~= Seq::<char>::empty());
        assert(all.last() == '0');
        assert(text::digits_value(Seq::<char>::empty()) == 0);
        assert(digits =~= Seq::<char>::empty());
    } else {
        assert(all.drop_last() =~= seq!['0'] + digits.drop_last());
        assert(all.last() == digits.last());
        lemma_zero_in_front(digits.drop_last());
    }
}

/// A number is written without zeros in front.
proof fn lemma_no_zero_in_front(n: nat)
    requires
        n > 0,
    ensures
        text::decimal(n)[0] != '0',
    decreases n,
{
    if n >= 10 {
        text::lemma_decimal_reads_back(n / 10);
        lemma_no_zero_in_front(n / 10);
        assert(text::decimal(n)[0] == text::decimal(n / 10)[0]);
    }
}

/// What spells a number is digits, with at most one `+` in front, and of a size that fits.
pub proof fn law_numbers_are_digits(text: Seq<char>)
    requires
        text::number(text) is Some,
    ensures
        text.len() > 0,
        forall|i: int|
            0 <= i < text.len() ==> '0' <= #[trigger] text[i] <= '9' || (i == 0 && text[i] == '+'
                && text.len() > 1),
        text::number(text)->0 <= usize::MAX,
{
    let digits = text::unsigned(text);
    assert forall|i: int| 0 <= i < text.len() implies '0' <= #[trigger] text[i] <= '9' || (i == 0
        && text[i] == '+' && text.len() > 1) by {
        if text[0] == '+' {
            if i > 0 {
                assert(digits[i - 1] == text[i]);
                assert(text::is_digit(digits[i - 1]));
            }
        } else {
            assert(text::is_digit(digits[i]));
        }
    }
}

/// The lines of a text, each with a line feed behind it, are the text, with a line feed at its end
/// where it has none; no line holds one.
pub proof fn law_raw_lines_make_the_text(text: Seq<char>)
    ensures
        surgeon::joined(text::raw_lines(text)) == if text.len() == 0 || text.last() == '\n' {
            text
        } else {
            text.push('\n')
        },
        forall|i: int|
            0 <= i < text::raw_lines(text).len() ==> text::one_line(
                #[trigger] text::raw_lines(text)[i],
            ),
    decreases text.len(),
{
    let all = text::raw_lines(text);
    if text.len() == 0 {
        assert(surgeon::joined(all) =~= text);
    } else {
        text::lemma_first_line(text);
        match text::find(text, seq!['\n']) {
            None => {
                assert(all.drop_last() =~= Seq::empty());
                assert(surgeon::joined(all.drop_last()) == Seq::<char>::empty());
                assert(text[text.len() - 1] != '\n');
                assert(surgeon::joined(all) =~= text.push('\n'));
            },
            Some(i) => {
                let rest = text.skip(i + 1);
                law_raw_lines_make_the_text(rest);
                assert(all.drop_first() =~= text::raw_lines(rest));
                crate::roundtrip::lemma_joined_front(all);
                let front = text.take(i) + seq!['\n'];
                if rest.len() > 0 {
                    assert(rest.last() == text.last());
                    assert(front + rest.push('\n') =~= (front + rest).push('\n'));
                } else {
                    assert(front + rest =~= front);
                    assert(text.last() == front.last());
                }
                assert forall|k: int| 0 <= k < all.len() implies text::one_line(
                    #[trigger] all[k],
                ) by {
                    if k > 0 {
                        assert(all[k] == text::raw_lines(rest)[k - 1]);
                    }
                }
            },
        }
    }
}

/// A text is read line by line: each line as it stands in the text, but for a carriage return in
/// front of the line feed.
pub proof fn law_lines_are_raw_lines(text: Seq<char>)
    ensures
        text::lines(text).len() == text::raw_lines(text).len(),
        forall|i: int|
            0 <= i < text::lines(text).len() ==> {
                let raw = text::raw_lines(text)[i];
                let line = #[trigger] text::lines(text)[i];
                let ended = i < text::lines(text).len() - 1 || text.last() == '\n';
                if ended && raw.len() > 0 && raw.last() == '\r' {
                    line.push('\r') == raw
                } else {
                    line == raw
                }
            },
    decreases text.len(),
{
    if text.len() > 0 {
        text::lemma_first_line(text);
        match text::find(text, seq!['\n']) {
            None => {
                assert(text[text.len() - 1] != '\n');
            },
            Some(i) => {
                let rest = text.skip(i + 1);
                law_lines_are_raw_lines(rest);
                let raw = text::raw_lines(text);
                let all = text::lines(text);
                let line = text.take(i);
                assert(rest.len() == 0 ==> text.last() == '\n') by {
                    assert(text[i] == '\n');
                }
                assert(rest.len() > 0 ==> rest.last() == text.last());
                assert(rest.len() > 0 ==> text::lines(rest).len() > 0);
                assert forall|k: int| 0 <= k < all.len() implies ({
                    let r = raw[k];
                    let l = #[trigger] all[k];
                    let ended = k < all.len() - 1 || text.last() == '\n';
                    if ended && r.len() > 0 && r.last() == '\r' {
                        l.push('\r') == r
                    } else {
                        l == r
                    }
                }) by {
                    if k > 0 {
                        assert(all[k] == text::lines(rest)[k - 1]);
                        assert(raw[k] == text::raw_lines(rest)[k - 1]);
                    } else if line.len() > 0 && line.last() == '\r' {
                        assert(line.drop_last().push('\r') =~= line);
                    }
                }
            },
        }
    }
}

/// Protecting carriage returns goes line by line: one more stands at the end of each line that
/// ends with one in front of its line feed, and nothing else changes.
pub proof fn law_protecting_goes_by_lines(line: Seq<char>, rest: Seq<char>)
    requires
        text::one_line(line),
    ensures
        text::replaced(line, "\r\n"@, "\r\r\n"@) == line,
        text::replaced(line + seq!['\n'] + rest, "\r\n"@, "\r\r\n"@) == line + (if line.len() > 0
            && line.last() == '\r' {
            seq!['\r', '\n']
        } else {
            seq!['\n']
        }) + text::replaced(rest, "\r\n"@, "\r\r\n"@),
{
    reveal_strlit("\r\n");
    reveal_strlit("\r\r\n");
    let from = "\r\n"@;
    let to = "\r\r\n"@;
    assert forall|j: int| 0 <= j <= line.len() implies !#[trigger] text::occurs_at(
        line,
        from,
        j,
    ) by {
        text::lemma_occurs_chars(line, from, j);
        if text::occurs_at(line, from, j) {
            assert(line[j + 1] == from[1]);
        }
    }
    text::lemma_find_none(line, from);
    let all = line + seq!['\n'] + rest;
    let n = line.len() as int;
    assert forall|j: int| 0 <= j < n - 1 implies !#[trigger] text::occurs_at(all, from, j) by {
        text::lemma_occurs_chars(all, from, j);
        if text::occurs_at(all, from, j) {
            assert(all[j + 1] == from[1]);
            assert(all[j + 1] == line[j + 1]);
        }
    }
    if n > 0 && line.last() == '\r' {
        assert(all.subrange(n - 1, n + 1) =~= from);
        text::lemma_find_is(all, from, n - 1);
        assert(all.skip(n - 1 + 2) =~= rest);
        assert(all.take(n - 1) + to =~= line + seq!['\r', '\n']);
    } else {
        let front = line + seq!['\n'];
        assert forall|j: int| 0 <= j < front.len() implies !#[trigger] text::occurs_at(
            front + rest,
            from,
            j,
        ) by {
            text::lemma_occurs_chars(all, from, j);
            if text::occurs_at(all, from, j) {
                let k: int = 0;
                assert(all[j + k] == from[k]);
                if j == n - 1 {
                    assert(all[j] == line.last());
                } else if j == n {
                    assert(all[j] == '\n');
                }
            }
        }
        text::lemma_replaced_behind(front, rest, from, to);
    }
}

} // verus!
