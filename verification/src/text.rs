//! Lines, words and numbers in plain text.

use vstd::prelude::*;

verus! {

/// `c` has the Unicode property `White_Space`.
pub open spec fn is_whitespace(c: char) -> bool {
    ||| 0x09 <= c as u32 <= 0x0d
    ||| c as u32 == 0x20
    ||| c as u32 == 0x85
    ||| c as u32 == 0xa0
    ||| c as u32 == 0x1680
    ||| 0x2000 <= c as u32 <= 0x200a
    ||| c as u32 == 0x2028
    ||| c as u32 == 0x2029
    ||| c as u32 == 0x202f
    ||| c as u32 == 0x205f
    ||| c as u32 == 0x3000
}

/// Whether `c` separates words.
pub fn whitespace(c: char) -> (found: bool)
    ensures
        found == is_whitespace(c),
{
    let code: u32 = c as u32;
    (0x09 <= code && code <= 0x0d) || code == 0x20 || code == 0x85 || code == 0xa0 || code == 0x1680
        || (0x2000 <= code && code <= 0x200a) || code == 0x2028 || code == 0x2029 || code == 0x202f
        || code == 0x205f || code == 0x3000
}

/// The position of the first line feed of `text` at or behind `from`, or the
/// length of `text`.
pub open spec fn line_feed(text: Seq<char>, from: int) -> int
    decreases text.len() - from,
{
    if from >= text.len() {
        text.len() as int
    } else if text[from] == '\n' {
        from
    } else {
        line_feed(text, from + 1)
    }
}

/// The line of `text` that begins at `from`, without its terminator: a line
/// feed, or a carriage return and a line feed.
pub open spec fn line_at(text: Seq<char>, from: int) -> Seq<char> {
    let end = line_feed(text, from);
    if end < text.len() && end > from && text[end - 1] == '\r' {
        text.subrange(from, end - 1)
    } else {
        text.subrange(from, end)
    }
}

/// The lines of `text` from position `from` on. A line feed at the end of the
/// text begins no further line.
pub open spec fn lines_from(text: Seq<char>, from: int) -> Seq<Seq<char>>
    decreases text.len() + 1 - from,
{
    if from < 0 || from >= text.len() {
        Seq::empty()
    } else {
        proof {
            lemma_line_feed(text, from);
        }
        seq![line_at(text, from)] + lines_from(text, line_feed(text, from) + 1)
    }
}

/// A search for a line feed goes forward and stays in the text.
pub proof fn lemma_line_feed(text: Seq<char>, from: int)
    requires
        0 <= from <= text.len(),
    ensures
        from <= line_feed(text, from) <= text.len(),
    decreases text.len() - from,
{
    if from < text.len() && text[from] != '\n' {
        lemma_line_feed(text, from + 1);
    }
}

/// The first position of `text` at or behind `from` whose character is
/// whitespace, if `white` is false, or is not, if it is true; or the length.
pub open spec fn span(text: Seq<char>, from: int, white: bool) -> int
    decreases text.len() - from,
{
    if from >= text.len() {
        text.len() as int
    } else if is_whitespace(text[from]) != white {
        from
    } else {
        span(text, from + 1, white)
    }
}

/// A span goes forward, stays in the text, and ends where it may.
pub proof fn lemma_span(text: Seq<char>, from: int, white: bool)
    requires
        0 <= from <= text.len(),
    ensures
        from <= span(text, from, white) <= text.len(),
        span(text, from, white) < text.len() ==> is_whitespace(text[span(text, from, white)])
            != white,
    decreases text.len() - from,
{
    if from < text.len() && is_whitespace(text[from]) == white {
        lemma_span(text, from + 1, white);
    }
}

/// The words of `text` from position `from` on: what whitespace separates.
pub open spec fn words_from(text: Seq<char>, from: int) -> Seq<Seq<char>>
    decreases text.len() - from,
{
    let start = span(text, from, true);
    let end = span(text, start, false);
    if from < 0 || start >= text.len() {
        Seq::empty()
    } else {
        proof {
            lemma_span(text, from, true);
            lemma_span(text, start, false);
            assert(end > start);
        }
        seq![text.subrange(start, end)] + words_from(text, end)
    }
}

/// The position behind the last character of the first `len` characters of
/// `text` that is not whitespace.
pub open spec fn last_visible(text: Seq<char>, len: int) -> int
    decreases len,
{
    if len <= 0 {
        0
    } else if is_whitespace(text[len - 1]) {
        last_visible(text, len - 1)
    } else {
        len
    }
}

/// `text` without the whitespace at its two ends.
pub open spec fn trimmed(text: Seq<char>) -> Seq<char> {
    let start = span(text, 0, true);
    let end = last_visible(text, text.len() as int);
    if start < end {
        text.subrange(start, end)
    } else {
        Seq::empty()
    }
}

/// `c` is a decimal digit.
pub open spec fn is_digit(c: char) -> bool {
    '0' <= c <= '9'
}

/// The number that a decimal digit stands for.
pub open spec fn digit_value(c: char) -> nat {
    if is_digit(c) {
        (c as u32 - '0' as u32) as nat
    } else {
        0
    }
}

/// The number that a row of decimal digits stands for.
pub open spec fn digits_value(digits: Seq<char>) -> nat
    decreases digits.len(),
{
    if digits.len() == 0 {
        0
    } else {
        digits_value(digits.drop_last()) * 10 + digit_value(digits.last())
    }
}

/// `text` behind a leading plus sign.
pub open spec fn unsigned_part(text: Seq<char>) -> Seq<char> {
    if text.len() > 0 && text[0] == '+' {
        text.skip(1)
    } else {
        text
    }
}

/// The number `text` writes: digits, at least one, behind an optional plus
/// sign, that name a number a `usize` can hold.
pub open spec fn number(text: Seq<char>) -> Option<usize> {
    let digits = unsigned_part(text);
    if digits.len() > 0 && (forall|i: int|
        0 <= i < digits.len() ==> is_digit(#[trigger] digits[i])) && digits_value(digits)
        <= usize::MAX {
        Some(digits_value(digits) as usize)
    } else {
        None
    }
}

/// The characters of a string.
pub fn chars_of(text: &str) -> (chars: Vec<char>)
    ensures
        chars@ == text@,
{
    let mut chars: Vec<char> = Vec::new();
    for c in it: text.chars()
        invariant
            chars@ == it.seq().take(it.index() as int),
            it.seq() == text@,
    {
        chars.push(c);
    }
    chars
}

/// A copy of the characters from `from` up to, not including, `to`.
pub(crate) fn copy_range(text: &Vec<char>, from: usize, to: usize) -> (part: Vec<char>)
    requires
        from <= to <= text@.len(),
    ensures
        part@ == text@.subrange(from as int, to as int),
{
    let mut part: Vec<char> = Vec::new();
    let mut at: usize = from;
    while at < to
        invariant
            from <= at <= to <= text@.len(),
            part@ == text@.subrange(from as int, at as int),
        decreases to - at,
    {
        part.push(text[at]);
        at = at + 1;
    }
    part
}

/// Finds the next line feed.
pub(crate) fn find_line_feed(text: &Vec<char>, from: usize) -> (end: usize)
    requires
        from <= text@.len(),
    ensures
        end == line_feed(text@, from as int),
        from <= end <= text@.len(),
{
    let mut at: usize = from;
    while at < text.len() && text[at] != '\n'
        invariant
            from <= at <= text@.len(),
            line_feed(text@, at as int) == line_feed(text@, from as int),
        decreases text@.len() - at,
    {
        at = at + 1;
    }
    at
}

/// Reads the line that begins at `from`; `end` is the line feed behind it.
pub(crate) fn read_line(text: &Vec<char>, from: usize, end: usize) -> (line: Vec<char>)
    requires
        from <= end <= text@.len(),
        end == line_feed(text@, from as int),
    ensures
        line@ == line_at(text@, from as int),
{
    if end < text.len() && end > from && text[end - 1] == '\r' {
        copy_range(text, from, end - 1)
    } else {
        copy_range(text, from, end)
    }
}

/// Finds the end of a span.
pub(crate) fn find_span(text: &Vec<char>, from: usize, white: bool) -> (end: usize)
    requires
        from <= text@.len(),
    ensures
        end == span(text@, from as int, white),
        from <= end <= text@.len(),
{
    let mut at: usize = from;
    while at < text.len() && whitespace(text[at]) == white
        invariant
            from <= at <= text@.len(),
            span(text@, at as int, white) == span(text@, from as int, white),
        decreases text@.len() - at,
    {
        at = at + 1;
    }
    at
}

/// The second word of `text`, if it has one.
pub fn second_word(text: &Vec<char>) -> (word: Option<Vec<char>>)
    ensures
        word is Some <==> words_from(text@, 0).len() >= 2,
        word is Some ==> word->0@ == words_from(text@, 0)[1],
{
    let first: usize = find_span(text, 0, true);
    let behind: usize = find_span(text, first, false);
    let start: usize = find_span(text, behind, true);
    proof {
        reveal_with_fuel(words_from, 3);
    }
    if start < text.len() {
        let end: usize = find_span(text, start, false);
        Some(copy_range(text, start, end))
    } else {
        None
    }
}

/// Whether `text` begins with `prefix`.
pub fn starts_with(text: &Vec<char>, prefix: &Vec<char>) -> (found: bool)
    ensures
        found == prefix@.is_prefix_of(text@),
{
    if prefix.len() > text.len() {
        return false;
    }
    let mut at: usize = 0;
    while at < prefix.len()
        invariant
            at <= prefix@.len() <= text@.len(),
            forall|i: int| 0 <= i < at ==> text@[i] == prefix@[i],
        decreases prefix@.len() - at,
    {
        if text[at] != prefix[at] {
            assert(text@.subrange(0, prefix@.len() as int)[at as int] != prefix@[at as int]);
            return false;
        }
        at = at + 1;
    }
    assert(text@.subrange(0, prefix@.len() as int) =~= prefix@);
    true
}

/// Removes the whitespace at both ends.
pub fn trim(text: &Vec<char>) -> (inner: Vec<char>)
    ensures
        inner@ == trimmed(text@),
{
    let start: usize = find_span(text, 0, true);
    let mut end: usize = text.len();
    while end > 0 && whitespace(text[end - 1])
        invariant
            end <= text@.len(),
            last_visible(text@, end as int) == last_visible(text@, text@.len() as int),
        decreases end,
    {
        end = end - 1;
    }
    if start < end {
        copy_range(text, start, end)
    } else {
        Vec::new()
    }
}

/// A row of digits stands for no less than its beginning.
proof fn lemma_value_grows(digits: Seq<char>, len: int)
    requires
        0 <= len <= digits.len(),
    ensures
        digits_value(digits.take(len)) <= digits_value(digits),
    decreases digits.len(),
{
    if len < digits.len() {
        lemma_value_grows(digits.drop_last(), len);
        assert(digits.drop_last().take(len) =~= digits.take(len));
    } else {
        assert(digits.take(len) =~= digits);
    }
}

/// Reads a number: digits, at least one, behind an optional plus sign.
pub fn parse_number(text: &Vec<char>) -> (value: Option<usize>)
    ensures
        value == number(text@),
{
    let start: usize = if text.len() > 0 && text[0] == '+' {
        1
    } else {
        0
    };
    let ghost digits = unsigned_part(text@);
    if text.len() == start {
        return None;
    }
    let mut value: usize = 0;
    let mut at: usize = start;
    while at < text.len()
        invariant
            digits == unsigned_part(text@),
            start <= at <= text@.len(),
            digits.len() == text@.len() - start,
            forall|i: int| 0 <= i < digits.len() ==> digits[i] == text@[i + start],
            forall|i: int| 0 <= i < at - start ==> is_digit(#[trigger] digits[i]),
            value == digits_value(digits.take(at - start)),
        decreases text@.len() - at,
    {
        let c: char = text[at];
        proof {
            let longer = digits.take(at + 1 - start);
            assert(longer.drop_last() =~= digits.take(at - start));
            assert(longer.last() == c);
            lemma_value_grows(digits, at + 1 - start);
            assert(digits[at - start] == c);
        }
        if c < '0' || c > '9' {
            return None;
        }
        let digit: usize = (c as u32 - '0' as u32) as usize;
        match value.checked_mul(10) {
            None => {
                return None;
            },
            Some(tenfold) => {
                match tenfold.checked_add(digit) {
                    None => {
                        return None;
                    },
                    Some(sum) => {
                        value = sum;
                    },
                }
            },
        }
        at = at + 1;
    }
    assert(digits.take(text@.len() - start) =~= digits);
    Some(value)
}

/// The character of a decimal digit.
pub open spec fn digit_char(digit: nat) -> char {
    ('0' as u32 + digit) as char
}

/// The decimal digits of `n`, without leading zeros.
pub open spec fn decimal(n: nat) -> Seq<char>
    decreases n,
{
    if n < 10 {
        seq![digit_char(n)]
    } else {
        decimal(n / 10).push(digit_char(n % 10))
    }
}

/// What a number is written as reads as that number.
pub proof fn number_of_decimal(n: usize)
    ensures
        number(decimal(n as nat)) == Some(n),
{
    lemma_decimal(n as nat);
}

/// Written numbers are rows of digits with the right value.
proof fn lemma_decimal(n: nat)
    ensures
        decimal(n).len() > 0,
        forall|i: int| 0 <= i < decimal(n).len() ==> is_digit(#[trigger] decimal(n)[i]),
        digits_value(decimal(n)) == n,
    decreases n,
{
    if n >= 10 {
        lemma_decimal(n / 10);
        assert(decimal(n).drop_last() =~= decimal(n / 10));
    } else {
        assert(decimal(n).drop_last() =~= Seq::<char>::empty());
        assert(digits_value(Seq::<char>::empty()) == 0);
    }
}

/// A written number has no whitespace to trim, but for a line feed behind it.
pub proof fn trimmed_decimal(n: nat)
    ensures
        trimmed(decimal(n).push('\n')) == decimal(n),
{
    let digits = decimal(n);
    let text = digits.push('\n');
    lemma_decimal(n);
    assert(is_digit(digits[0]));
    assert(text[0] == digits[0]);
    assert(span(text, 0, true) == 0);
    let len = digits.len() as int;
    assert(is_digit(digits[len - 1]));
    assert(text[len - 1] == digits[len - 1]);
    assert(last_visible(text, len) == len);
    assert(last_visible(text, len + 1) == len);
    assert(text.subrange(0, len) =~= digits);
}

/// The digit as a string.
fn digit_str(digit: usize) -> (text: &'static str)
    requires
        digit < 10,
    ensures
        text@ == seq![digit_char(digit as nat)],
{
    proof {
        reveal_strlit("0");
        reveal_strlit("1");
        reveal_strlit("2");
        reveal_strlit("3");
        reveal_strlit("4");
        reveal_strlit("5");
        reveal_strlit("6");
        reveal_strlit("7");
        reveal_strlit("8");
        reveal_strlit("9");
    }
    match digit {
        0 => "0",
        1 => "1",
        2 => "2",
        3 => "3",
        4 => "4",
        5 => "5",
        6 => "6",
        7 => "7",
        8 => "8",
        _ => "9",
    }
}

/// Writes a number in decimal digits.
pub fn render_number(n: usize) -> (text: String)
    ensures
        text@ == decimal(n as nat),
    decreases n,
{
    let mut text: String = if n < 10 {
        String::new()
    } else {
        render_number(n / 10)
    };
    text.append(digit_str(n % 10));
    text
}

/// The characters that separate words are these twenty-five.
pub proof fn whitespace_exact(c: char)
    ensures
        is_whitespace(c) <==> seq![
            0x09u32, 0x0a, 0x0b, 0x0c, 0x0d, 0x20, 0x85, 0xa0, 0x1680, 0x2000, 0x2001, 0x2002,
            0x2003, 0x2004, 0x2005, 0x2006, 0x2007, 0x2008, 0x2009, 0x200a, 0x2028, 0x2029, 0x202f,
            0x205f, 0x3000,
        ].contains(c as u32),
{
    let all = seq![
        0x09u32, 0x0a, 0x0b, 0x0c, 0x0d, 0x20, 0x85, 0xa0, 0x1680, 0x2000, 0x2001, 0x2002, 0x2003,
        0x2004, 0x2005, 0x2006, 0x2007, 0x2008, 0x2009, 0x200a, 0x2028, 0x2029, 0x202f, 0x205f,
        0x3000,
    ];
    if is_whitespace(c) {
        let code = c as u32;
        let at: int = if code <= 0x0d {
            code - 0x09
        } else if code == 0x20 {
            5
        } else if code == 0x85 {
            6
        } else if code == 0xa0 {
            7
        } else if code == 0x1680 {
            8
        } else if code <= 0x200a {
            code - 0x2000 + 9
        } else if code <= 0x2029 {
            code - 0x2028 + 20
        } else if code == 0x202f {
            22
        } else if code == 0x205f {
            23
        } else {
            24
        };
        assert(all[at] == code);
    }
}

/// The first line feed at or behind `from` is at `end`.
proof fn lemma_line_feed_is(text: Seq<char>, from: int, end: int)
    requires
        0 <= from <= end <= text.len(),
        forall|i: int| from <= i < end ==> #[trigger] text[i] != '\n',
        end < text.len() ==> text[end] == '\n',
    ensures
        line_feed(text, from) == end,
    decreases end - from,
{
    if from < end {
        lemma_line_feed_is(text, from + 1, end);
    }
}

/// What stands in front does not matter to a search for a line feed.
proof fn lemma_line_feed_behind(front: Seq<char>, text: Seq<char>, from: int)
    requires
        0 <= from <= text.len(),
    ensures
        line_feed(front + text, front.len() + from) == front.len() + line_feed(text, from),
    decreases text.len() - from,
{
    if from < text.len() {
        assert((front + text)[front.len() + from] == text[from]);
        if text[from] != '\n' {
            lemma_line_feed_behind(front, text, from + 1);
        }
    }
}

/// Nor does it matter to the lines.
proof fn lemma_lines_behind(front: Seq<char>, text: Seq<char>, from: int)
    requires
        0 <= from,
    ensures
        lines_from(front + text, front.len() + from) == lines_from(text, from),
    decreases text.len() + 1 - from,
{
    if from < text.len() {
        let all = front + text;
        let end = line_feed(text, from);
        lemma_line_feed(text, from);
        lemma_line_feed_behind(front, text, from);
        lemma_lines_behind(front, text, end + 1);
        assert(end > from ==> all[front.len() + end - 1] == text[end - 1]);
        assert(line_at(all, front.len() + from) =~= line_at(text, from));
    }
}

/// A line ends at a line feed, or at a carriage return and a line feed, or with
/// the text; what follows the line feed is split in the same way. A text that
/// is empty has no line.
pub proof fn lines_exact(line: Seq<char>, rest: Seq<char>)
    requires
        !line.contains('\n'),
    ensures
        lines_from(Seq::empty(), 0) == Seq::<Seq<char>>::empty(),
        line.len() > 0 ==> lines_from(line, 0) == seq![line],
        line.len() == 0 || line.last() != '\r' ==> lines_from(line + seq!['\n'] + rest, 0)
            == seq![line] + lines_from(rest, 0),
        lines_from(line + seq!['\r', '\n'] + rest, 0) == seq![line] + lines_from(rest, 0),
{
    let len = line.len() as int;
    assert forall|i: int| 0 <= i < len implies line[i] != '\n' by {
        assert(line.contains(line[i]));
    }
    lemma_line_feed_is(line, 0, len);
    if len > 0 {
        assert(line_at(line, 0) =~= line);
        assert(lines_from(line, len + 1) =~= Seq::empty());
        assert(lines_from(line, 0) =~= seq![line]);
    }
    let fed = line + seq!['\n'] + rest;
    lemma_line_feed_is(fed, 0, len);
    lemma_lines_behind(line + seq!['\n'], rest, 0);
    if len == 0 || line.last() != '\r' {
        assert(len > 0 ==> fed[len - 1] == line.last());
        assert(line_at(fed, 0) =~= line);
    }
    let returned = line + seq!['\r', '\n'] + rest;
    assert(returned[len] == '\r' && returned[len + 1] == '\n');
    lemma_line_feed_is(returned, 0, len + 1);
    lemma_lines_behind(line + seq!['\r', '\n'], rest, 0);
    assert(line_at(returned, 0) =~= line);
}

/// All of `text` is whitespace.
pub open spec fn blank(text: Seq<char>) -> bool {
    forall|i: int| 0 <= i < text.len() ==> is_whitespace(#[trigger] text[i])
}

/// `text` is not empty and none of it is whitespace.
pub open spec fn is_word(text: Seq<char>) -> bool {
    text.len() > 0 && forall|i: int| 0 <= i < text.len() ==> !is_whitespace(#[trigger] text[i])
}

/// The span from `from` on ends at `end`.
proof fn lemma_span_is(text: Seq<char>, from: int, end: int, white: bool)
    requires
        0 <= from <= end <= text.len(),
        forall|i: int| from <= i < end ==> is_whitespace(#[trigger] text[i]) == white,
        end < text.len() ==> is_whitespace(text[end]) != white,
    ensures
        span(text, from, white) == end,
    decreases end - from,
{
    if from < end {
        lemma_span_is(text, from + 1, end, white);
    }
}

/// What stands in front does not matter to a span.
proof fn lemma_span_behind(front: Seq<char>, text: Seq<char>, from: int, white: bool)
    requires
        0 <= from <= text.len(),
    ensures
        span(front + text, front.len() + from, white) == front.len() + span(text, from, white),
    decreases text.len() - from,
{
    if from < text.len() {
        assert((front + text)[front.len() + from] == text[from]);
        if is_whitespace(text[from]) == white {
            lemma_span_behind(front, text, from + 1, white);
        }
    }
}

/// Nor does it matter to the words.
proof fn lemma_words_behind(front: Seq<char>, text: Seq<char>, from: int)
    requires
        0 <= from <= text.len(),
    ensures
        words_from(front + text, front.len() + from) == words_from(text, from),
    decreases text.len() - from,
{
    let all = front + text;
    let start = span(text, from, true);
    lemma_span(text, from, true);
    lemma_span_behind(front, text, from, true);
    lemma_span(text, start, false);
    lemma_span_behind(front, text, start, false);
    if start < text.len() {
        let end = span(text, start, false);
        lemma_words_behind(front, text, end);
        assert(all.subrange(front.len() + start, front.len() + end) =~= text.subrange(start, end));
    }
}

/// A word is what stands between whitespace: behind any amount of it, up to the
/// next or to the end. What follows is split in the same way, and whitespace
/// alone has no word.
pub proof fn words_exact(gap: Seq<char>, word: Seq<char>, rest: Seq<char>)
    requires
        blank(gap),
        is_word(word),
        rest.len() == 0 || is_whitespace(rest[0]),
    ensures
        words_from(gap, 0) == Seq::<Seq<char>>::empty(),
        words_from(gap + word + rest, 0) == seq![word] + words_from(rest, 0),
{
    lemma_span_is(gap, 0, gap.len() as int, true);
    let all = gap + word + rest;
    let (start, end) = (gap.len() as int, gap.len() as int + word.len());
    assert forall|i: int| 0 <= i < start implies is_whitespace(#[trigger] all[i]) by {
        assert(all[i] == gap[i]);
    }
    assert forall|i: int| start <= i < end implies !is_whitespace(#[trigger] all[i]) by {
        assert(all[i] == word[i - start]);
    }
    assert(rest.len() > 0 ==> all[end] == rest[0]);
    lemma_span_is(all, 0, start, true);
    lemma_span_is(all, start, end, false);
    lemma_words_behind(gap + word, rest, 0);
    assert(all.subrange(start, end) =~= word);
}

/// The visible part of the first `len` characters ends at `end`.
proof fn lemma_last_visible_is(text: Seq<char>, len: int, end: int)
    requires
        0 <= end <= len <= text.len(),
        forall|i: int| end <= i < len ==> is_whitespace(#[trigger] text[i]),
        end > 0 ==> !is_whitespace(text[end - 1]),
    ensures
        last_visible(text, len) == end,
    decreases len,
{
    if len > end {
        lemma_last_visible_is(text, len - 1, end);
    }
}

/// Trimming takes the whitespace in front and behind away and nothing else.
pub proof fn trim_exact(front: Seq<char>, inner: Seq<char>, back: Seq<char>)
    requires
        blank(front),
        blank(back),
        inner.len() > 0 ==> !is_whitespace(inner[0]) && !is_whitespace(inner.last()),
    ensures
        trimmed(front + inner + back) == inner,
{
    let all = front + inner + back;
    let (start, end) = (front.len() as int, front.len() as int + inner.len());
    assert forall|i: int| 0 <= i < start implies is_whitespace(#[trigger] all[i]) by {
        assert(all[i] == front[i]);
    }
    assert forall|i: int| end <= i < all.len() implies is_whitespace(#[trigger] all[i]) by {
        assert(all[i] == back[i - end]);
    }
    if inner.len() > 0 {
        assert(all[start] == inner[0] && all[end - 1] == inner.last());
        lemma_span_is(all, 0, start, true);
        lemma_last_visible_is(all, all.len() as int, end);
        assert(all.subrange(start, end) =~= inner);
    } else {
        lemma_span_is(all, 0, all.len() as int, true);
        lemma_last_visible_is(all, all.len() as int, 0);
    }
}

/// A single character is a number exactly if it is a digit, and then the number
/// that the digit stands for.
pub proof fn number_of_character(c: char)
    ensures
        '0' <= c <= '9' ==> number(seq![c]) == Some((c as u32 - 48) as usize),
        !('0' <= c <= '9') ==> number(seq![c]) is None,
{
    let text = seq![c];
    assert(text.drop_last() =~= Seq::<char>::empty());
    assert(digits_value(Seq::<char>::empty()) == 0);
    assert(text[0] == c);
    if c == '+' {
        assert(unsigned_part(text).len() == 0);
    } else {
        assert(unsigned_part(text) == text);
        assert(digits_value(text) == digit_value(c));
        if !is_digit(c) {
            assert(!is_digit(text[0]));
        }
    }
}

/// A digit behind a number makes ten times that number plus the digit, where a
/// `usize` can hold that. Nothing else can stand behind a number, and what is
/// no number does not become one, but for a sign alone.
pub proof fn number_extended(text: Seq<char>, c: char)
    requires
        text.len() > 0,
        text != seq!['+'],
    ensures
        number(text.push(c)) == match number(text) {
            Some(value) => if '0' <= c <= '9' && value * 10 + (c as u32 - 48) <= usize::MAX {
                Some((value * 10 + (c as u32 - 48)) as usize)
            } else {
                None
            },
            None => None,
        },
{
    let longer = text.push(c);
    let (digits, more) = (unsigned_part(text), unsigned_part(longer));
    assert(longer[0] == text[0]);
    if text.len() == 1 {
        assert(text =~= seq![text[0]]);
    }
    assert(more =~= digits.push(c));
    assert(more.drop_last() =~= digits);
    assert(digits_value(more) == digits_value(digits) * 10 + digit_value(c));
    if forall|i: int| 0 <= i < digits.len() ==> is_digit(#[trigger] digits[i]) {
        assert(more[more.len() - 1] == c);
        if is_digit(c) {
            assert(forall|i: int| 0 <= i < more.len() ==> is_digit(#[trigger] more[i]));
        }
    } else {
        let i = choose|i: int| 0 <= i < digits.len() && !is_digit(#[trigger] digits[i]);
        assert(more[i] == digits[i]);
    }
}

/// A plus sign may stand in front of a number, but not two; nothing at all is
/// no number.
pub proof fn number_signed(text: Seq<char>)
    ensures
        number(Seq::empty()) is None,
        number(seq!['+'] + text) == if text.len() > 0 && text[0] == '+' {
            None
        } else {
            number(text)
        },
{
    let signed = seq!['+'] + text;
    assert(signed.skip(1) =~= text);
    if text.len() > 0 && text[0] == '+' {
        assert(!is_digit(text[0]));
    }
}

/// A number is written in digits, without a sign, and without a zero in front
/// unless it is zero.
pub proof fn decimal_exact(n: usize)
    ensures
        decimal(n as nat).len() > 0,
        forall|i: int|
            0 <= i < decimal(n as nat).len() ==> '0' <= #[trigger] decimal(n as nat)[i] <= '9',
        decimal(n as nat)[0] == '0' ==> n == 0 && decimal(n as nat).len() == 1,
        number(decimal(n as nat)) == Some(n),
{
    lemma_decimal(n as nat);
    lemma_no_leading_zero(n as nat);
    let digits = decimal(n as nat);
    assert forall|i: int| 0 <= i < digits.len() implies '0' <= #[trigger] digits[i] <= '9' by {
        assert(is_digit(digits[i]));
    }
}

/// Only zero is written with a zero in front.
proof fn lemma_no_leading_zero(n: nat)
    ensures
        decimal(n).len() > 0,
        decimal(n)[0] == '0' ==> n == 0,
        n < 10 ==> decimal(n).len() == 1,
    decreases n,
{
    if n >= 10 {
        lemma_no_leading_zero(n / 10);
    }
}

} // verus!
