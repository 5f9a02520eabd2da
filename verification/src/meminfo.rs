//! The amounts of memory that `/proc/meminfo` reports.

use vstd::prelude::*;

use crate::text::{
    chars_of, find_line_feed, parse_number, read_line, second_word, starts_with,
};

verus! {

/// The first of `lines` that begins with `key`.
pub open spec fn first_match(lines: Seq<Seq<char>>, key: Seq<char>) -> Option<Seq<char>>
    decreases lines.len(),
{
    if lines.len() == 0 {
        None
    } else if key.is_prefix_of(lines[0]) {
        Some(lines[0])
    } else {
        first_match(lines.skip(1), key)
    }
}

/// The amount a line reports: its second word, or zero where that is missing
/// or no number.
pub open spec fn amount(line: Seq<char>) -> usize {
    let words = crate::text::words_from(line, 0);
    if words.len() < 2 {
        0
    } else {
        match crate::text::number(words[1]) {
            Some(value) => value,
            None => 0,
        }
    }
}

/// The amount reported under `key` in kibibytes, converted to whole
/// mebibytes; zero where no line begins with `key`.
pub open spec fn reported_mb(content: Seq<char>, key: Seq<char>) -> int {
    match first_match(crate::text::lines_from(content, 0), key) {
        Some(line) => amount(line) as int / 1024,
        None => 0,
    }
}

/// Reads the amount that stands under `key` in the text of `/proc/meminfo`,
/// in mebibytes.
pub fn read_meminfo_mb(content: &str, key: &str) -> (mb: usize)
    ensures
        mb == reported_mb(content@, key@),
{
    let text: Vec<char> = chars_of(content);
    let key_chars: Vec<char> = chars_of(key);
    let mut at: usize = 0;
    while at < text.len()
        invariant
            text@ == content@,
            key_chars@ == key@,
            first_match(crate::text::lines_from(text@, at as int), key@) == first_match(
                crate::text::lines_from(text@, 0),
                key@,
            ),
        decreases text@.len() + 1 - at,
    {
        let end: usize = find_line_feed(&text, at);
        let line: Vec<char> = read_line(&text, at, end);
        proof {
            let lines = crate::text::lines_from(text@, at as int);
            assert(lines[0] == line@);
            assert(lines.skip(1) =~= crate::text::lines_from(text@, end + 1));
        }
        if starts_with(&line, &key_chars) {
            let kb: usize = match second_word(&line) {
                Some(word) => match parse_number(&word) {
                    Some(value) => value,
                    None => 0,
                },
                None => 0,
            };
            return kb / 1024;
        }
        if end == text.len() {
            assert(first_match(crate::text::lines_from(text@, end + 1), key@) is None);
            return 0;
        }
        at = end + 1;
    }
    0
}

/// A line reports the number that stands behind its first word, whatever
/// follows, and nothing where that is no number or no second word is there.
pub proof fn amount_exact(
    indent: Seq<char>,
    name: Seq<char>,
    gap: Seq<char>,
    word: Seq<char>,
    rest: Seq<char>,
)
    requires
        crate::text::blank(indent),
        crate::text::is_word(name),
        crate::text::blank(gap),
        gap.len() > 0,
        crate::text::is_word(word),
        rest.len() == 0 || crate::text::is_whitespace(rest[0]),
    ensures
        amount(indent + name + (gap + word + rest)) == match crate::text::number(word) {
            Some(value) => value,
            None => 0,
        },
        amount(indent + name + gap) == 0,
        amount(indent + name) == 0,
        amount(indent) == 0,
{
    let nothing = Seq::<char>::empty();
    crate::text::words_exact(gap, word, rest);
    crate::text::words_exact(indent, name, gap + word + rest);
    crate::text::words_exact(indent, name, gap);
    crate::text::words_exact(indent, name, nothing);
    crate::text::words_exact(nothing, word, rest);
    assert(indent + name + nothing =~= indent + name);
}

/// The first line that begins with the key decides, and lines in front of it
/// do not matter, whether they end in a line feed, with a carriage return
/// before it, or with the text. The amount is counted in units of 1024.
pub proof fn reported_exact(line: Seq<char>, rest: Seq<char>, key: Seq<char>)
    requires
        !line.contains('\n'),
    ensures
        reported_mb(Seq::empty(), key) == 0,
        ({
            let found = key.len() <= line.len() && line.take(key.len() as int) == key;
            let fed = reported_mb(line + seq!['\n'] + rest, key);
            let returned = reported_mb(line + seq!['\r', '\n'] + rest, key);
            let alone = reported_mb(line, key);
            &&& found ==> 1024 * returned <= amount(line) < 1024 * returned + 1024
            &&& !found ==> returned == reported_mb(rest, key)
            &&& line.len() == 0 || line.last() != '\r' ==> {
                &&& found ==> fed == returned
                &&& !found ==> fed == reported_mb(rest, key)
            }
            &&& line.len() > 0 ==> alone == if found {
                returned
            } else {
                0
            }
        }),
{
    let lines = crate::text::lines_from(rest, 0);
    crate::text::lines_exact(line, rest);
    let all = seq![line] + lines;
    assert(all[0] == line);
    assert(all.skip(1) =~= lines);
    assert(seq![line].skip(1) =~= Seq::<Seq<char>>::empty());
    assert(seq![line][0] == line);
    if key.len() <= line.len() {
        assert(line.take(key.len() as int) =~= line.subrange(0, key.len() as int));
    }
}

} // verus!
