//! The elements that every grammar here is made of: white space, words,
//! punctuation and whole numbers.
use vstd::prelude::*;
use crate::text::to_chars;

verus! {

/// Where a parser failed: the line and the column, both counted from one,
/// of the first character that it could not use.
#[derive(Debug, Clone, Copy, PartialEq, Eq, Structural)]
pub struct ParseError {
    pub line: usize,
    pub column: usize,
}

/// A space, a tab or a line break.
pub open spec fn is_space(c: char) -> bool {
    c == ' ' || c == '\t' || c == '\n' || c == '\r'
}

/// A decimal digit.
pub open spec fn is_digit(c: char) -> bool {
    '0' <= c <= '9'
}

/// A character that may start a word: a letter or `_`.
pub open spec fn is_word_start(c: char) -> bool {
    ('a' <= c <= 'z') || ('A' <= c <= 'Z') || c == '_'
}

/// A character that may continue a word.
pub open spec fn is_word_char(c: char) -> bool {
    is_word_start(c) || is_digit(c)
}

/// The lower-case form of an ASCII letter; any other character itself.
pub open spec fn lower(c: char) -> char {
    if 'A' <= c <= 'Z' {
        ((c as u8 + 32) as u8) as char
    } else {
        c
    }
}

/// The first position at or after `pos` that holds no white space.
pub open spec fn skip_space(s: Seq<char>, pos: int) -> int
    decreases s.len() - pos,
{
    if 0 <= pos < s.len() && is_space(s[pos]) {
        skip_space(s, pos + 1)
    } else {
        pos
    }
}

/// The first position at or after `pos` that holds no word character.
pub open spec fn word_end(s: Seq<char>, pos: int) -> int
    decreases s.len() - pos,
{
    if 0 <= pos < s.len() && is_word_char(s[pos]) {
        word_end(s, pos + 1)
    } else {
        pos
    }
}

/// The first position at or after `pos` that holds no digit.
pub open spec fn digits_end(s: Seq<char>, pos: int) -> int
    decreases s.len() - pos,
{
    if 0 <= pos < s.len() && is_digit(s[pos]) {
        digits_end(s, pos + 1)
    } else {
        pos
    }
}

/// The characters of `text` stand at `pos`, letters compared without
/// regard to case.
pub open spec fn text_at(s: Seq<char>, pos: int, text: Seq<char>) -> bool {
    0 <= pos && pos + text.len() <= s.len() && forall|i: int|
        0 <= i < text.len() ==> lower(#[trigger] s[pos + i]) == lower(text[i])
}

/// The word `word` stands at `pos`: its characters, without regard to
/// case, and no word character right behind them.
pub open spec fn word_at(s: Seq<char>, pos: int, word: Seq<char>) -> bool {
    text_at(s, pos, word) && !(pos + word.len() < s.len() && is_word_char(s[pos + word.len()]))
}

/// The number that a run of digits denotes.
pub open spec fn digits_value(digits: Seq<char>) -> nat
    decreases digits.len(),
{
    if digits.len() == 0 {
        0
    } else {
        digits_value(digits.drop_last()) * 10 + (digits.last() as u8 - '0' as u8) as nat
    }
}

/// The line of the position `pos`, counted from one.
pub open spec fn line_of(s: Seq<char>, pos: int) -> int
    decreases pos,
{
    if pos <= 0 || pos > s.len() {
        1
    } else {
        line_of(s, pos - 1) + if s[pos - 1] == '\n' {
            1int
        } else {
            0int
        }
    }
}

/// The column of the position `pos`, counted from one.
pub open spec fn column_of(s: Seq<char>, pos: int) -> int
    decreases pos,
{
    if pos <= 0 || pos > s.len() || s[pos - 1] == '\n' {
        1
    } else {
        column_of(s, pos - 1) + 1
    }
}

/// `n` as a machine integer, the largest one if `n` is too large.
pub open spec fn clamp(n: int) -> usize {
    if n <= usize::MAX {
        n as usize
    } else {
        usize::MAX
    }
}

/// The error that names the position `pos` of `s`.
pub open spec fn error_at(s: Seq<char>, pos: int) -> ParseError {
    ParseError { line: clamp(line_of(s, pos)), column: clamp(column_of(s, pos)) }
}

/// The end of a word is no earlier than its start and within the text.
pub proof fn lemma_word_end(s: Seq<char>, pos: int)
    requires
        0 <= pos <= s.len(),
    ensures
        pos <= word_end(s, pos) <= s.len(),
    decreases s.len() - pos,
{
    if pos < s.len() && is_word_char(s[pos]) {
        lemma_word_end(s, pos + 1);
    }
}

proof fn lemma_line_column(s: Seq<char>, pos: int)
    requires
        0 <= pos <= s.len(),
    ensures
        1 <= line_of(s, pos) <= pos + 1,
        1 <= column_of(s, pos) <= pos + 1,
    decreases pos,
{
    if pos > 0 {
        lemma_line_column(s, pos - 1);
    }
}

/// Whether `c` is white space.
pub fn space(c: char) -> (r: bool)
    ensures
        r == is_space(c),
{
    c == ' ' || c == '\t' || c == '\n' || c == '\r'
}

/// Whether `c` is a decimal digit.
pub fn digit(c: char) -> (r: bool)
    ensures
        r == is_digit(c),
{
    '0' <= c && c <= '9'
}

/// Whether `c` may start a word.
pub fn word_start(c: char) -> (r: bool)
    ensures
        r == is_word_start(c),
{
    ('a' <= c && c <= 'z') || ('A' <= c && c <= 'Z') || c == '_'
}

/// Whether `c` may continue a word.
pub fn word_char(c: char) -> (r: bool)
    ensures
        r == is_word_char(c),
{
    word_start(c) || digit(c)
}

/// The lower-case form of `c`.
pub fn to_lower(c: char) -> (r: char)
    ensures
        r == lower(c),
{
    if 'A' <= c && c <= 'Z' {
        ((c as u8) + 32) as char
    } else {
        c
    }
}

/// The first position at or after `pos` without white space.
pub fn multispace0(s: &[char], pos: usize) -> (r: usize)
    requires
        pos <= s@.len(),
    ensures
        r == skip_space(s@, pos as int),
        pos <= r <= s@.len(),
{
    let mut p: usize = pos;
    while p < s.len() && space(s[p])
        invariant
            pos <= p <= s@.len(),
            skip_space(s@, pos as int) == skip_space(s@, p as int),
        decreases s@.len() - p,
    {
        p += 1;
    }
    p
}

/// The first position at or after `pos` without a word character.
pub fn end_of_word(s: &[char], pos: usize) -> (r: usize)
    requires
        pos <= s@.len(),
    ensures
        r == word_end(s@, pos as int),
        pos <= r <= s@.len(),
{
    let mut p: usize = pos;
    while p < s.len() && word_char(s[p])
        invariant
            pos <= p <= s@.len(),
            word_end(s@, pos as int) == word_end(s@, p as int),
        decreases s@.len() - p,
    {
        p += 1;
    }
    p
}

/// The first position at or after `pos` without a digit.
pub fn end_of_digits(s: &[char], pos: usize) -> (r: usize)
    requires
        pos <= s@.len(),
    ensures
        r == digits_end(s@, pos as int),
        pos <= r <= s@.len(),
{
    let mut p: usize = pos;
    while p < s.len() && digit(s[p])
        invariant
            pos <= p <= s@.len(),
            digits_end(s@, pos as int) == digits_end(s@, p as int),
        decreases s@.len() - p,
    {
        p += 1;
    }
    p
}

/// The position behind `text` if its characters stand at `pos`, without
/// regard to case.
pub fn tag_no_case(s: &[char], pos: usize, text: &str) -> (r: Option<usize>)
    requires
        pos <= s@.len(),
    ensures
        r is Some <==> text_at(s@, pos as int, text@),
        r matches Some(end) ==> end == pos + text@.len() && end <= s@.len(),
{
    let t = to_chars(text);
    if t.len() > s.len() - pos {
        return None;
    }
    let mut i: usize = 0;
    while i < t.len()
        invariant
            i <= t@.len(),
            t@ == text@,
            pos + t@.len() <= s@.len(),
            s@.len() <= usize::MAX,
            forall|j: int| 0 <= j < i ==> lower(#[trigger] s@[pos + j]) == lower(t@[j]),
        decreases t@.len() - i,
    {
        if to_lower(s[pos + i]) != to_lower(t[i]) {
            return None;
        }
        i += 1;
    }
    Some(pos + t.len())
}

/// The position behind the word `word` if it stands at `pos`.
pub fn keyword(s: &[char], pos: usize, word: &str) -> (r: Option<usize>)
    requires
        pos <= s@.len(),
    ensures
        r is Some <==> word_at(s@, pos as int, word@),
        r matches Some(end) ==> end == pos + word@.len() && end <= s@.len(),
{
    match tag_no_case(s, pos, word) {
        Some(end) => {
            if end < s.len() && word_char(s[end]) {
                None
            } else {
                Some(end)
            }
        },
        None => None,
    }
}

/// Whether the character `c` stands at `pos`.
pub fn char_at(s: &[char], pos: usize, c: char) -> (r: bool)
    ensures
        r == (pos < s@.len() && s@[pos as int] == c),
{
    pos < s.len() && s[pos] == c
}

/// The error that names the position `pos`.
pub fn error(s: &[char], pos: usize) -> (e: ParseError)
    requires
        pos <= s@.len(),
    ensures
        e == error_at(s@, pos as int),
{
    let mut line: usize = 1;
    let mut column: usize = 1;
    let mut i: usize = 0;
    while i < pos
        invariant
            i <= pos <= s@.len(),
            line == clamp(line_of(s@, i as int)),
            column == clamp(column_of(s@, i as int)),
        decreases pos - i,
    {
        proof {
            lemma_line_column(s@, i as int);
        }
        if s[i] == '\n' {
            if line < usize::MAX {
                line += 1;
            }
            column = 1;
        } else if column < usize::MAX {
            column += 1;
        }
        i += 1;
    }
    ParseError { line, column }
}

} // verus!
