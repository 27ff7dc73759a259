//! Text as the cart format uses it: lines, words set apart by white space,
//! and unsigned decimal numbers.

use vstd::prelude::*;
use vstd::slice::slice_subrange;

verus! {

/// White space: the characters with the Unicode property `White_Space`.
pub open spec fn is_space(c: char) -> bool {
    let code = c as u32;
    ||| 0x09 <= code <= 0x0D
    ||| code == 0x20
    ||| code == 0x85
    ||| code == 0xA0
    ||| code == 0x1680
    ||| 0x2000 <= code <= 0x200A
    ||| code == 0x2028
    ||| code == 0x2029
    ||| code == 0x202F
    ||| code == 0x205F
    ||| code == 0x3000
}

/// The number of characters before the first line feed.
pub open spec fn line_len(text: Seq<char>) -> nat
    decreases text.len(),
{
    if text.len() == 0 || text[0] == '\n' {
        0
    } else {
        1 + line_len(text.drop_first())
    }
}

/// The lines of a text. A line feed ends a line and belongs to none; what
/// follows the last line feed is a line only if it is not empty. A carriage
/// return before the line feed stays with its line, where it is white space.
pub open spec fn lines(text: Seq<char>) -> Seq<Seq<char>>
    decreases text.len(),
{
    if text.len() == 0 {
        Seq::empty()
    } else {
        let n = line_len(text) as int;
        if n < text.len() {
            seq![text.take(n)] + lines(text.skip(n + 1))
        } else {
            seq![text]
        }
    }
}

/// The number of characters before the first white space.
pub open spec fn word_len(text: Seq<char>) -> nat
    decreases text.len(),
{
    if text.len() == 0 || is_space(text[0]) {
        0
    } else {
        1 + word_len(text.drop_first())
    }
}

/// The words of a text: its longest runs of characters that are not white
/// space, from left to right.
pub open spec fn words(text: Seq<char>) -> Seq<Seq<char>>
    decreases text.len(),
{
    if text.len() == 0 {
        Seq::empty()
    } else if is_space(text[0]) {
        words(text.drop_first())
    } else {
        let n = word_len(text) as int;
        proof {
            lemma_word_len_bound(text);
        }
        seq![text.take(n)] + words(text.skip(n))
    }
}

/// Whether `c` is one of the digits `0` to `9`.
pub open spec fn is_digit(c: char) -> bool {
    0x30 <= c as u32 <= 0x39
}

/// Whether `text` holds digits only.
pub open spec fn all_digits(text: Seq<char>) -> bool {
    forall|i: int| 0 <= i < text.len() ==> is_digit(#[trigger] text[i])
}

/// The number that a run of digits writes in base ten.
pub open spec fn digits_value(digits: Seq<char>) -> nat
    decreases digits.len(),
{
    if digits.len() == 0 {
        0
    } else {
        digits_value(digits.drop_last()) * 10 + (digits.last() as u32 - 0x30) as nat
    }
}

/// A word without the plus sign that may stand before it.
pub open spec fn unsigned(word: Seq<char>) -> Seq<char> {
    if word.len() > 0 && word[0] == '+' {
        word.drop_first()
    } else {
        word
    }
}

/// The number that a word stands for: digits, at least one, with or
/// without a plus sign before them, whose value fits 32 bits. Any other word
/// stands for no number.
pub open spec fn decimal(word: Seq<char>) -> Option<u32> {
    let digits = unsigned(word);
    if digits.len() > 0 && all_digits(digits) && digits_value(digits) <= u32::MAX {
        Some(digits_value(digits) as u32)
    } else {
        None
    }
}

/// What each slice of a list holds.
pub open spec fn contents(slices: Seq<&[char]>) -> Seq<Seq<char>> {
    Seq::new(slices.len(), |i: int| slices[i]@)
}

/// A word is no longer than the text that it begins, and not empty where
/// the text begins with a character that is no white space.
pub proof fn lemma_word_len_bound(text: Seq<char>)
    ensures
        word_len(text) <= text.len(),
        text.len() > 0 && !is_space(text[0]) ==> word_len(text) >= 1,
    decreases text.len(),
{
    if text.len() > 0 && !is_space(text[0]) {
        lemma_word_len_bound(text.drop_first());
    }
}

/// A run of digits is worth at least as much as any of its beginnings.
proof fn lemma_digits_value_grows(digits: Seq<char>, n: int)
    requires
        all_digits(digits),
        0 <= n <= digits.len(),
    ensures
        digits_value(digits.take(n)) <= digits_value(digits),
    decreases digits.len(),
{
    if n == digits.len() {
        assert(digits.take(n) =~= digits);
    } else {
        let front = digits.drop_last();
        lemma_digits_value_grows(front, n);
        assert(front.take(n) =~= digits.take(n));
    }
}

/// Whether `c` is white space.
pub fn is_whitespace(c: char) -> (space: bool)
    ensures
        space == is_space(c),
{
    let code: u32 = c as u32;
    (0x09 <= code && code <= 0x0D) || code == 0x20 || code == 0x85 || code == 0xA0 || code
        == 0x1680 || (0x2000 <= code && code <= 0x200A) || code == 0x2028 || code == 0x2029
        || code == 0x202F || code == 0x205F || code == 0x3000
}

/// The characters of a string, in order.
pub fn characters(input: &str) -> (text: Vec<char>)
    ensures
        text@ == input@,
{
    let mut text: Vec<char> = Vec::new();
    for c in source: input.chars()
        invariant
            source.seq() == input@,
            text@ == source.seq().take(source.index() as int),
    {
        text.push(c);
    }
    text
}

/// Cuts a text into its lines.
pub fn split_lines<'a>(text: &'a [char]) -> (split: Vec<&'a [char]>)
    ensures
        contents(split@) == lines(text@),
{
    let mut split: Vec<&'a [char]> = Vec::new();
    let mut pos: usize = 0;
    proof {
        assert(text@.skip(0) =~= text@);
    }
    while pos < text.len()
        invariant
            pos <= text@.len(),
            lines(text@) == contents(split@) + lines(text@.skip(pos as int)),
        decreases text@.len() - pos,
    {
        let start: usize = pos;
        let ghost rest = text@.skip(start as int);
        while pos < text.len() && text[pos] != '\n'
            invariant
                start <= pos <= text@.len(),
                rest == text@.skip(start as int),
                line_len(rest) == (pos - start) + line_len(text@.skip(pos as int)),
            decreases text@.len() - pos,
        {
            proof {
                assert(text@.skip(pos as int).drop_first() =~= text@.skip(pos + 1));
            }
            pos += 1;
        }
        let line: &'a [char] = slice_subrange(text, start, pos);
        proof {
            assert(rest.take(pos - start) =~= line@);
            if pos < text@.len() {
                assert(rest.skip(pos - start + 1) =~= text@.skip(pos + 1));
            }
        }
        split.push(line);
        if pos < text.len() {
            pos += 1;
        }
    }
    split
}

/// Cuts a text into its words.
pub fn split_words<'a>(text: &'a [char]) -> (split: Vec<&'a [char]>)
    ensures
        contents(split@) == words(text@),
{
    let mut split: Vec<&'a [char]> = Vec::new();
    let mut pos: usize = 0;
    proof {
        assert(text@.skip(0) =~= text@);
    }
    while pos < text.len()
        invariant
            pos <= text@.len(),
            words(text@) == contents(split@) + words(text@.skip(pos as int)),
        decreases text@.len() - pos,
    {
        if is_whitespace(text[pos]) {
            proof {
                assert(text@.skip(pos as int).drop_first() =~= text@.skip(pos + 1));
            }
            pos += 1;
        } else {
            let start: usize = pos;
            let ghost rest = text@.skip(start as int);
            while pos < text.len() && !is_whitespace(text[pos])
                invariant
                    start <= pos <= text@.len(),
                    rest == text@.skip(start as int),
                    word_len(rest) == (pos - start) + word_len(text@.skip(pos as int)),
                decreases text@.len() - pos,
            {
                proof {
                    assert(text@.skip(pos as int).drop_first() =~= text@.skip(pos + 1));
                }
                pos += 1;
            }
            let word: &'a [char] = slice_subrange(text, start, pos);
            proof {
                assert(rest.take(pos - start) =~= word@);
                assert(rest.skip(pos - start) =~= text@.skip(pos as int));
            }
            split.push(word);
        }
    }
    split
}

/// Reads a word as an unsigned decimal number of 32 bits.
pub fn parse_decimal(word: &[char]) -> (number: Option<u32>)
    ensures
        number == decimal(word@),
{
    let start: usize = if word.len() > 0 && word[0] == '+' {
        1
    } else {
        0
    };
    let ghost digits = word@.skip(start as int);
    if start == word.len() {
        return None;
    }
    let mut value: u32 = 0;
    let mut pos: usize = start;
    while pos < word.len()
        invariant
            start <= pos <= word@.len(),
            digits == word@.skip(start as int),
            digits == unsigned(word@),
            all_digits(digits.take(pos - start)),
            value == digits_value(digits.take(pos - start)),
        decreases word@.len() - pos,
    {
        let code: u32 = word[pos] as u32;
        assert(digits[pos - start] == word@[pos as int]);
        if code < 0x30 || code > 0x39 {
            return None;
        }
        let ghost longer = digits.take(pos - start + 1);
        proof {
            assert(longer.drop_last() =~= digits.take(pos - start));
        }
        let next: u64 = value as u64 * 10 + (code - 0x30) as u64;
        if next > u32::MAX as u64 {
            proof {
                if all_digits(digits) {
                    lemma_digits_value_grows(digits, pos - start + 1);
                }
            }
            return None;
        }
        value = next as u32;
        pos += 1;
    }
    proof {
        assert(digits.take(pos - start) =~= digits);
    }
    Some(value)
}

} // verus!
