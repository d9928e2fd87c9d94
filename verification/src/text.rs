//! Characters of the source text: their classes, and runs of one class.
//!
//! Which characters outside ASCII can stand in a word is not decided here:
//! it is asked of the `regex-syntax` crate.

use vstd::prelude::*;

verus! {

/// Whether `c` separates lexemes without being one: a white space character
/// of Unicode. These are the tab, the line feed, the vertical tab, the form
/// feed, the carriage return and the space; the next line character and the
/// no-break space; the ogham space mark; the spaces of fixed width from the
/// en quad to the hair space; the line and the paragraph separator; the
/// narrow no-break space, the medium mathematical space and the ideographic
/// space.
pub open spec fn is_space(c: char) -> bool {
    ||| '\t' <= c <= '\r'
    ||| c == ' '
    ||| c == '\u{85}'
    ||| c == '\u{a0}'
    ||| c == '\u{1680}'
    ||| '\u{2000}' <= c <= '\u{200a}'
    ||| c == '\u{2028}'
    ||| c == '\u{2029}'
    ||| c == '\u{202f}'
    ||| c == '\u{205f}'
    ||| c == '\u{3000}'
}

/// Whether `c` is a decimal digit.
pub open spec fn is_digit(c: char) -> bool {
    '0' <= c <= '9'
}

/// Whether `c` is an ASCII character.
pub open spec fn is_ascii_char(c: char) -> bool {
    c <= '\x7f'
}

/// Whether `c` is an ASCII letter, a decimal digit or an underscore.
pub open spec fn is_ascii_word_char(c: char) -> bool {
    ('a' <= c <= 'z') || ('A' <= c <= 'Z') || is_digit(c) || c == '_'
}

/// Whether `c` is a word character of Unicode: a character that is
/// alphabetic or a join control, or a decimal number, a mark or a connector
/// punctuation. It stands for what `regex_syntax::is_word_character` finds
/// in its tables; the library asks it of characters outside ASCII only.
pub uninterp spec fn unicode_word_character(c: char) -> bool;

/// Whether `c` can stand in a word. In ASCII the word characters are the
/// letters, the decimal digits and the underscore; outside ASCII they are
/// the word characters of Unicode. No space is a word character.
pub open spec fn is_word_char(c: char) -> bool {
    if is_space(c) {
        false
    } else if is_ascii_char(c) {
        is_ascii_word_char(c)
    } else {
        unicode_word_character(c)
    }
}

/// The characters of `text`, in order.
pub(crate) fn chars_of(text: &str) -> (chars: Vec<char>)
    ensures
        chars@ == text@,
{
    let mut chars: Vec<char> = Vec::new();
    for c in it: text.chars()
        invariant
            it.seq() == text@,
            chars@ == text@.take(it.index()),
    {
        chars.push(c);
    }
    chars
}

/// `String::push` appends one character to the end of the string.
pub assume_specification[ String::push ](text: &mut String, c: char)
    ensures
        final(text)@ == old(text)@.push(c),
;

/// The text that `chars` hold from `from` up to `to`.
pub(crate) fn text_between(chars: &Vec<char>, from: usize, to: usize) -> (text: String)
    requires
        from <= to <= chars.len(),
    ensures
        text@ == chars@.subrange(from as int, to as int),
{
    let mut text = String::new();
    let mut i: usize = from;
    while i < to
        invariant
            from <= i <= to <= chars.len(),
            text@ == chars@.subrange(from as int, i as int),
        decreases to - i,
    {
        text.push(chars[i]);
        i = i + 1;
    }
    text
}

/// Whether `c` is a space.
pub(crate) fn char_is_space(c: char) -> (b: bool)
    ensures
        b == is_space(c),
{
    ('\t' <= c && c <= '\r') || c == ' ' || c == '\u{85}' || c == '\u{a0}' || c == '\u{1680}' || (
    '\u{2000}' <= c && c <= '\u{200a}') || c == '\u{2028}' || c == '\u{2029}' || c == '\u{202f}' || c
        == '\u{205f}' || c == '\u{3000}'
}

/// Whether `c` is a decimal digit.
pub(crate) fn char_is_digit(c: char) -> (b: bool)
    ensures
        b == is_digit(c),
{
    '0' <= c && c <= '9'
}

/// Calls `regex_syntax::is_word_character`, which looks `c` up in the
/// crate's table of the word characters of Unicode. The contract claims no
/// more than that the answer depends on `c` alone. The function does not
/// panic while the crate's feature `unicode-perl` is on, which this library
/// asks for.
#[verifier::external_body]
fn unicode_char_is_word(c: char) -> (b: bool)
    ensures
        b == unicode_word_character(c),
{
    regex_syntax::is_word_character(c)
}

/// Whether `c` is a word character.
pub(crate) fn char_is_word(c: char) -> (b: bool)
    ensures
        b == is_word_char(c),
{
    if char_is_space(c) {
        false
    } else if c <= '\x7f' {
        ('a' <= c && c <= 'z') || ('A' <= c && c <= 'Z') || char_is_digit(c) || c == '_'
    } else {
        unicode_char_is_word(c)
    }
}

/// Where the run of word characters that starts at `from` ends: the first
/// position from `from` on that holds no word character, or the end of `s`.
pub open spec fn word_end(s: Seq<char>, from: int) -> int
    decreases s.len() - from,
{
    if 0 <= from < s.len() && is_word_char(s[from]) {
        word_end(s, from + 1)
    } else {
        from
    }
}

/// Where the run of digits that starts at `from` ends.
pub open spec fn digits_end(s: Seq<char>, from: int) -> int
    decreases s.len() - from,
{
    if 0 <= from < s.len() && is_digit(s[from]) {
        digits_end(s, from + 1)
    } else {
        from
    }
}

/// A run of word characters ends at or after its start, inside the text, and
/// holds word characters only; it is not followed by another one.
pub proof fn lemma_word_end(s: Seq<char>, from: int)
    requires
        0 <= from <= s.len(),
    ensures
        from <= word_end(s, from) <= s.len(),
        forall|k: int| from <= k < word_end(s, from) ==> is_word_char(#[trigger] s[k]),
        word_end(s, from) < s.len() ==> !is_word_char(s[word_end(s, from)]),
    decreases s.len() - from,
{
    if from < s.len() && is_word_char(s[from]) {
        lemma_word_end(s, from + 1);
    }
}

/// A run of digits ends at or after its start, inside the text, and holds
/// digits only; it is not followed by another one.
pub proof fn lemma_digits_end(s: Seq<char>, from: int)
    requires
        0 <= from <= s.len(),
    ensures
        from <= digits_end(s, from) <= s.len(),
        forall|k: int| from <= k < digits_end(s, from) ==> is_digit(#[trigger] s[k]),
        digits_end(s, from) < s.len() ==> !is_digit(s[digits_end(s, from)]),
    decreases s.len() - from,
{
    if from < s.len() && is_digit(s[from]) {
        lemma_digits_end(s, from + 1);
    }
}

/// Finds where the run of word characters that starts at `from` ends.
pub(crate) fn find_word_end(chars: &Vec<char>, from: usize) -> (end: usize)
    requires
        from <= chars.len(),
    ensures
        end == word_end(chars@, from as int),
        from <= end <= chars.len(),
{
    let mut end: usize = from;
    while end < chars.len() && char_is_word(chars[end])
        invariant
            from <= end <= chars.len(),
            word_end(chars@, from as int) == word_end(chars@, end as int),
        decreases chars.len() - end,
    {
        end = end + 1;
    }
    end
}

/// Finds where the run of digits that starts at `from` ends.
pub(crate) fn find_digits_end(chars: &Vec<char>, from: usize) -> (end: usize)
    requires
        from <= chars.len(),
    ensures
        end == digits_end(chars@, from as int),
        from <= end <= chars.len(),
{
    let mut end: usize = from;
    while end < chars.len() && char_is_digit(chars[end])
        invariant
            from <= end <= chars.len(),
            digits_end(chars@, from as int) == digits_end(chars@, end as int),
        decreases chars.len() - end,
    {
        end = end + 1;
    }
    end
}


/// Word characters up to `end`, and none at `end`, make a run that ends at
/// `end`.
pub proof fn lemma_word_run(s: Seq<char>, from: int, end: int)
    requires
        0 <= from <= end <= s.len(),
        forall|k: int| from <= k < end ==> is_word_char(#[trigger] s[k]),
        end < s.len() ==> !is_word_char(s[end]),
    ensures
        word_end(s, from) == end,
    decreases end - from,
{
    if from < end {
        lemma_word_run(s, from + 1, end);
    }
}

/// Digits up to `end`, and none at `end`, make a run that ends at `end`.
pub proof fn lemma_digit_run(s: Seq<char>, from: int, end: int)
    requires
        0 <= from <= end <= s.len(),
        forall|k: int| from <= k < end ==> is_digit(#[trigger] s[k]),
        end < s.len() ==> !is_digit(s[end]),
    ensures
        digits_end(s, from) == end,
    decreases end - from,
{
    if from < end {
        lemma_digit_run(s, from + 1, end);
    }
}

} // verus!
