//! Between the tokens: blanks and the two kinds of comment. And the fixed
//! words of the format.

use vstd::prelude::*;
use vstd::string::*;
use crate::error::{Expected, ParseError};
use crate::radix::ascii_bytes;

verus! {

/// A space, a tab, a line feed or a carriage return.
pub open spec fn is_blank(byte: u8) -> bool {
    byte == ' ' as u8 || byte == '\t' as u8 || byte == '\n' as u8 || byte == '\r' as u8
}

/// Where the line that holds `pos` ends: just past its line feed, or at the
/// end of the text.
pub open spec fn line_end(text: Seq<u8>, pos: int) -> int
    decreases text.len() - pos,
{
    if pos < 0 || pos >= text.len() {
        pos
    } else if text[pos] == '\n' as u8 {
        pos + 1
    } else {
        line_end(text, pos + 1)
    }
}

/// Where a `%` comment ends whose body starts at `pos`: just past the next
/// `%`. Without one the comment has no end.
pub open spec fn comment_end(text: Seq<u8>, pos: int) -> Option<int>
    decreases text.len() - pos,
{
    if pos < 0 || pos >= text.len() {
        None
    } else if text[pos] == '%' as u8 {
        Some(pos + 1)
    } else {
        comment_end(text, pos + 1)
    }
}

/// Whether a line comment starts at `pos`: two hyphens.
pub open spec fn line_comment_at(text: Seq<u8>, pos: int) -> bool {
    0 <= pos && pos + 1 < text.len() && text[pos] == '-' as u8 && text[pos + 1] == '-' as u8
}

/// A line ends at or behind the place asked about, inside the text.
pub proof fn lemma_line_end_bounds(text: Seq<u8>, pos: int)
    requires
        0 <= pos <= text.len(),
    ensures
        pos <= line_end(text, pos) <= text.len(),
    decreases text.len() - pos,
{
    if pos < text.len() && text[pos] != '\n' as u8 {
        lemma_line_end_bounds(text, pos + 1);
    }
}

/// A comment ends behind the place where its body starts, inside the text.
pub proof fn lemma_comment_end_bounds(text: Seq<u8>, pos: int)
    requires
        0 <= pos <= text.len(),
    ensures
        comment_end(text, pos) matches Some(end) ==> pos < end <= text.len(),
    decreases text.len() - pos,
{
    if pos < text.len() && text[pos] != '%' as u8 {
        lemma_comment_end_bounds(text, pos + 1);
    }
}

/// The first position at or after `pos` that is neither a blank nor inside
/// a comment: where the next token starts, or the end of the text. A `%`
/// comment that is never closed is an error at its `%`.
pub open spec fn trivia_end(text: Seq<u8>, pos: int) -> Result<int, ParseError>
    decreases text.len() - pos,
{
    if pos < 0 || pos >= text.len() {
        Ok(pos)
    } else if is_blank(text[pos]) {
        trivia_end(text, pos + 1)
    } else if line_comment_at(text, pos) {
        proof {
            lemma_line_end_bounds(text, pos + 2);
        }
        trivia_end(text, line_end(text, pos + 2))
    } else if text[pos] == '%' as u8 {
        match comment_end(text, pos + 1) {
            Some(end) => {
                proof {
                    lemma_comment_end_bounds(text, pos + 1);
                }
                trivia_end(text, end)
            },
            None => Err(ParseError::UnterminatedComment(pos as usize)),
        }
    } else {
        Ok(pos)
    }
}

/// Skipping blanks and comments goes forward only, and stays inside the text.
pub proof fn lemma_trivia_end_bounds(text: Seq<u8>, pos: int)
    requires
        0 <= pos <= text.len(),
    ensures
        trivia_end(text, pos) matches Ok(end) ==> pos <= end <= text.len(),
    decreases text.len() - pos,
{
    if pos >= text.len() {
    } else if is_blank(text[pos]) {
        lemma_trivia_end_bounds(text, pos + 1);
    } else if line_comment_at(text, pos) {
        lemma_line_end_bounds(text, pos + 2);
        lemma_trivia_end_bounds(text, line_end(text, pos + 2));
    } else if text[pos] == '%' as u8 {
        lemma_comment_end_bounds(text, pos + 1);
        if let Some(end) = comment_end(text, pos + 1) {
            lemma_trivia_end_bounds(text, end);
        }
    }
}

/// Whether the bytes of `word` stand in `text` from `pos` on.
pub open spec fn has_word(text: Seq<u8>, pos: int, word: Seq<u8>) -> bool {
    0 <= pos && pos + word.len() <= text.len() && text.subrange(pos, pos + word.len()) == word
}

/// Skips what may stand before a token, then takes the token: the position
/// just past it, or an error at the place where it should have started.
pub open spec fn token_end(text: Seq<u8>, pos: int, token: Expected) -> Result<int, ParseError> {
    match trivia_end(text, pos) {
        Err(error) => Err(error),
        Ok(start) => if has_word(text, start, token.word()) {
            Ok(start + token.word().len())
        } else {
            Err(ParseError::UnexpectedToken(start as usize, token))
        },
    }
}

/// Whether an exec result with `usize` positions says what a spec result
/// with `int` positions says.
pub open spec fn same_place(found: Result<usize, ParseError>, wanted: Result<int, ParseError>)
    -> bool {
    match found {
        Ok(end) => wanted == Ok::<int, ParseError>(end as int),
        Err(error) => wanted == Err::<int, ParseError>(error),
    }
}

/// A token ends behind the place where it was looked for, inside the text.
pub proof fn lemma_token_end_bounds(text: Seq<u8>, pos: int, token: Expected)
    requires
        0 <= pos <= text.len(),
    ensures
        token_end(text, pos, token) matches Ok(end) ==> pos + token.word().len() <= end
            <= text.len(),
{
    lemma_trivia_end_bounds(text, pos);
}

/// The bytes of a word of the format.
pub fn word_bytes(word: &'static str) -> (bytes: &'static [u8])
    requires
        word.is_ascii(),
    ensures
        bytes@ == ascii_bytes(word@),
{
    broadcast use is_ascii_spec_bytes;

    word.as_bytes()
}

/// Skips blanks and comments, then takes `token`.
pub fn expect(text: &[u8], start: usize, token: Expected) -> (found: Result<usize, ParseError>)
    requires
        start <= text@.len(),
        token != Expected::RadixKeyword,
    ensures
        same_place(found, token_end(text@, start as int, token)),
        found matches Ok(end) ==> start < end <= text@.len(),
{
    let pos = skip_trivia(text, start)?;
    let word = word_bytes(token.describe());
    let length = text.len();
    if starts_with(text, pos, word) {
        assert(pos + word@.len() <= length);
        Ok(pos + word.len())
    } else {
        Err(ParseError::UnexpectedToken(pos, token))
    }
}

/// Whether a byte is a blank.
pub fn blank(byte: u8) -> (yes: bool)
    ensures
        yes == is_blank(byte),
{
    byte == ' ' as u8 || byte == '\t' as u8 || byte == '\n' as u8 || byte == '\r' as u8
}

fn find_line_end(text: &[u8], start: usize) -> (end: usize)
    requires
        start <= text@.len(),
    ensures
        end == line_end(text@, start as int),
        start <= end <= text@.len(),
{
    let mut pos = start;
    while pos < text.len() && text[pos] != '\n' as u8
        invariant
            start <= pos <= text@.len(),
            line_end(text@, start as int) == line_end(text@, pos as int),
        decreases text@.len() - pos,
    {
        pos += 1;
    }
    if pos < text.len() {
        pos + 1
    } else {
        pos
    }
}

fn find_comment_end(text: &[u8], start: usize) -> (end: Option<usize>)
    requires
        start <= text@.len(),
    ensures
        match end {
            Some(end) => comment_end(text@, start as int) == Some(end as int) && start < end
                <= text@.len(),
            None => comment_end(text@, start as int) is None,
        },
{
    let mut pos = start;
    while pos < text.len() && text[pos] != '%' as u8
        invariant
            start <= pos <= text@.len(),
            comment_end(text@, start as int) == comment_end(text@, pos as int),
        decreases text@.len() - pos,
    {
        pos += 1;
    }
    if pos < text.len() {
        Some(pos + 1)
    } else {
        None
    }
}

/// Skips blanks and comments from `start` on.
pub fn skip_trivia(text: &[u8], start: usize) -> (found: Result<usize, ParseError>)
    requires
        start <= text@.len(),
    ensures
        same_place(found, trivia_end(text@, start as int)),
        found matches Ok(end) ==> start <= end <= text@.len(),
{
    let mut pos = start;
    loop
        invariant
            start <= pos <= text@.len(),
            trivia_end(text@, start as int) == trivia_end(text@, pos as int),
        decreases text@.len() - pos,
    {
        if pos >= text.len() {
            return Ok(pos);
        }
        let byte = text[pos];
        if blank(byte) {
            pos += 1;
        } else if byte == '-' as u8 && pos + 1 < text.len() && text[pos + 1] == '-' as u8 {
            pos = find_line_end(text, pos + 2);
        } else if byte == '%' as u8 {
            match find_comment_end(text, pos + 1) {
                Some(end) => {
                    pos = end;
                },
                None => {
                    return Err(ParseError::UnterminatedComment(pos));
                },
            }
        } else {
            return Ok(pos);
        }
    }
}

/// Whether `word` stands in `text` from `pos` on.
pub fn starts_with(text: &[u8], pos: usize, word: &[u8]) -> (yes: bool)
    requires
        pos <= text@.len(),
    ensures
        yes == has_word(text@, pos as int, word@),
{
    if word.len() > text.len() - pos {
        return false;
    }
    let length = text.len();
    let mut i: usize = 0;
    while i < word.len()
        invariant
            length == text@.len(),
            pos + word@.len() <= text@.len(),
            i <= word@.len(),
            text@.subrange(pos as int, pos + i) == word@.subrange(0, i as int),
        decreases word@.len() - i,
    {
        if text[pos + i] != word[i] {
            proof {
                let whole = text@.subrange(pos as int, pos + word@.len());
                assert(whole[i as int] == text@[pos + i]);
            }
            return false;
        }
        proof {
            assert(text@.subrange(pos as int, pos + i + 1) =~= text@.subrange(
                pos as int,
                pos + i,
            ).push(text@[pos + i]));
            assert(word@.subrange(0, i + 1) =~= word@.subrange(0, i as int).push(word@[i as int]));
        }
        i += 1;
    }
    assert(word@.subrange(0, i as int) =~= word@);
    true
}

} // verus!
