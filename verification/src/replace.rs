//! A literal in the text counts by its low bits: another literal with the
//! same low bits in its place gives the same memory.

use vstd::prelude::*;
use vstd::arithmetic::power2::pow2;
use crate::bits::low_mask;
use crate::buffer::Memory;
use crate::content::{
    address_at, address_number_at, content_end, end_word, lemma_address_at_bounds,
    lemma_address_number_at_bounds, lemma_statement_at_bounds, lemma_values_end_bounds,
    open_bracket, range_at, statement_at, values_end, AddressSpec, Statement,
};
use crate::decoder::{decode_text, lemma_header_holds};
use crate::error::{Expected, ParseError};
use crate::header::{
    field_at, header_end, lemma_setting_at_bounds, setting_at, Header, HeaderDraft,
};
use crate::lexer::{
    comment_end, has_word, is_blank, lemma_comment_end_bounds, lemma_line_end_bounds,
    lemma_token_end_bounds, lemma_trivia_end_bounds, line_comment_at, line_end, token_end,
    trivia_end,
};
use crate::masking::lemma_masked_literal;
use crate::numeral::{digits_end, lemma_digits_end_bounds, number_at, numeral_value, word_of};
use crate::order::{
    lemma_window_field_at, lemma_window_number_at, lemma_window_setting_at,
    lemma_window_token_end, lemma_window_trivia_end, lemma_window_word, window,
};
use crate::radix::Radix;
use crate::reading::{all_digits, lemma_digit_run, lemma_no_trivia, lemma_word_byte, solid};

verus! {

/// Whether two rows of literals leave the same in cells of `width` bits:
/// they are as many, and each pair has the same low bits.
pub open spec fn alike(first: Seq<usize>, second: Seq<usize>, width: usize) -> bool {
    &&& first.len() == second.len()
    &&& forall|i: int|
        0 <= i < first.len() ==> (#[trigger] first[i]) & low_mask(width) == second[i] & low_mask(
            width,
        )
}

/// Statements with one address and literals that are alike do the same to
/// a memory.
pub proof fn lemma_alike_assigned(
    memory: Memory,
    address: AddressSpec,
    first: Seq<usize>,
    second: Seq<usize>,
)
    requires
        alike(first, second, memory.width as usize),
    ensures
        memory.assigned(Statement { address, values: first }) == memory.assigned(
            Statement { address, values: second },
        ),
{
    let one = Statement { address, values: first };
    let other = Statement { address, values: second };
    assert forall|at: int| 0 <= at < memory.cells.len() implies memory.assigned(one).cells[at]
        == memory.assigned(other).cells[at] by {
        if one.literal_for(at) is Some {
            let i = match address {
                AddressSpec::Single(from) => at - from,
                AddressSpec::Range(from, to) => (at - from) % (first.len() as int),
            };
            match address {
                AddressSpec::Single(from) => {},
                AddressSpec::Range(from, to) => {
                    vstd::arithmetic::div_mod::lemma_mod_bound(at - from, first.len() as int);
                },
            }
            assert(one.literal_for(at) == Some(first[i]));
            assert(other.literal_for(at) == Some(second[i]));
        }
    }
    assert(memory.assigned(one).cells =~= memory.assigned(other).cells);
}

/// An address that ends inside a window is read alike wherever the window
/// stands.
pub proof fn lemma_window_address_number_at(
    first: Seq<u8>,
    at: int,
    second: Seq<u8>,
    to: int,
    length: int,
    pos: int,
    radix: Radix,
)
    requires
        window(first, at, second, to, length),
        at <= pos,
        address_number_at(first, pos, radix) matches Ok((_, end)) && end < at + length,
    ensures
        address_number_at(second, pos + to - at, radix) == Ok::<(usize, int), ParseError>(
            (
                address_number_at(first, pos, radix).unwrap().0,
                address_number_at(first, pos, radix).unwrap().1 + to - at,
            ),
        ),
        radix.is_digit(first[pos]),
{
    lemma_window_number_at(first, at, second, to, length, pos, radix);
}

/// A range that ends inside a window is read alike wherever the window
/// stands.
pub proof fn lemma_window_range_at(
    first: Seq<u8>,
    at: int,
    second: Seq<u8>,
    to: int,
    length: int,
    pos: int,
    radix: Radix,
)
    requires
        window(first, at, second, to, length),
        at <= pos,
        range_at(first, pos, radix) matches Ok((_, end)) && end <= at + length,
    ensures
        range_at(second, pos + to - at, radix) == Ok::<(AddressSpec, int), ParseError>(
            (
                range_at(first, pos, radix).unwrap().0,
                range_at(first, pos, radix).unwrap().1 + to - at,
            ),
        ),
{
    lemma_trivia_end_bounds(first, pos);
    let start = trivia_end(first, pos).unwrap();
    lemma_address_number_at_bounds(first, start, radix);
    let after_from = address_number_at(first, start, radix).unwrap().1;
    lemma_token_end_bounds(first, after_from, Expected::RangeDots);
    let after_dots = token_end(first, after_from, Expected::RangeDots).unwrap();
    lemma_trivia_end_bounds(first, after_dots);
    let other = trivia_end(first, after_dots).unwrap();
    lemma_address_number_at_bounds(first, other, radix);
    let after_to = address_number_at(first, other, radix).unwrap().1;
    lemma_token_end_bounds(first, after_to, Expected::CloseBracket);
    lemma_window_address_number_at(first, at, second, to, length, start, radix);
    lemma_window_trivia_end(first, at, second, to, length, pos);
    lemma_window_token_end(first, at, second, to, length, after_from, Expected::RangeDots);
    lemma_window_address_number_at(first, at, second, to, length, other, radix);
    lemma_window_trivia_end(first, at, second, to, length, after_dots);
    lemma_window_token_end(first, at, second, to, length, after_to, Expected::CloseBracket);
}

/// The address part of an assignment that ends inside a window is read
/// alike wherever the window stands.
pub proof fn lemma_window_address_at(
    first: Seq<u8>,
    at: int,
    second: Seq<u8>,
    to: int,
    length: int,
    pos: int,
    radix: Radix,
)
    requires
        window(first, at, second, to, length),
        at <= pos,
        address_at(first, pos, radix) matches Ok((_, end)) && end < at + length,
    ensures
        address_at(second, pos + to - at, radix) == Ok::<(AddressSpec, int), ParseError>(
            (
                address_at(first, pos, radix).unwrap().0,
                address_at(first, pos, radix).unwrap().1 + to - at,
            ),
        ),
        first[pos] != '-' as u8,
{
    lemma_address_at_bounds(first, pos, radix);
    lemma_window_word(first, at, second, to, length, pos, open_bracket());
    if has_word(first, pos, open_bracket()) {
        lemma_word_byte(first, pos, open_bracket(), 0);
        lemma_window_range_at(first, at, second, to, length, pos + 1, radix);
    } else {
        lemma_window_address_number_at(first, at, second, to, length, pos, radix);
    }
}

/// The values of an assignment that end inside a window are read alike
/// wherever the window stands, and stay alike where the values before them
/// were alike.
pub proof fn lemma_window_values_end(
    first: Seq<u8>,
    at: int,
    second: Seq<u8>,
    to: int,
    length: int,
    pos: int,
    radix: Radix,
    values: Seq<usize>,
    others: Seq<usize>,
    width: usize,
)
    requires
        window(first, at, second, to, length),
        at <= pos <= first.len(),
        values_end(first, pos, radix, values) matches Ok((_, end)) && end <= at + length,
        alike(values, others, width),
    ensures
        values_end(second, pos + to - at, radix, others) matches Ok((found, end)) && end
            == values_end(first, pos, radix, values).unwrap().1 + to - at && alike(
            values_end(first, pos, radix, values).unwrap().0,
            found,
            width,
        ),
    decreases first.len() - pos,
{
    lemma_trivia_end_bounds(first, pos);
    let start = trivia_end(first, pos).unwrap();
    if has_word(first, start, Expected::Semicolon.word()) {
        lemma_word_byte(first, start, Expected::Semicolon.word(), 0);
        lemma_window_trivia_end(first, at, second, to, length, pos);
        lemma_window_word(first, at, second, to, length, start, Expected::Semicolon.word());
    } else {
        lemma_digits_end_bounds(first, start, radix);
        let (number, end) = number_at(first, start, radix).unwrap();
        lemma_values_end_bounds(first, end, radix, values.push(word_of(number)));
        lemma_window_number_at(first, at, second, to, length, start, radix);
        lemma_window_trivia_end(first, at, second, to, length, pos);
        lemma_window_word(first, at, second, to, length, start, Expected::Semicolon.word());
        assert(alike(values.push(word_of(number)), others.push(word_of(number)), width));
        lemma_window_values_end(
            first,
            at,
            second,
            to,
            length,
            end,
            radix,
            values.push(word_of(number)),
            others.push(word_of(number)),
            width,
        );
    }
}

/// An assignment that ends inside a window is read alike wherever the
/// window stands.
pub proof fn lemma_window_statement_at(
    first: Seq<u8>,
    at: int,
    second: Seq<u8>,
    to: int,
    length: int,
    pos: int,
    header: Header,
)
    requires
        window(first, at, second, to, length),
        at <= pos,
        statement_at(first, pos, header) matches Ok((_, end)) && end <= at + length,
    ensures
        statement_at(second, pos + to - at, header) == Ok::<(Statement, int), ParseError>(
            (
                statement_at(first, pos, header).unwrap().0,
                statement_at(first, pos, header).unwrap().1 + to - at,
            ),
        ),
        first[pos] != '-' as u8,
{
    lemma_address_at_bounds(first, pos, header.address_radix);
    let after_address = address_at(first, pos, header.address_radix).unwrap().1;
    lemma_token_end_bounds(first, after_address, Expected::Colon);
    let after_colon = token_end(first, after_address, Expected::Colon).unwrap();
    lemma_values_end_bounds(first, after_colon, header.data_radix, Seq::empty());
    lemma_window_address_at(first, at, second, to, length, pos, header.address_radix);
    lemma_window_token_end(first, at, second, to, length, after_address, Expected::Colon);
    lemma_window_same_values(
        first,
        at,
        second,
        to,
        length,
        after_colon,
        header.data_radix,
        Seq::empty(),
    );
}

/// The values of an assignment that end inside a window are the same
/// wherever the window stands.
pub proof fn lemma_window_same_values(
    first: Seq<u8>,
    at: int,
    second: Seq<u8>,
    to: int,
    length: int,
    pos: int,
    radix: Radix,
    values: Seq<usize>,
)
    requires
        window(first, at, second, to, length),
        at <= pos <= first.len(),
        values_end(first, pos, radix, values) matches Ok((_, end)) && end <= at + length,
    ensures
        values_end(second, pos + to - at, radix, values) == Ok::<(Seq<usize>, int), ParseError>(
            (
                values_end(first, pos, radix, values).unwrap().0,
                values_end(first, pos, radix, values).unwrap().1 + to - at,
            ),
        ),
    decreases first.len() - pos,
{
    lemma_trivia_end_bounds(first, pos);
    let start = trivia_end(first, pos).unwrap();
    if has_word(first, start, Expected::Semicolon.word()) {
        lemma_word_byte(first, start, Expected::Semicolon.word(), 0);
        lemma_window_trivia_end(first, at, second, to, length, pos);
        lemma_window_word(first, at, second, to, length, start, Expected::Semicolon.word());
    } else {
        lemma_digits_end_bounds(first, start, radix);
        let (number, end) = number_at(first, start, radix).unwrap();
        lemma_values_end_bounds(first, end, radix, values.push(word_of(number)));
        lemma_window_number_at(first, at, second, to, length, start, radix);
        lemma_window_trivia_end(first, at, second, to, length, pos);
        lemma_window_word(first, at, second, to, length, start, Expected::Semicolon.word());
        lemma_window_same_values(
            first,
            at,
            second,
            to,
            length,
            end,
            radix,
            values.push(word_of(number)),
        );
    }
}

/// The word that closes the content block stands at a place of one text
/// where it stands at that place of the other, if the texts are the same to
/// their ends.
proof fn lemma_window_end_word(
    first: Seq<u8>,
    at: int,
    second: Seq<u8>,
    to: int,
    length: int,
    pos: int,
)
    requires
        window(first, at, second, to, length),
        at + length == first.len(),
        to + length == second.len(),
        at <= pos <= first.len(),
    ensures
        has_word(first, pos, end_word()) == has_word(second, pos + to - at, end_word()),
{
    if pos + 3 <= first.len() {
        lemma_window_word(first, at, second, to, length, pos, end_word());
    }
}

/// The end of a content block is read alike wherever the text from its
/// start on stands.
proof fn lemma_window_closing(
    first: Seq<u8>,
    at: int,
    second: Seq<u8>,
    to: int,
    length: int,
    pos: int,
)
    requires
        window(first, at, second, to, length),
        at + length == first.len(),
        to + length == second.len(),
        at <= pos <= first.len(),
        trivia_end(first, pos) matches Ok(start) && has_word(first, start, end_word())
            && token_end(first, start + 3, Expected::Semicolon) is Ok,
    ensures
        trivia_end(second, pos + to - at) == Ok::<int, ParseError>(
            trivia_end(first, pos).unwrap() + to - at,
        ),
        has_word(second, trivia_end(first, pos).unwrap() + to - at, end_word()),
        token_end(second, trivia_end(first, pos).unwrap() + to - at + 3, Expected::Semicolon)
            is Ok,
{
    lemma_trivia_end_bounds(first, pos);
    let start = trivia_end(first, pos).unwrap();
    lemma_window_end_word(first, at, second, to, length, start);
    lemma_word_byte(first, start, end_word(), 0);
    lemma_window_trivia_end(first, at, second, to, length, pos);
    lemma_token_end_bounds(first, start + 3, Expected::Semicolon);
    lemma_window_token_end(first, at, second, to, length, start + 3, Expected::Semicolon);
}

/// An assignment of a content block is read alike wherever the text from
/// its start on stands.
proof fn lemma_window_step(
    first: Seq<u8>,
    at: int,
    second: Seq<u8>,
    to: int,
    length: int,
    pos: int,
    header: Header,
)
    requires
        window(first, at, second, to, length),
        at + length == first.len(),
        to + length == second.len(),
        at <= pos <= first.len(),
        trivia_end(first, pos) matches Ok(start) && !has_word(first, start, end_word())
            && statement_at(first, start, header) is Ok,
    ensures
        trivia_end(second, pos + to - at) == Ok::<int, ParseError>(
            trivia_end(first, pos).unwrap() + to - at,
        ),
        !has_word(second, trivia_end(first, pos).unwrap() + to - at, end_word()),
        statement_at(second, trivia_end(first, pos).unwrap() + to - at, header) == Ok::<
            (Statement, int),
            ParseError,
        >(
            (
                statement_at(first, trivia_end(first, pos).unwrap(), header).unwrap().0,
                statement_at(first, trivia_end(first, pos).unwrap(), header).unwrap().1 + to
                    - at,
            ),
        ),
{
    lemma_trivia_end_bounds(first, pos);
    let start = trivia_end(first, pos).unwrap();
    lemma_window_end_word(first, at, second, to, length, start);
    lemma_statement_at_bounds(first, start, header);
    lemma_window_statement_at(first, at, second, to, length, start, header);
    lemma_window_trivia_end(first, at, second, to, length, pos);
}

/// A content block that reaches to the end of a text is read alike
/// wherever the text from its start on stands.
#[verifier::rlimit(30)]
pub proof fn lemma_window_content_end(
    first: Seq<u8>,
    at: int,
    second: Seq<u8>,
    to: int,
    length: int,
    pos: int,
    header: Header,
    memory: Memory,
)
    requires
        window(first, at, second, to, length),
        at + length == first.len(),
        to + length == second.len(),
        at <= pos <= first.len(),
        content_end(first, pos, header, memory) is Ok,
    ensures
        content_end(second, pos + to - at, header, memory) == content_end(
            first,
            pos,
            header,
            memory,
        ),
    decreases first.len() - pos,
{
    lemma_trivia_end_bounds(first, pos);
    let start = trivia_end(first, pos).unwrap();
    if has_word(first, start, end_word()) {
        lemma_window_closing(first, at, second, to, length, pos);
    } else {
        lemma_statement_at_bounds(first, start, header);
        let (statement, end) = statement_at(first, start, header).unwrap();
        lemma_window_step(first, at, second, to, length, pos, header);
        assert(statement.fits(header.depth as nat));
        let next = memory.assigned(statement);
        assert(content_end(first, pos, header, memory) == content_end(first, end, header, next));
        lemma_window_content_end(first, at, second, to, length, end, header, next);
        assert(content_end(second, pos + to - at, header, memory) == content_end(
            second,
            end + to - at,
            header,
            next,
        ));
    }
}

/// Whether the reader, reading the values of an assignment from `pos` on,
/// reads a literal that starts at `place`.
pub open spec fn values_read_at(text: Seq<u8>, pos: int, radix: Radix, place: int) -> bool
    decreases text.len() - pos,
    when 0 <= pos <= text.len()
{
    match trivia_end(text, pos) {
        Err(_) => false,
        Ok(start) => if has_word(text, start, Expected::Semicolon.word()) {
            false
        } else {
            match number_at(text, start, radix) {
                None => false,
                Some((_, end)) => {
                    proof {
                        lemma_trivia_end_bounds(text, pos);
                        lemma_digits_end_bounds(text, start, radix);
                    }
                    start == place || values_read_at(text, end, radix, place)
                },
            }
        },
    }
}

/// Whether the reader, reading the assignment at `pos`, reads a value
/// literal that starts at `place`.
pub open spec fn statement_reads_at(text: Seq<u8>, pos: int, header: Header, place: int) -> bool {
    match address_at(text, pos, header.address_radix) {
        Err(_) => false,
        Ok((_, after_address)) => match token_end(text, after_address, Expected::Colon) {
            Err(_) => false,
            Ok(after_colon) => values_read_at(text, after_colon, header.data_radix, place),
        },
    }
}

/// Whether the reader, reading the content block from `pos` on, reads a
/// value literal that starts at `place`.
pub open spec fn content_reads_at(text: Seq<u8>, pos: int, header: Header, place: int) -> bool
    decreases text.len() - pos,
    when 0 <= pos <= text.len()
{
    match trivia_end(text, pos) {
        Err(_) => false,
        Ok(start) => if has_word(text, start, end_word()) {
            false
        } else {
            match statement_at(text, start, header) {
                Err(_) => false,
                Ok((statement, end)) => {
                    proof {
                        lemma_trivia_end_bounds(text, pos);
                        lemma_statement_at_bounds(text, start, header);
                    }
                    statement_reads_at(text, start, header, place) || (statement.fits(
                        header.depth as nat,
                    ) && content_reads_at(text, end, header, place))
                },
            }
        },
    }
}

/// The header that a text gives and the place where its content block
/// starts, just behind `BEGIN`.
pub open spec fn content_start(text: Seq<u8>) -> Option<(Header, int)> {
    match header_end(text, 0, HeaderDraft::empty()) {
        Err(_) => None,
        Ok((draft, after_header)) => match draft.complete() {
            Err(_) => None,
            Ok(header) => match token_end(text, after_header, Expected::Content) {
                Err(_) => None,
                Ok(after_content) => match token_end(text, after_content, Expected::Begin) {
                    Err(_) => None,
                    Ok(after_begin) => Some((header, after_begin)),
                },
            },
        },
    }
}

/// Whether the reader, reading a whole text, reads a value literal that
/// starts at `place`.
pub open spec fn reads_value_at(text: Seq<u8>, place: int) -> bool {
    content_start(text) matches Some((header, start)) && content_reads_at(
        text,
        start,
        header,
        place,
    )
}

/// Whether two texts are the same but for one number: at `place` the first
/// has a number of `old` digits and the second one of `new` digits, and what
/// the two numbers leave in a cell of `width` bits is the same.
#[verifier::opaque]
pub open spec fn swapped(
    first: Seq<u8>,
    second: Seq<u8>,
    place: int,
    old: int,
    new: int,
    radix: Radix,
    width: usize,
) -> bool {
    &&& 0 < old
    &&& 0 < new
    &&& 0 <= place
    &&& place + old <= first.len()
    &&& second.len() == first.len() - old + new
    &&& window(first, 0, second, 0, place)
    &&& window(first, place + old, second, place + new, first.len() - place - old)
    &&& number_at(first, place, radix) matches Some((number, end)) && end == place + old
    &&& number_at(second, place, radix) matches Some((number, end)) && end == place + new
    &&& word_of(number_at(first, place, radix).unwrap().0) & low_mask(width) == word_of(
        number_at(second, place, radix).unwrap().0,
    ) & low_mask(width)
}

/// A run of digits stops before a byte that is no digit.
proof fn lemma_digits_end_stops(text: Seq<u8>, pos: int, radix: Radix)
    requires
        0 <= pos <= text.len(),
    ensures
        digits_end(text, pos, radix) < text.len() ==> !radix.is_digit(
            text[digits_end(text, pos, radix)],
        ),
        digits_end(text, pos, radix) > pos ==> radix.is_digit(text[pos]),
    decreases text.len() - pos,
{
    if pos < text.len() && radix.is_digit(text[pos]) {
        lemma_digits_end_stops(text, pos + 1, radix);
    }
}

/// Where blanks and comments have been skipped there is nothing more to
/// skip.
proof fn lemma_trivia_settles(text: Seq<u8>, pos: int)
    requires
        0 <= pos <= text.len(),
        trivia_end(text, pos) is Ok,
    ensures
        trivia_end(text, trivia_end(text, pos).unwrap()) == trivia_end(text, pos),
    decreases text.len() - pos,
{
    if pos >= text.len() {
    } else if is_blank(text[pos]) {
        lemma_trivia_settles(text, pos + 1);
    } else if line_comment_at(text, pos) {
        lemma_line_end_bounds(text, pos + 2);
        lemma_trivia_settles(text, line_end(text, pos + 2));
    } else if text[pos] == '%' as u8 {
        lemma_comment_end_bounds(text, pos + 1);
        lemma_trivia_settles(text, comment_end(text, pos + 1).unwrap());
    }
}

/// A digit is a byte at which a token can start.
proof fn lemma_digit_is_solid(byte: u8, radix: Radix)
    requires
        radix.is_digit(byte),
    ensures
        solid(byte),
        byte != ';' as u8,
        byte != 'N' as u8,
{
}

/// A line that ends at or before the place where two texts part ends alike
/// in both.
proof fn lemma_line_end_to_edge(first: Seq<u8>, second: Seq<u8>, place: int, pos: int)
    requires
        window(first, 0, second, 0, place),
        place < first.len(),
        0 <= pos <= place,
        line_end(first, pos) <= place,
    ensures
        line_end(second, pos) == line_end(first, pos),
    decreases first.len() - pos,
{
    lemma_line_end_bounds(first, pos);
    if pos == place {
        if first[pos] != '\n' as u8 {
            lemma_line_end_bounds(first, pos + 1);
        }
    } else {
        assert(first[pos] == second[pos - 0 + 0]);
        if first[pos] != '\n' as u8 {
            lemma_line_end_to_edge(first, second, place, pos + 1);
        }
    }
}

/// Blanks and comments that end just where two texts part, before a digit
/// in each, are skipped alike in both.
proof fn lemma_trivia_to_edge(first: Seq<u8>, second: Seq<u8>, place: int, pos: int)
    requires
        window(first, 0, second, 0, place),
        place < first.len(),
        place < second.len(),
        solid(first[place]),
        solid(second[place]),
        0 <= pos <= place,
        trivia_end(first, pos) == Ok::<int, ParseError>(place),
    ensures
        trivia_end(second, pos) == Ok::<int, ParseError>(place),
    decreases first.len() - pos,
{
    if pos == place {
        lemma_no_trivia(second, place);
    } else {
        assert(first[pos] == second[pos - 0 + 0]);
        if is_blank(first[pos]) {
            lemma_trivia_to_edge(first, second, place, pos + 1);
        } else if line_comment_at(first, pos) {
            assert(pos + 1 < place);
            assert(first[pos + 1] == second[pos + 1 - 0 + 0]);
            let end = line_end(first, pos + 2);
            lemma_line_end_bounds(first, pos + 2);
            lemma_trivia_end_bounds(first, end);
            lemma_line_end_to_edge(first, second, place, pos + 2);
            lemma_trivia_to_edge(first, second, place, end);
        } else if first[pos] == '%' as u8 {
            lemma_comment_end_bounds(first, pos + 1);
            let end = comment_end(first, pos + 1).unwrap();
            lemma_trivia_end_bounds(first, end);
            crate::order::lemma_window_comment_end(first, 0, second, 0, place, pos + 1);
            lemma_trivia_to_edge(first, second, place, end);
        }
    }
}

/// The values that are read on the way to a literal start at or before the
/// literal.
proof fn lemma_values_read_bound(text: Seq<u8>, pos: int, radix: Radix, place: int)
    requires
        0 <= pos <= text.len(),
        values_read_at(text, pos, radix, place),
    ensures
        pos <= place,
    decreases text.len() - pos,
{
    lemma_trivia_end_bounds(text, pos);
    let start = trivia_end(text, pos).unwrap();
    if start != place {
        lemma_digits_end_bounds(text, start, radix);
        let end = number_at(text, start, radix).unwrap().1;
        lemma_values_read_bound(text, end, radix, place);
    }
}

/// The values of an assignment in which one number is swapped for another
/// that leaves the same in a cell are read alike.
proof fn lemma_values_replaced(
    first: Seq<u8>,
    second: Seq<u8>,
    place: int,
    old: int,
    new: int,
    pos: int,
    radix: Radix,
    values: Seq<usize>,
    others: Seq<usize>,
    width: usize,
)
    requires
        swapped(first, second, place, old, new, radix, width),
        0 <= pos <= first.len(),
        values_read_at(first, pos, radix, place),
        values_end(first, pos, radix, values) is Ok,
        alike(values, others, width),
    ensures
        values_end(second, pos, radix, others) matches Ok((found, end)) && end == values_end(
            first,
            pos,
            radix,
            values,
        ).unwrap().1 + new - old && alike(
            values_end(first, pos, radix, values).unwrap().0,
            found,
            width,
        ),
        values_end(first, pos, radix, values).unwrap().1 > place + old,
    decreases first.len() - pos,
{
    reveal(swapped);
    lemma_trivia_end_bounds(first, pos);
    lemma_values_read_bound(first, pos, radix, place);
    let start = trivia_end(first, pos).unwrap();
    lemma_digits_end_bounds(first, start, radix);
    lemma_digits_end_stops(first, start, radix);
    lemma_digits_end_stops(first, place, radix);
    lemma_digits_end_stops(second, place, radix);
    lemma_digit_is_solid(first[place], radix);
    lemma_digit_is_solid(second[place], radix);
    let (number, end) = number_at(first, start, radix).unwrap();
    if start == place {
        let other = number_at(second, place, radix).unwrap().0;
        lemma_trivia_to_edge(first, second, place, pos);
        assert(!has_word(second, place, Expected::Semicolon.word())) by {
            if has_word(second, place, Expected::Semicolon.word()) {
                lemma_word_byte(second, place, Expected::Semicolon.word(), 0);
            }
        }
        assert(alike(values.push(word_of(number)), others.push(word_of(other)), width));
        lemma_values_end_bounds(first, place + old, radix, values.push(word_of(number)));
        lemma_window_values_end(
            first,
            place + old,
            second,
            place + new,
            first.len() - place - old,
            place + old,
            radix,
            values.push(word_of(number)),
            others.push(word_of(other)),
            width,
        );
    } else {
        lemma_values_read_bound(first, end, radix, place);
        assert(end < place);
        lemma_digit_is_solid(first[start], radix);
        lemma_window_trivia_end(first, 0, second, 0, place, pos);
        lemma_window_number_at(first, 0, second, 0, place, start, radix);
        lemma_window_word(first, 0, second, 0, place, start, Expected::Semicolon.word());
        assert(alike(values.push(word_of(number)), others.push(word_of(number)), width));
        lemma_values_replaced(
            first,
            second,
            place,
            old,
            new,
            end,
            radix,
            values.push(word_of(number)),
            others.push(word_of(number)),
            width,
        );
    }
}

/// An assignment in which one number is swapped for another that leaves
/// the same in a cell is read as an assignment to the same addresses, of
/// values that are alike.
#[verifier::rlimit(30)]
proof fn lemma_statement_replaced(
    first: Seq<u8>,
    second: Seq<u8>,
    place: int,
    old: int,
    new: int,
    pos: int,
    header: Header,
    width: usize,
)
    requires
        swapped(first, second, place, old, new, header.data_radix, width),
        0 <= pos <= first.len(),
        statement_reads_at(first, pos, header, place),
        statement_at(first, pos, header) is Ok,
    ensures
        statement_at(second, pos, header) matches Ok((found, end)) && end == statement_at(
            first,
            pos,
            header,
        ).unwrap().1 + new - old && found.address == statement_at(
            first,
            pos,
            header,
        ).unwrap().0.address && alike(
            statement_at(first, pos, header).unwrap().0.values,
            found.values,
            width,
        ),
        statement_at(first, pos, header).unwrap().1 > place + old,
        pos + 1 < place,
{
    reveal(swapped);
    lemma_address_at_bounds(first, pos, header.address_radix);
    let after_address = address_at(first, pos, header.address_radix).unwrap().1;
    lemma_token_end_bounds(first, after_address, Expected::Colon);
    let after_colon = token_end(first, after_address, Expected::Colon).unwrap();
    lemma_values_read_bound(first, after_colon, header.data_radix, place);
    lemma_window_address_at(first, 0, second, 0, place, pos, header.address_radix);
    lemma_window_token_end(first, 0, second, 0, place, after_address, Expected::Colon);
    assert(alike(Seq::<usize>::empty(), Seq::<usize>::empty(), width));
    lemma_values_replaced(
        first,
        second,
        place,
        old,
        new,
        after_colon,
        header.data_radix,
        Seq::empty(),
        Seq::empty(),
        width,
    );
}

/// An assignment does not start with the first two letters of the word that
/// closes the content block.
proof fn lemma_not_end(text: Seq<u8>, pos: int, header: Header)
    requires
        0 <= pos <= text.len(),
        statement_at(text, pos, header) is Ok,
    ensures
        pos + 1 < text.len(),
        !(text[pos] == 'E' as u8 && text[pos + 1] == 'N' as u8),
        text[pos] != '-' as u8,
{
    let radix = header.address_radix;
    lemma_address_at_bounds(text, pos, radix);
    let after_address = address_at(text, pos, radix).unwrap().1;
    lemma_token_end_bounds(text, after_address, Expected::Colon);
    if has_word(text, pos, open_bracket()) {
        lemma_word_byte(text, pos, open_bracket(), 0);
    } else {
        lemma_digits_end_stops(text, pos, radix);
        if text[pos + 1] == 'N' as u8 {
            if after_address > pos + 1 {
                lemma_digits_end_stops(text, pos + 1, radix);
            } else {
                lemma_no_trivia(text, pos + 1);
                lemma_word_byte(text, pos + 1, Expected::Colon.word(), 0);
            }
        }
    }
}

/// The assignments that are read on the way to a literal start before the
/// literal.
proof fn lemma_content_read_bound(text: Seq<u8>, pos: int, header: Header, place: int)
    requires
        0 <= pos <= text.len(),
        content_reads_at(text, pos, header, place),
    ensures
        pos < place,
    decreases text.len() - pos,
{
    lemma_trivia_end_bounds(text, pos);
    let start = trivia_end(text, pos).unwrap();
    lemma_statement_at_bounds(text, start, header);
    let end = statement_at(text, start, header).unwrap().1;
    if statement_reads_at(text, start, header, place) {
        lemma_address_at_bounds(text, start, header.address_radix);
        let after_address = address_at(text, start, header.address_radix).unwrap().1;
        lemma_token_end_bounds(text, after_address, Expected::Colon);
        let after_colon = token_end(text, after_address, Expected::Colon).unwrap();
        lemma_values_read_bound(text, after_colon, header.data_radix, place);
    } else {
        lemma_content_read_bound(text, end, header, place);
    }
}

/// An assignment that holds the swapped number is read, in the second
/// text, as an assignment to the same addresses of values that are alike.
proof fn lemma_step_with_number(
    first: Seq<u8>,
    second: Seq<u8>,
    place: int,
    old: int,
    new: int,
    pos: int,
    header: Header,
    width: usize,
)
    requires
        swapped(first, second, place, old, new, header.data_radix, width),
        0 <= pos <= first.len(),
        trivia_end(first, pos) matches Ok(start) && statement_at(first, start, header) is Ok
            && statement_reads_at(first, start, header, place),
    ensures
        trivia_end(second, pos) == trivia_end(first, pos),
        !has_word(second, trivia_end(first, pos).unwrap(), end_word()),
        statement_at(second, trivia_end(first, pos).unwrap(), header) matches Ok((found, end))
            && end == statement_at(first, trivia_end(first, pos).unwrap(), header).unwrap().1
            + new - old && found.address == statement_at(
            first,
            trivia_end(first, pos).unwrap(),
            header,
        ).unwrap().0.address && alike(
            statement_at(first, trivia_end(first, pos).unwrap(), header).unwrap().0.values,
            found.values,
            width,
        ),
        statement_at(first, trivia_end(first, pos).unwrap(), header).unwrap().1 > place + old,
{
    reveal(swapped);
    lemma_trivia_end_bounds(first, pos);
    let start = trivia_end(first, pos).unwrap();
    lemma_not_end(first, start, header);
    lemma_statement_replaced(first, second, place, old, new, start, header, width);
    lemma_window_trivia_end(first, 0, second, 0, place, pos);
    if has_word(second, start, end_word()) {
        lemma_word_byte(second, start, end_word(), 0);
        lemma_word_byte(second, start, end_word(), 1);
        assert(first[start] == second[start - 0 + 0]);
        assert(first[start + 1] == second[start + 1 - 0 + 0]);
    }
}

/// An assignment that ends before the swapped number is read alike in both
/// texts.
#[verifier::rlimit(30)]
proof fn lemma_step_before_number(
    first: Seq<u8>,
    second: Seq<u8>,
    place: int,
    pos: int,
    header: Header,
)
    requires
        window(first, 0, second, 0, place),
        0 <= pos <= first.len(),
        trivia_end(first, pos) matches Ok(start) && (statement_at(first, start, header)
            matches Ok((_, end)) && end < place),
    ensures
        trivia_end(second, pos) == trivia_end(first, pos),
        !has_word(second, trivia_end(first, pos).unwrap(), end_word()),
        statement_at(second, trivia_end(first, pos).unwrap(), header) == statement_at(
            first,
            trivia_end(first, pos).unwrap(),
            header,
        ),
{
    lemma_trivia_end_bounds(first, pos);
    let start = trivia_end(first, pos).unwrap();
    lemma_statement_at_bounds(first, start, header);
    lemma_not_end(first, start, header);
    lemma_window_statement_at(first, 0, second, 0, place, start, header);
    lemma_window_trivia_end(first, 0, second, 0, place, pos);
    if has_word(second, start, end_word()) {
        lemma_word_byte(second, start, end_word(), 0);
        lemma_word_byte(second, start, end_word(), 1);
        assert(first[start] == second[start - 0 + 0]);
        assert(first[start + 1] == second[start + 1 - 0 + 0]);
    }
}

/// What is behind the swapped number is the same in both texts, to their
/// ends.
proof fn lemma_swapped_rest(
    first: Seq<u8>,
    second: Seq<u8>,
    place: int,
    old: int,
    new: int,
    radix: Radix,
    width: usize,
)
    requires
        swapped(first, second, place, old, new, radix, width),
    ensures
        window(first, place + old, second, place + new, first.len() - place - old),
        window(first, 0, second, 0, place),
        place + old + (first.len() - place - old) == first.len(),
        place + new + (first.len() - place - old) == second.len(),
{
    reveal(swapped);
}

/// The swapped number lies inside both texts.
proof fn lemma_swapped_inside(
    first: Seq<u8>,
    second: Seq<u8>,
    place: int,
    old: int,
    new: int,
    radix: Radix,
    width: usize,
)
    requires
        swapped(first, second, place, old, new, radix, width),
    ensures
        0 <= place,
        place + old <= first.len(),
        place + new <= second.len(),
        0 < old,
        0 < new,
{
    reveal(swapped);
}

/// The assignment that holds the swapped number does the same to a memory
/// in both texts, and what is behind it is read alike.
#[verifier::rlimit(30)]
proof fn lemma_content_with_number(
    first: Seq<u8>,
    second: Seq<u8>,
    place: int,
    old: int,
    new: int,
    pos: int,
    header: Header,
    memory: Memory,
    statement: Statement,
    end: int,
)
    requires
        swapped(first, second, place, old, new, header.data_radix, memory.width as usize),
        0 <= pos <= first.len(),
        pos <= second.len(),
        trivia_end(first, pos) matches Ok(start) && statement_at(first, start, header) == Ok::<
            (Statement, int),
            ParseError,
        >((statement, end)) && statement_reads_at(first, start, header, place),
        statement.fits(header.depth as nat),
        content_end(first, end, header, memory.assigned(statement)) is Ok,
    ensures
        content_end(second, pos, header, memory) == content_end(
            first,
            end,
            header,
            memory.assigned(statement),
        ),
{
    let width = memory.width as usize;
    let start = trivia_end(first, pos).unwrap();
    let next = memory.assigned(statement);
    lemma_step_with_number(first, second, place, old, new, pos, header, width);
    let found = statement_at(second, start, header).unwrap().0;
    assert(statement_at(second, start, header) == Ok::<(Statement, int), ParseError>(
        (found, end + new - old),
    ));
    assert(memory.assigned(found) == next) by {
        lemma_alike_assigned(memory, statement.address, statement.values, found.values);
    }
    assert(found.fits(header.depth as nat));
    lemma_trivia_end_bounds(second, pos);
    lemma_statement_at_bounds(second, start, header);
    assert(content_end(second, end + new - old, header, next) == content_end(
        first,
        end,
        header,
        next,
    )) by {
        lemma_swapped_rest(first, second, place, old, new, header.data_radix, width);
        lemma_statement_at_bounds(first, start, header);
        lemma_trivia_end_bounds(first, pos);
        lemma_window_content_end(
            first,
            place + old,
            second,
            place + new,
            first.len() - place - old,
            end,
            header,
            next,
        );
    }
}

/// An assignment that ends before the swapped number is carried out alike
/// in both texts.
proof fn lemma_content_before_number(
    first: Seq<u8>,
    second: Seq<u8>,
    place: int,
    pos: int,
    header: Header,
    memory: Memory,
    statement: Statement,
    end: int,
)
    requires
        window(first, 0, second, 0, place),
        0 <= pos <= first.len(),
        pos <= second.len(),
        trivia_end(first, pos) matches Ok(start) && statement_at(first, start, header) == Ok::<
            (Statement, int),
            ParseError,
        >((statement, end)),
        end < place,
        statement.fits(header.depth as nat),
    ensures
        content_end(second, pos, header, memory) == content_end(
            second,
            end,
            header,
            memory.assigned(statement),
        ),
{
    lemma_step_before_number(first, second, place, pos, header);
    lemma_trivia_end_bounds(second, pos);
    lemma_statement_at_bounds(second, trivia_end(first, pos).unwrap(), header);
}

/// A content block in which one number is swapped for another that leaves
/// the same in a cell is read as the same memory.
proof fn lemma_content_replaced(
    first: Seq<u8>,
    second: Seq<u8>,
    place: int,
    old: int,
    new: int,
    pos: int,
    header: Header,
    memory: Memory,
)
    requires
        swapped(first, second, place, old, new, header.data_radix, memory.width as usize),
        0 <= pos <= first.len(),
        content_reads_at(first, pos, header, place),
        content_end(first, pos, header, memory) is Ok,
    ensures
        content_end(second, pos, header, memory) == content_end(first, pos, header, memory),
    decreases first.len() - pos,
{
    let width = memory.width as usize;
    lemma_trivia_end_bounds(first, pos);
    lemma_swapped_inside(first, second, place, old, new, header.data_radix, width);
    lemma_content_read_bound(first, pos, header, place);
    let start = trivia_end(first, pos).unwrap();
    lemma_statement_at_bounds(first, start, header);
    let (statement, end) = statement_at(first, start, header).unwrap();
    assert(statement.fits(header.depth as nat));
    let next = memory.assigned(statement);
    assert(content_end(first, pos, header, memory) == content_end(first, end, header, next));
    if statement_reads_at(first, start, header, place) {
        lemma_content_with_number(
            first,
            second,
            place,
            old,
            new,
            pos,
            header,
            memory,
            statement,
            end,
        );
    } else {
        lemma_content_read_bound(first, end, header, place);
        lemma_swapped_rest(first, second, place, old, new, header.data_radix, width);
        lemma_content_before_number(first, second, place, pos, header, memory, statement, end);
        lemma_content_replaced(first, second, place, old, new, end, header, next);
    }
}

/// Where the word `CONTENT` stands, before the place where two texts part,
/// no attribute starts in the other text.
proof fn lemma_header_stops(first: Seq<u8>, second: Seq<u8>, place: int, start: int)
    requires
        window(first, 0, second, 0, place),
        0 <= start,
        start + 7 <= place,
        has_word(first, start, Expected::Content.word()),
    ensures
        field_at(second, start) is None,
        first[start] != '-' as u8,
{
    lemma_word_byte(first, start, Expected::Content.word(), 0);
    assert(first[start] == second[start - 0 + 0]);
    if has_word(second, start, crate::error::HeaderField::Depth.word()) {
        lemma_word_byte(second, start, crate::error::HeaderField::Depth.word(), 0);
    }
    if has_word(second, start, crate::error::HeaderField::Width.word()) {
        lemma_word_byte(second, start, crate::error::HeaderField::Width.word(), 0);
    }
    if has_word(second, start, crate::error::HeaderField::AddressRadix.word()) {
        lemma_word_byte(second, start, crate::error::HeaderField::AddressRadix.word(), 0);
    }
    if has_word(second, start, crate::error::HeaderField::DataRadix.word()) {
        lemma_word_byte(second, start, crate::error::HeaderField::DataRadix.word(), 0);
    }
}

/// An attribute that ends before the place where two texts part is read
/// alike in both.
proof fn lemma_prefix_attribute(
    first: Seq<u8>,
    second: Seq<u8>,
    place: int,
    pos: int,
)
    requires
        window(first, 0, second, 0, place),
        0 <= pos <= first.len(),
        trivia_end(first, pos) matches Ok(start) && (field_at(first, start) matches Some(field)
            && (setting_at(first, start + field.word().len(), field) matches Ok((_, end))
            && end <= place)),
    ensures
        trivia_end(second, pos) == trivia_end(first, pos),
        field_at(second, trivia_end(first, pos).unwrap()) == field_at(
            first,
            trivia_end(first, pos).unwrap(),
        ),
        setting_at(
            second,
            trivia_end(first, pos).unwrap() + field_at(
                first,
                trivia_end(first, pos).unwrap(),
            ).unwrap().word().len(),
            field_at(first, trivia_end(first, pos).unwrap()).unwrap(),
        ) == setting_at(
            first,
            trivia_end(first, pos).unwrap() + field_at(
                first,
                trivia_end(first, pos).unwrap(),
            ).unwrap().word().len(),
            field_at(first, trivia_end(first, pos).unwrap()).unwrap(),
        ),
{
    lemma_trivia_end_bounds(first, pos);
    let start = trivia_end(first, pos).unwrap();
    let field = field_at(first, start).unwrap();
    let after_name = start + field.word().len();
    lemma_setting_at_bounds(first, after_name, field);
    lemma_window_field_at(first, 0, second, 0, place, start);
    lemma_window_trivia_end(first, 0, second, 0, place, pos);
    lemma_window_setting_at(first, 0, second, 0, place, after_name, field);
}

/// A header that ends, with the word `CONTENT` behind it, before the
/// place where two texts part is read alike in both.
#[verifier::rlimit(40)]
proof fn lemma_prefix_header(
    first: Seq<u8>,
    second: Seq<u8>,
    place: int,
    pos: int,
    draft: HeaderDraft,
)
    requires
        window(first, 0, second, 0, place),
        0 <= pos <= first.len(),
        header_end(first, pos, draft) matches Ok((_, end)) && (token_end(
            first,
            end,
            Expected::Content,
        ) matches Ok(after) && after <= place),
    ensures
        header_end(second, pos, draft) == header_end(first, pos, draft),
    decreases first.len() - pos,
{
    lemma_trivia_end_bounds(first, pos);
    let start = trivia_end(first, pos).unwrap();
    match field_at(first, start) {
        None => {
            lemma_trivia_settles(first, pos);
            assert(has_word(first, start, Expected::Content.word()));
            lemma_header_stops(first, second, place, start);
            assert(trivia_end(second, pos) == Ok::<int, ParseError>(start)) by {
                lemma_window_trivia_end(first, 0, second, 0, place, pos);
            }
        },
        Some(field) => {
            let after_name = start + field.word().len();
            lemma_setting_at_bounds(first, after_name, field);
            let (setting, end) = setting_at(first, after_name, field).unwrap();
            let last = header_end(first, pos, draft).unwrap().1;
            assert(header_end(first, pos, draft) == header_end(first, end, draft.with(setting)));
            assert(end <= last < place) by {
                crate::order::lemma_header_end_bounds(first, end, draft.with(setting));
                lemma_token_end_bounds(first, last, Expected::Content);
            }
            lemma_prefix_attribute(first, second, place, pos);
            lemma_prefix_header(first, second, place, end, draft.with(setting));
            assert(header_end(second, pos, draft) == header_end(
                second,
                end,
                draft.with(setting),
            ));
        },
    }
}

/// The header that a text gives, if it gives one and opens its content
/// block.
pub open spec fn header_read(text: Seq<u8>) -> Option<Header> {
    match content_start(text) {
        Some((header, _)) => Some(header),
        None => None,
    }
}

/// Two texts that are the same but for one value literal, where the two
/// literals leave the same in a cell, have the same header and start their
/// content blocks at the same place; and the content of the second is read
/// as the content of the first.
proof fn lemma_swapped_decode(
    first: Seq<u8>,
    second: Seq<u8>,
    place: int,
    old: int,
    new: int,
    header: Header,
)
    requires
        header_read(first) == Some(header),
        decode_text(first) is Ok,
        reads_value_at(first, place),
        swapped(first, second, place, old, new, header.data_radix, header.width),
    ensures
        decode_text(second) == decode_text(first),
{
    reveal(swapped);
    let empty = HeaderDraft::empty();
    let (draft, after_header) = header_end(first, 0, empty).unwrap();
    let after_content = token_end(first, after_header, Expected::Content).unwrap();
    let after_begin = token_end(first, after_content, Expected::Begin).unwrap();
    let memory = Memory::blank(header.width as nat, header.depth as nat);
    crate::order::lemma_header_end_bounds(first, 0, empty);
    lemma_token_end_bounds(first, after_header, Expected::Content);
    lemma_token_end_bounds(first, after_content, Expected::Begin);
    lemma_content_read_bound(first, after_begin, header, place);
    lemma_prefix_header(first, second, place, 0, empty);
    lemma_window_token_end(first, 0, second, 0, place, after_header, Expected::Content);
    lemma_window_token_end(first, 0, second, 0, place, after_content, Expected::Begin);
    assert(decode_text(first) == content_end(first, after_begin, header, memory));
    lemma_content_replaced(first, second, place, old, new, after_begin, header, memory);
    assert(decode_text(second) == content_end(second, after_begin, header, memory));
}

/// A value literal counts by what is left of it modulo two to the width of
/// a cell. Where a text decodes, and the reader reads a value literal `old`
/// behind `before`, the text with any literal `new` in its place that is the
/// same number modulo two to the width decodes to the same memory: the
/// cells beside it are not touched, and no error comes of it.
pub proof fn lemma_literal_replaced(
    before: Seq<u8>,
    old: Seq<u8>,
    new: Seq<u8>,
    after: Seq<u8>,
    header: Header,
)
    requires
        header_read(before + old + after) == Some(header),
        decode_text(before + old + after) is Ok,
        reads_value_at(before + old + after, before.len() as int),
        old.len() > 0,
        new.len() > 0,
        all_digits(old, header.data_radix),
        all_digits(new, header.data_radix),
        after.len() == 0 || !header.data_radix.is_digit(after[0]),
        numeral_value(new, header.data_radix.base()) % pow2(header.width as nat)
            == numeral_value(old, header.data_radix.base()) % pow2(header.width as nat),
    ensures
        decode_text(before + new + after) == decode_text(before + old + after),
{
    let first = before + old + after;
    let second = before + new + after;
    let place = before.len() as int;
    let radix = header.data_radix;
    lemma_header_holds(first, 0, HeaderDraft::empty());
    assert(0 < header.width <= usize::BITS);
    lemma_swapped(before, old, new, after, radix, header.width);
    lemma_swapped_decode(first, second, place, old.len() as int, new.len() as int, header);
}

/// Two texts that are the same but for one run of digits, where the two
/// runs are the same number modulo two to the width, are the same but for
/// one number.
proof fn lemma_swapped(
    before: Seq<u8>,
    old: Seq<u8>,
    new: Seq<u8>,
    after: Seq<u8>,
    radix: Radix,
    width: usize,
)
    requires
        0 < width <= usize::BITS,
        old.len() > 0,
        new.len() > 0,
        all_digits(old, radix),
        all_digits(new, radix),
        after.len() == 0 || !radix.is_digit(after[0]),
        numeral_value(new, radix.base()) % pow2(width as nat) == numeral_value(
            old,
            radix.base(),
        ) % pow2(width as nat),
    ensures
        swapped(
            before + old + after,
            before + new + after,
            before.len() as int,
            old.len() as int,
            new.len() as int,
            radix,
            width,
        ),
{
    reveal(swapped);
    let first = before + old + after;
    let second = before + new + after;
    let place = before.len() as int;
    assert(first.subrange(place, place + old.len()) =~= old);
    assert(second.subrange(place, place + new.len()) =~= new);
    if after.len() > 0 {
        assert(first[place + old.len()] == after[0]);
        assert(second[place + new.len()] == after[0]);
    }
    lemma_digit_run(first, place, old, radix);
    lemma_digit_run(second, place, new, radix);
    lemma_masked_literal(numeral_value(old, radix.base()), width);
    lemma_masked_literal(numeral_value(new, radix.base()), width);
    assert(window(first, 0, second, 0, place)) by {
        assert forall|p: int| 0 <= p < 0 + place implies #[trigger] first[p] == second[p - 0
            + 0] by {
            assert(first[p] == before[p]);
            assert(second[p] == before[p]);
        }
    }
    let rest = first.len() - place - old.len();
    assert(window(first, place + old.len(), second, place + new.len(), rest)) by {
        assert forall|p: int| place + old.len() <= p < place + old.len() + rest implies
            #[trigger] first[p] == second[p - (place + old.len()) + (place + new.len())] by {
            assert(first[p] == after[p - place - old.len()]);
            assert(second[p - old.len() + new.len()] == after[p - place - old.len()]);
        }
    }
}

} // verus!
