//! Reading looks forward only: two texts that are the same from some place
//! on are read alike from any place behind it.

use vstd::prelude::*;
use crate::buffer::Memory;
use crate::content::{
    address_at, address_number_at, content_end, end_word, lemma_address_at_bounds,
    lemma_address_number_at_bounds, lemma_statement_at_bounds, open_bracket, range_at,
    statement_at, values_end,
};
use crate::error::{Expected, HeaderField};
use crate::header::{
    field_at, header_end, lemma_setting_at_bounds, lemma_value_at_bounds,
    radix_name_at, setting_at, value_at, Header, HeaderDraft,
};
use crate::lexer::{
    comment_end, has_word, is_blank, lemma_comment_end_bounds, lemma_line_end_bounds,
    lemma_token_end_bounds, lemma_trivia_end_bounds, line_comment_at, line_end, token_end,
    trivia_end,
};
use crate::numeral::{digits_end, lemma_digits_end_bounds, number_at, word_of};
use crate::radix::Radix;

verus! {

/// Whether two texts are of one length and the same from `from` on.
pub open spec fn same_from(first: Seq<u8>, second: Seq<u8>, from: int) -> bool {
    &&& 0 <= from
    &&& first.len() == second.len()
    &&& forall|i: int| from <= i < first.len() ==> first[i] == second[i]
}

/// Lines end alike.
pub proof fn lemma_same_line_end(first: Seq<u8>, second: Seq<u8>, from: int, pos: int)
    requires
        same_from(first, second, from),
        from <= pos,
    ensures
        line_end(first, pos) == line_end(second, pos),
    decreases first.len() - pos,
{
    if pos < first.len() && first[pos] != '\n' as u8 {
        lemma_same_line_end(first, second, from, pos + 1);
    }
}

/// Comments end alike.
pub proof fn lemma_same_comment_end(first: Seq<u8>, second: Seq<u8>, from: int, pos: int)
    requires
        same_from(first, second, from),
        from <= pos,
    ensures
        comment_end(first, pos) == comment_end(second, pos),
    decreases first.len() - pos,
{
    if pos < first.len() && first[pos] != '%' as u8 {
        lemma_same_comment_end(first, second, from, pos + 1);
    }
}

/// Blanks and comments are skipped alike.
pub proof fn lemma_same_trivia_end(first: Seq<u8>, second: Seq<u8>, from: int, pos: int)
    requires
        same_from(first, second, from),
        from <= pos,
    ensures
        trivia_end(first, pos) == trivia_end(second, pos),
    decreases first.len() - pos,
{
    if pos >= first.len() {
    } else if is_blank(first[pos]) {
        lemma_same_trivia_end(first, second, from, pos + 1);
    } else if line_comment_at(first, pos) {
        lemma_same_line_end(first, second, from, pos + 2);
        lemma_line_end_bounds(first, pos + 2);
        lemma_same_trivia_end(first, second, from, line_end(first, pos + 2));
    } else if first[pos] == '%' as u8 {
        lemma_same_comment_end(first, second, from, pos + 1);
        lemma_comment_end_bounds(first, pos + 1);
        if let Some(end) = comment_end(first, pos + 1) {
            lemma_same_trivia_end(first, second, from, end);
        }
    }
}

/// The same words stand at the same places.
pub proof fn lemma_same_word(
    first: Seq<u8>,
    second: Seq<u8>,
    from: int,
    pos: int,
    word: Seq<u8>,
)
    requires
        same_from(first, second, from),
        from <= pos,
    ensures
        has_word(first, pos, word) == has_word(second, pos, word),
{
    if pos + word.len() <= first.len() {
        assert(first.subrange(pos, pos + word.len()) =~= second.subrange(
            pos,
            pos + word.len(),
        ));
    }
}

/// Tokens are read alike.
pub proof fn lemma_same_token_end(
    first: Seq<u8>,
    second: Seq<u8>,
    from: int,
    pos: int,
    token: Expected,
)
    requires
        same_from(first, second, from),
        from <= pos <= first.len(),
    ensures
        token_end(first, pos, token) == token_end(second, pos, token),
{
    lemma_same_trivia_end(first, second, from, pos);
    lemma_trivia_end_bounds(first, pos);
    if let Ok(start) = trivia_end(first, pos) {
        lemma_same_word(first, second, from, start, token.word());
    }
}

/// Runs of digits end alike.
pub proof fn lemma_same_digits_end(
    first: Seq<u8>,
    second: Seq<u8>,
    from: int,
    pos: int,
    radix: Radix,
)
    requires
        same_from(first, second, from),
        from <= pos,
    ensures
        digits_end(first, pos, radix) == digits_end(second, pos, radix),
    decreases first.len() - pos,
{
    if pos < first.len() && radix.is_digit(first[pos]) {
        lemma_same_digits_end(first, second, from, pos + 1, radix);
    }
}

/// Numbers are read alike.
pub proof fn lemma_same_number_at(
    first: Seq<u8>,
    second: Seq<u8>,
    from: int,
    pos: int,
    radix: Radix,
)
    requires
        same_from(first, second, from),
        from <= pos <= first.len(),
    ensures
        number_at(first, pos, radix) == number_at(second, pos, radix),
{
    lemma_same_digits_end(first, second, from, pos, radix);
    lemma_digits_end_bounds(first, pos, radix);
    let end = digits_end(first, pos, radix);
    assert(first.subrange(pos, end) =~= second.subrange(pos, end));
}

/// Names of attributes are read alike.
pub proof fn lemma_same_field_at(first: Seq<u8>, second: Seq<u8>, from: int, pos: int)
    requires
        same_from(first, second, from),
        from <= pos,
    ensures
        field_at(first, pos) == field_at(second, pos),
{
    lemma_same_word(first, second, from, pos, HeaderField::Depth.word());
    lemma_same_word(first, second, from, pos, HeaderField::Width.word());
    lemma_same_word(first, second, from, pos, HeaderField::AddressRadix.word());
    lemma_same_word(first, second, from, pos, HeaderField::DataRadix.word());
}

/// Keywords of bases are read alike.
pub proof fn lemma_same_radix_name_at(first: Seq<u8>, second: Seq<u8>, from: int, pos: int)
    requires
        same_from(first, second, from),
        from <= pos,
    ensures
        radix_name_at(first, pos) == radix_name_at(second, pos),
{
    lemma_same_word(first, second, from, pos, Radix::Uns.keyword_text());
    lemma_same_word(first, second, from, pos, Radix::Bin.keyword_text());
    lemma_same_word(first, second, from, pos, Radix::Oct.keyword_text());
    lemma_same_word(first, second, from, pos, Radix::Hex.keyword_text());
}

/// Values of attributes are read alike.
pub proof fn lemma_same_value_at(
    first: Seq<u8>,
    second: Seq<u8>,
    from: int,
    pos: int,
    field: HeaderField,
)
    requires
        same_from(first, second, from),
        from <= pos <= first.len(),
    ensures
        value_at(first, pos, field) == value_at(second, pos, field),
{
    lemma_same_number_at(first, second, from, pos, Radix::Uns);
    lemma_same_radix_name_at(first, second, from, pos);
}

/// Attributes are read alike.
pub proof fn lemma_same_setting_at(
    first: Seq<u8>,
    second: Seq<u8>,
    from: int,
    pos: int,
    field: HeaderField,
)
    requires
        same_from(first, second, from),
        from <= pos <= first.len(),
    ensures
        setting_at(first, pos, field) == setting_at(second, pos, field),
{
    lemma_same_token_end(first, second, from, pos, Expected::Equals);
    lemma_token_end_bounds(first, pos, Expected::Equals);
    if let Ok(after_equals) = token_end(first, pos, Expected::Equals) {
        lemma_same_trivia_end(first, second, from, after_equals);
        lemma_trivia_end_bounds(first, after_equals);
        if let Ok(start) = trivia_end(first, after_equals) {
            lemma_same_value_at(first, second, from, start, field);
            lemma_value_at_bounds(first, start, field);
            if let Ok((_, end)) = value_at(first, start, field) {
                lemma_same_token_end(first, second, from, end, Expected::Semicolon);
            }
        }
    }
}

/// Headers are read alike.
pub proof fn lemma_same_header_end(
    first: Seq<u8>,
    second: Seq<u8>,
    from: int,
    pos: int,
    draft: HeaderDraft,
)
    requires
        same_from(first, second, from),
        from <= pos <= first.len(),
    ensures
        header_end(first, pos, draft) == header_end(second, pos, draft),
    decreases first.len() - pos,
{
    lemma_same_trivia_end(first, second, from, pos);
    lemma_trivia_end_bounds(first, pos);
    if let Ok(start) = trivia_end(first, pos) {
        lemma_same_field_at(first, second, from, start);
        if let Some(field) = field_at(first, start) {
            let after_name = start + field.word().len();
            lemma_same_setting_at(first, second, from, after_name, field);
            lemma_setting_at_bounds(first, after_name, field);
            if let Ok((setting, end)) = setting_at(first, after_name, field) {
                lemma_same_header_end(first, second, from, end, draft.with(setting));
            }
        }
    }
}

/// Addresses are read alike.
pub proof fn lemma_same_address_number_at(
    first: Seq<u8>,
    second: Seq<u8>,
    from: int,
    pos: int,
    radix: Radix,
)
    requires
        same_from(first, second, from),
        from <= pos <= first.len(),
    ensures
        address_number_at(first, pos, radix) == address_number_at(second, pos, radix),
{
    lemma_same_number_at(first, second, from, pos, radix);
}

/// Ranges are read alike.
pub proof fn lemma_same_range_at(
    first: Seq<u8>,
    second: Seq<u8>,
    from: int,
    pos: int,
    radix: Radix,
)
    requires
        same_from(first, second, from),
        from <= pos <= first.len(),
    ensures
        range_at(first, pos, radix) == range_at(second, pos, radix),
{
    lemma_same_trivia_end(first, second, from, pos);
    lemma_trivia_end_bounds(first, pos);
    if let Ok(start) = trivia_end(first, pos) {
        lemma_same_address_number_at(first, second, from, start, radix);
        lemma_address_number_at_bounds(first, start, radix);
        if let Ok((_, after_from)) = address_number_at(first, start, radix) {
            lemma_same_token_end(first, second, from, after_from, Expected::RangeDots);
            lemma_token_end_bounds(first, after_from, Expected::RangeDots);
            if let Ok(after_dots) = token_end(first, after_from, Expected::RangeDots) {
                lemma_same_trivia_end(first, second, from, after_dots);
                lemma_trivia_end_bounds(first, after_dots);
                if let Ok(other) = trivia_end(first, after_dots) {
                    lemma_same_address_number_at(first, second, from, other, radix);
                    lemma_address_number_at_bounds(first, other, radix);
                    if let Ok((_, after_to)) = address_number_at(first, other, radix) {
                        lemma_same_token_end(
                            first,
                            second,
                            from,
                            after_to,
                            Expected::CloseBracket,
                        );
                    }
                }
            }
        }
    }
}

/// The address parts of assignments are read alike.
pub proof fn lemma_same_address_at(
    first: Seq<u8>,
    second: Seq<u8>,
    from: int,
    pos: int,
    radix: Radix,
)
    requires
        same_from(first, second, from),
        from <= pos <= first.len(),
    ensures
        address_at(first, pos, radix) == address_at(second, pos, radix),
{
    lemma_same_word(first, second, from, pos, open_bracket());
    if has_word(first, pos, open_bracket()) {
        lemma_same_range_at(first, second, from, pos + 1, radix);
    } else {
        lemma_same_address_number_at(first, second, from, pos, radix);
    }
}

/// The values of assignments are read alike.
pub proof fn lemma_same_values_end(
    first: Seq<u8>,
    second: Seq<u8>,
    from: int,
    pos: int,
    radix: Radix,
    values: Seq<usize>,
)
    requires
        same_from(first, second, from),
        from <= pos <= first.len(),
    ensures
        values_end(first, pos, radix, values) == values_end(second, pos, radix, values),
    decreases first.len() - pos,
{
    lemma_same_trivia_end(first, second, from, pos);
    lemma_trivia_end_bounds(first, pos);
    if let Ok(start) = trivia_end(first, pos) {
        lemma_same_word(first, second, from, start, Expected::Semicolon.word());
        if !has_word(first, start, Expected::Semicolon.word()) {
            lemma_same_number_at(first, second, from, start, radix);
            lemma_digits_end_bounds(first, start, radix);
            if let Some((number, end)) = number_at(first, start, radix) {
                lemma_same_values_end(
                    first,
                    second,
                    from,
                    end,
                    radix,
                    values.push(word_of(number)),
                );
            }
        }
    }
}

/// Assignments are read alike.
pub proof fn lemma_same_statement_at(
    first: Seq<u8>,
    second: Seq<u8>,
    from: int,
    pos: int,
    header: Header,
)
    requires
        same_from(first, second, from),
        from <= pos <= first.len(),
    ensures
        statement_at(first, pos, header) == statement_at(second, pos, header),
{
    lemma_same_address_at(first, second, from, pos, header.address_radix);
    lemma_address_at_bounds(first, pos, header.address_radix);
    if let Ok((_, after_address)) = address_at(first, pos, header.address_radix) {
        lemma_same_token_end(first, second, from, after_address, Expected::Colon);
        lemma_token_end_bounds(first, after_address, Expected::Colon);
        if let Ok(after_colon) = token_end(first, after_address, Expected::Colon) {
            lemma_same_values_end(
                first,
                second,
                from,
                after_colon,
                header.data_radix,
                Seq::empty(),
            );
        }
    }
}

/// Content blocks are read alike.
pub proof fn lemma_same_content_end(
    first: Seq<u8>,
    second: Seq<u8>,
    from: int,
    pos: int,
    header: Header,
    memory: Memory,
)
    requires
        same_from(first, second, from),
        from <= pos <= first.len(),
    ensures
        content_end(first, pos, header, memory) == content_end(second, pos, header, memory),
    decreases first.len() - pos,
{
    lemma_same_trivia_end(first, second, from, pos);
    lemma_trivia_end_bounds(first, pos);
    if let Ok(start) = trivia_end(first, pos) {
        lemma_same_word(first, second, from, start, end_word());
        if has_word(first, start, end_word()) {
            lemma_same_token_end(first, second, from, start + 3, Expected::Semicolon);
        } else {
            lemma_same_statement_at(first, second, from, start, header);
            lemma_statement_at_bounds(first, start, header);
            if let Ok((statement, end)) = statement_at(first, start, header) {
                if statement.fits(header.depth as nat) {
                    lemma_same_content_end(
                        first,
                        second,
                        from,
                        end,
                        header,
                        memory.assigned(statement),
                    );
                }
            }
        }
    }
}

} // verus!
