//! What is written can be read: the text of a document decodes to the memory
//! that holds the document's numbers.

use vstd::prelude::*;
use vstd::arithmetic::div_mod::lemma_small_mod;
use vstd::arithmetic::power2::{lemma_pow2_strictly_increases, pow2};
use crate::bits::low_mask;
use crate::buffer::Memory;
use crate::masking::{lemma_masked_literal, lemma_word_modulus};
use crate::content::{
    address_at, content_end, end_word, open_bracket, range_at, statement_at, values_end,
    AddressSpec, Statement,
};
use crate::decoder::decode_text;
use crate::error::{Expected, HeaderField, ParseError};
use crate::header::{
    count_at, field_at, header_end, max_depth, radix_name_at, setting_at, value_at, Header,
    HeaderDraft, Setting,
};
use crate::lexer::{has_word, token_end};
use crate::numeral::{numeral, word_of, zero_padded};
use crate::radix::Radix;
use crate::reading::{
    lemma_no_trivia, lemma_number_reads, lemma_one_blank, lemma_token_reads, lemma_word_byte, lemma_word_parts, solid,
};
use crate::runs::{continues, runs_of, Run};
use crate::value::{ToMif, ValueKey};
use crate::writer::{
    address_text, attribute_text, header_text, keys_of, line_text, lines_text, newline,
    pad_width, value_text, Document,
};

verus! {

/// The bases that a text can be read in: all but the signed decimal one.
pub open spec fn readable(radix: Radix) -> bool {
    radix != Radix::Dec
}

/// The keyword of a base that stands at a place is read there.
pub proof fn lemma_radix_name_reads(text: Seq<u8>, pos: int, radix: Radix)
    requires
        0 <= pos,
        has_word(text, pos, radix.keyword_text()),
        readable(radix),
    ensures
        radix_name_at(text, pos) == Some(radix),
{
    lemma_word_byte(text, pos, radix.keyword_text(), 0);
    if has_word(text, pos, Radix::Uns.keyword_text()) {
        lemma_word_byte(text, pos, Radix::Uns.keyword_text(), 0);
    }
    if has_word(text, pos, Radix::Bin.keyword_text()) {
        lemma_word_byte(text, pos, Radix::Bin.keyword_text(), 0);
    }
    if has_word(text, pos, Radix::Oct.keyword_text()) {
        lemma_word_byte(text, pos, Radix::Oct.keyword_text(), 0);
    }
}

/// The name of an attribute that stands at a place is read there.
pub proof fn lemma_field_reads(text: Seq<u8>, pos: int, field: HeaderField)
    requires
        0 <= pos,
        has_word(text, pos, field.word()),
    ensures
        field_at(text, pos) == Some(field),
        solid(text[pos]),
{
    lemma_word_byte(text, pos, field.word(), 0);
    lemma_word_byte(text, pos, field.word(), 1);
    if has_word(text, pos, HeaderField::Depth.word()) {
        lemma_word_byte(text, pos, HeaderField::Depth.word(), 0);
        lemma_word_byte(text, pos, HeaderField::Depth.word(), 1);
    }
    if has_word(text, pos, HeaderField::Width.word()) {
        lemma_word_byte(text, pos, HeaderField::Width.word(), 0);
    }
    if has_word(text, pos, HeaderField::AddressRadix.word()) {
        lemma_word_byte(text, pos, HeaderField::AddressRadix.word(), 0);
    }
}

/// One attribute as the writer writes it is read as the setting it stands
/// for, and the reading goes on behind its line.
pub proof fn lemma_attribute_reads(
    text: Seq<u8>,
    pos: int,
    draft: HeaderDraft,
    field: HeaderField,
    value: Seq<u8>,
    setting: Setting,
)
    requires
        0 <= pos,
        has_word(text, pos, attribute_text(field, value)),
        pos + attribute_text(field, value).len() < text.len(),
        solid(text[pos + attribute_text(field, value).len()]),
        value.len() > 0,
        solid(value[0]),
        value_at(text, pos + field.word().len() + 1, field) == Ok::<(Setting, int), ParseError>(
            (setting, pos + field.word().len() + 1 + value.len()),
        ),
    ensures
        header_end(text, pos, draft) == header_end(
            text,
            pos + attribute_text(field, value).len(),
            draft.with(setting),
        ),
{
    let name = field.word();
    let equals = Expected::Equals.word();
    let semicolon = Expected::Semicolon.word();
    let line = attribute_text(field, value);
    let after_name = pos + name.len();
    let after_equals = after_name + 1;
    let after_value = after_equals + value.len();
    let after_semicolon = after_value + 1;
    assert(line.len() == name.len() + value.len() + 3);
    lemma_word_parts(text, pos, name + equals + value + semicolon, newline());
    lemma_word_parts(text, pos, name + equals + value, semicolon);
    lemma_word_parts(text, pos, name + equals, value);
    lemma_word_parts(text, pos, name, equals);
    lemma_field_reads(text, pos, field);
    lemma_no_trivia(text, pos);
    lemma_token_reads(text, after_name, Expected::Equals);
    lemma_word_byte(text, after_equals, value, 0);
    lemma_no_trivia(text, after_equals);
    lemma_token_reads(text, after_value, Expected::Semicolon);
    assert(setting_at(text, after_name, field) == Ok::<(Setting, int), ParseError>(
        (setting, after_semicolon),
    ));
    lemma_word_byte(text, after_semicolon, newline(), 0);
    lemma_one_blank(text, after_semicolon);
    lemma_no_trivia(text, after_semicolon + 1);
    assert(header_end(text, pos, draft) == header_end(
        text,
        after_semicolon,
        draft.with(setting),
    ));
    assert(header_end(text, after_semicolon, draft.with(setting)) == header_end(
        text,
        after_semicolon + 1,
        draft.with(setting),
    ));
}

/// A count as the writer writes it is read as the count, if it is one that
/// the header takes.
pub proof fn lemma_count_reads(text: Seq<u8>, pos: int, count: nat, limit: nat)
    requires
        0 <= pos,
        has_word(text, pos, numeral(count, 10)),
        pos + numeral(count, 10).len() < text.len(),
        text[pos + numeral(count, 10).len()] == ';' as u8,
        0 < count <= limit,
        count <= usize::MAX,
    ensures
        count_at(text, pos, limit) == Ok::<(usize, int), ParseError>(
            (count as usize, pos + numeral(count, 10).len()),
        ),
        numeral(count, 10).len() > 0,
        solid(numeral(count, 10)[0]),
{
    assert(zero_padded(numeral(count, 10), 0) == numeral(count, 10));
    lemma_number_reads(text, pos, count, Radix::Uns, 0);
    lemma_word_byte(text, pos, numeral(count, 10), 0);
}

/// The parts of a line of the header.
pub proof fn lemma_line_parts(text: Seq<u8>, pos: int, field: HeaderField, value: Seq<u8>)
    requires
        0 <= pos,
        has_word(text, pos, attribute_text(field, value)),
    ensures
        attribute_text(field, value).len() == field.word().len() + value.len() + 3,
        has_word(text, pos, field.word()),
        has_word(text, pos + field.word().len() + 1, value),
        text[pos + field.word().len() + 1 + value.len()] == ';' as u8,
        solid(text[pos]),
{
    let name = field.word();
    let equals = Expected::Equals.word();
    let semicolon = Expected::Semicolon.word();
    lemma_word_parts(text, pos, name + equals + value + semicolon, newline());
    lemma_word_parts(text, pos, name + equals + value, semicolon);
    lemma_word_parts(text, pos, name + equals, value);
    lemma_word_parts(text, pos, name, equals);
    lemma_word_byte(text, pos + name.len() + 1 + value.len(), semicolon, 0);
    lemma_field_reads(text, pos, field);
}

/// A line of the header that gives a count is read as that count.
pub proof fn lemma_count_line_reads(
    text: Seq<u8>,
    pos: int,
    draft: HeaderDraft,
    field: HeaderField,
    count: usize,
)
    requires
        0 <= pos,
        has_word(text, pos, attribute_text(field, numeral(count as nat, 10))),
        pos + attribute_text(field, numeral(count as nat, 10)).len() < text.len(),
        solid(text[pos + attribute_text(field, numeral(count as nat, 10)).len()]),
        field == HeaderField::Depth && 0 < count <= max_depth() || field == HeaderField::Width
            && 0 < count <= usize::BITS,
    ensures
        header_end(text, pos, draft) == header_end(
            text,
            pos + attribute_text(field, numeral(count as nat, 10)).len(),
            draft.with(
                if field == HeaderField::Depth {
                    Setting::Depth(count)
                } else {
                    Setting::Width(count)
                },
            ),
        ),
{
    let value = numeral(count as nat, 10);
    let start = pos + field.word().len() + 1;
    lemma_line_parts(text, pos, field, value);
    let limit = if field == HeaderField::Depth {
        max_depth()
    } else {
        usize::BITS as nat
    };
    lemma_count_reads(text, start, count as nat, limit);
    let setting = if field == HeaderField::Depth {
        Setting::Depth(count)
    } else {
        Setting::Width(count)
    };
    lemma_attribute_reads(text, pos, draft, field, value, setting);
}

/// A line of the header that gives a base is read as that base.
pub proof fn lemma_radix_line_reads(
    text: Seq<u8>,
    pos: int,
    draft: HeaderDraft,
    field: HeaderField,
    radix: Radix,
)
    requires
        0 <= pos,
        has_word(text, pos, attribute_text(field, radix.keyword_text())),
        pos + attribute_text(field, radix.keyword_text()).len() < text.len(),
        solid(text[pos + attribute_text(field, radix.keyword_text()).len()]),
        field == HeaderField::AddressRadix || field == HeaderField::DataRadix,
        readable(radix),
    ensures
        header_end(text, pos, draft) == header_end(
            text,
            pos + attribute_text(field, radix.keyword_text()).len(),
            draft.with(
                if field == HeaderField::AddressRadix {
                    Setting::AddressRadix(radix)
                } else {
                    Setting::DataRadix(radix)
                },
            ),
        ),
{
    let value = radix.keyword_text();
    let start = pos + field.word().len() + 1;
    lemma_line_parts(text, pos, field, value);
    lemma_radix_name_reads(text, start, radix);
    let setting = if field == HeaderField::AddressRadix {
        Setting::AddressRadix(radix)
    } else {
        Setting::DataRadix(radix)
    };
    assert(value.len() == 3);
    assert(solid(value[0]));
    lemma_attribute_reads(text, pos, draft, field, value, setting);
}

/// The two lines of a header that give its counts.
#[verifier::opaque]
pub open spec fn counts_of(header: Header) -> Seq<u8> {
    attribute_text(HeaderField::Depth, numeral(header.depth as nat, 10)) + attribute_text(
        HeaderField::Width,
        numeral(header.width as nat, 10),
    )
}

/// The two lines of a header that give its bases.
#[verifier::opaque]
pub open spec fn radices_of(header: Header) -> Seq<u8> {
    attribute_text(HeaderField::AddressRadix, header.address_radix.keyword_text())
        + attribute_text(HeaderField::DataRadix, header.data_radix.keyword_text())
}

/// The line that opens the content block.
#[verifier::opaque]
pub open spec fn opening() -> Seq<u8> {
    Expected::Content.word() + seq![' ' as u8] + Expected::Begin.word() + newline()
}

/// Whether a header is one that the reader takes.
pub open spec fn acceptable(header: Header) -> bool {
    &&& 0 < header.width <= usize::BITS
    &&& 0 < header.depth <= max_depth()
    &&& readable(header.address_radix)
    &&& readable(header.data_radix)
}

/// The draft in which the four attributes of a header are set.
pub open spec fn draft_of(header: Header) -> HeaderDraft {
    HeaderDraft {
        depth: Some(header.depth),
        width: Some(header.width),
        address_radix: Some(header.address_radix),
        data_radix: Some(header.data_radix),
    }
}

/// The draft in which the two counts of a header are set.
pub open spec fn counts_draft(header: Header) -> HeaderDraft {
    HeaderDraft {
        depth: Some(header.depth),
        width: Some(header.width),
        address_radix: None,
        data_radix: None,
    }
}

/// The text of a header is its two counts, its two bases and the opening
/// of the content block.
proof fn lemma_header_layout(header: Header)
    ensures
        header_text(
            header.depth as nat,
            header.width as nat,
            header.address_radix,
            header.data_radix,
        ) == counts_of(header) + radices_of(header) + opening(),
        radices_of(header).len() > 0,
        solid(radices_of(header)[0]),
        opening().len() == 14,
        solid(opening()[0]),
{
    reveal(counts_of);
    reveal(radices_of);
    reveal(opening);
    reveal(header_text);
    let whole = header_text(
        header.depth as nat,
        header.width as nat,
        header.address_radix,
        header.data_radix,
    );
    assert(whole =~= counts_of(header) + radices_of(header) + opening());
    assert(radices_of(header)[0] == HeaderField::AddressRadix.word()[0]);
    assert(opening()[0] == Expected::Content.word()[0]);
}

/// The first two lines of a header are read as depth and width.
proof fn lemma_counts_read(text: Seq<u8>, header: Header, rest: Seq<u8>)
    requires
        acceptable(header),
        has_word(text, 0, counts_of(header) + rest),
        rest.len() > 0,
        solid(rest[0]),
    ensures
        header_end(text, 0, HeaderDraft::empty()) == header_end(
            text,
            counts_of(header).len() as int,
            counts_draft(header),
        ),
{
    reveal(counts_of);
    let depth_line = attribute_text(HeaderField::Depth, numeral(header.depth as nat, 10));
    let width_line = attribute_text(HeaderField::Width, numeral(header.width as nat, 10));
    lemma_word_parts(text, 0, depth_line + width_line, rest);
    lemma_word_parts(text, 0, depth_line, width_line);
    let at_width = depth_line.len() as int;
    let at_rest = at_width + width_line.len();
    lemma_line_parts(text, at_width, HeaderField::Width, numeral(header.width as nat, 10));
    lemma_word_byte(text, at_rest, rest, 0);
    lemma_count_line_reads(text, 0, HeaderDraft::empty(), HeaderField::Depth, header.depth);
    lemma_count_line_reads(
        text,
        at_width,
        HeaderDraft::empty().with(Setting::Depth(header.depth)),
        HeaderField::Width,
        header.width,
    );
}

/// The last two lines of a header are read as the two bases.
proof fn lemma_radices_read(text: Seq<u8>, pos: int, header: Header, rest: Seq<u8>)
    requires
        0 <= pos,
        acceptable(header),
        has_word(text, pos, radices_of(header) + rest),
        rest.len() > 0,
        solid(rest[0]),
    ensures
        header_end(text, pos, counts_draft(header)) == header_end(
            text,
            pos + radices_of(header).len(),
            draft_of(header),
        ),
{
    reveal(radices_of);
    let draft = counts_draft(header);
    let address_line = attribute_text(
        HeaderField::AddressRadix,
        header.address_radix.keyword_text(),
    );
    let data_line = attribute_text(HeaderField::DataRadix, header.data_radix.keyword_text());
    lemma_word_parts(text, pos, address_line + data_line, rest);
    lemma_word_parts(text, pos, address_line, data_line);
    let at_data = pos + address_line.len();
    let at_rest = at_data + data_line.len();
    lemma_line_parts(text, at_data, HeaderField::DataRadix, header.data_radix.keyword_text());
    lemma_word_byte(text, at_rest, rest, 0);
    lemma_radix_line_reads(text, pos, draft, HeaderField::AddressRadix, header.address_radix);
    lemma_radix_line_reads(
        text,
        at_data,
        draft.with(Setting::AddressRadix(header.address_radix)),
        HeaderField::DataRadix,
        header.data_radix,
    );
}

/// Where the content block opens the header has come to its end, and the
/// two words that open the block are read.
#[verifier::rlimit(30)]
proof fn lemma_opening_reads(text: Seq<u8>, pos: int, draft: HeaderDraft)
    requires
        0 <= pos,
        has_word(text, pos, opening()),
    ensures
        header_end(text, pos, draft) == Ok::<(HeaderDraft, int), ParseError>((draft, pos)),
        token_end(text, pos, Expected::Content) == Ok::<int, ParseError>(pos + 7),
        token_end(text, pos + 7, Expected::Begin) == Ok::<int, ParseError>(pos + 13),
        text[pos + 13] == '\n' as u8,
{
    reveal(opening);
    let content = Expected::Content.word();
    let begin = Expected::Begin.word();
    let space = seq![' ' as u8];
    lemma_word_parts(text, pos, content + space + begin, newline());
    lemma_word_parts(text, pos, content + space, begin);
    lemma_word_parts(text, pos, content, space);
    lemma_word_byte(text, pos, content, 0);
    lemma_word_byte(text, pos + 7, space, 0);
    lemma_word_byte(text, pos + 8, begin, 0);
    lemma_word_byte(text, pos + 13, newline(), 0);
    lemma_no_trivia(text, pos);
    assert(field_at(text, pos) is None) by {
        if has_word(text, pos, HeaderField::Depth.word()) {
            lemma_word_byte(text, pos, HeaderField::Depth.word(), 0);
        }
        if has_word(text, pos, HeaderField::Width.word()) {
            lemma_word_byte(text, pos, HeaderField::Width.word(), 0);
        }
        if has_word(text, pos, HeaderField::AddressRadix.word()) {
            lemma_word_byte(text, pos, HeaderField::AddressRadix.word(), 0);
        }
        if has_word(text, pos, HeaderField::DataRadix.word()) {
            lemma_word_byte(text, pos, HeaderField::DataRadix.word(), 0);
        }
    }
    lemma_token_reads(text, pos, Expected::Content);
    lemma_one_blank(text, pos + 7);
}

/// The header that the writer writes is read to its end, and the two words
/// that open the content block are read behind it.
proof fn lemma_header_ends(text: Seq<u8>, header: Header, length: int)
    requires
        has_word(
            text,
            0,
            header_text(
                header.depth as nat,
                header.width as nat,
                header.address_radix,
                header.data_radix,
            ),
        ),
        acceptable(header),
        length == header_text(
            header.depth as nat,
            header.width as nat,
            header.address_radix,
            header.data_radix,
        ).len(),
    ensures
        length >= 14,
        header_end(text, 0, HeaderDraft::empty()) == Ok::<(HeaderDraft, int), ParseError>(
            (draft_of(header), length - 14),
        ),
        token_end(text, length - 14, Expected::Content) == Ok::<int, ParseError>(length - 7),
        token_end(text, length - 7, Expected::Begin) == Ok::<int, ParseError>(length - 1),
        text[length - 1] == '\n' as u8,
{
    let counts = counts_of(header);
    let radices = radices_of(header);
    lemma_header_layout(header);
    let at_radices = counts.len() as int;
    let at_opening = at_radices + radices.len();
    assert(counts + radices + opening() =~= counts + (radices + opening()));
    lemma_word_parts(text, 0, counts, radices + opening());
    lemma_word_parts(text, 0, counts + radices, opening());
    assert((radices + opening())[0] == radices[0]);
    lemma_counts_read(text, header, radices + opening());
    lemma_radices_read(text, at_radices, header, opening());
    lemma_opening_reads(text, at_opening, draft_of(header));
}

/// The header that the writer writes is read as the header it stands for,
/// and what is left to read is the content block.
pub proof fn lemma_header_reads(text: Seq<u8>, header: Header)
    requires
        has_word(
            text,
            0,
            header_text(
                header.depth as nat,
                header.width as nat,
                header.address_radix,
                header.data_radix,
            ),
        ),
        acceptable(header),
    ensures
        decode_text(text) == content_end(
            text,
            header_text(
                header.depth as nat,
                header.width as nat,
                header.address_radix,
                header.data_radix,
            ).len() - 1,
            header,
            Memory::blank(header.width as nat, header.depth as nat),
        ),
        text[header_text(
            header.depth as nat,
            header.width as nat,
            header.address_radix,
            header.data_radix,
        ).len() - 1] == '\n' as u8,
{
    let length = header_text(
        header.depth as nat,
        header.width as nat,
        header.address_radix,
        header.data_radix,
    ).len() as int;
    lemma_header_ends(text, header, length);
    assert(draft_of(header).complete() == Ok::<Header, ParseError>(header));
}

/// The statement that the line of a run stands for.
pub open spec fn statement_of(run: Run) -> Statement {
    Statement {
        address: if run.start == run.end {
            AddressSpec::Single(run.start)
        } else {
            AddressSpec::Range(run.start, run.end)
        },
        values: seq![word_of(run.key.magnitude as nat)],
    }
}

/// What follows the address in a line is read as one value.
proof fn lemma_value_reads(text: Seq<u8>, pos: int, magnitude: nat, radix: Radix, width: nat)
    requires
        0 <= pos,
        readable(radix),
        has_word(
            text,
            pos,
            Expected::Colon.word() + address_text(magnitude, radix, width)
                + Expected::Semicolon.word(),
        ),
    ensures
        token_end(text, pos, Expected::Colon) == Ok::<int, ParseError>(pos + 1),
        values_end(text, pos + 1, radix, Seq::empty()) == Ok::<(Seq<usize>, int), ParseError>(
            (seq![word_of(magnitude)], pos + 2 + address_text(magnitude, radix, width).len()),
        ),
{
    let colon = Expected::Colon.word();
    let semicolon = Expected::Semicolon.word();
    let digits = address_text(magnitude, radix, width);
    let first = pos + 1;
    let last = first + digits.len();
    lemma_word_parts(text, pos, colon + digits, semicolon);
    lemma_word_parts(text, pos, colon, digits);
    lemma_token_reads(text, pos, Expected::Colon);
    lemma_word_byte(text, last, semicolon, 0);
    lemma_number_reads(text, first, magnitude, radix, pad_width(radix, width));
    lemma_no_trivia(text, first);
    lemma_no_trivia(text, last);
    assert(!has_word(text, first, semicolon)) by {
        if has_word(text, first, semicolon) {
            lemma_word_byte(text, first, semicolon, 0);
        }
    }
    let one = Seq::<usize>::empty().push(word_of(magnitude));
    assert(one =~= seq![word_of(magnitude)]);
    assert(values_end(text, last, radix, one) == Ok::<(Seq<usize>, int), ParseError>(
        (one, last + 1),
    ));
    assert(values_end(text, first, radix, Seq::empty()) == values_end(text, last, radix, one));
}

/// An address on its own is read as that address, and is not the word that
/// closes the content block.
proof fn lemma_single_reads(text: Seq<u8>, pos: int, index: usize, radix: Radix, width: nat)
    requires
        0 <= pos,
        readable(radix),
        has_word(text, pos, address_text(index as nat, radix, width) + Expected::Colon.word()),
    ensures
        address_at(text, pos, radix) == Ok::<(AddressSpec, int), ParseError>(
            (AddressSpec::Single(index), pos + address_text(index as nat, radix, width).len()),
        ),
        !has_word(text, pos, end_word()),
        solid(text[pos]),
{
    let digits = address_text(index as nat, radix, width);
    let colon = Expected::Colon.word();
    lemma_word_parts(text, pos, digits, colon);
    lemma_word_byte(text, pos + digits.len(), colon, 0);
    lemma_number_reads(text, pos, index as nat, radix, pad_width(radix, width));
    assert(!has_word(text, pos, open_bracket())) by {
        if has_word(text, pos, open_bracket()) {
            lemma_word_byte(text, pos, open_bracket(), 0);
        }
    }
    assert(!has_word(text, pos, end_word())) by {
        if has_word(text, pos, end_word()) {
            lemma_word_byte(text, pos, end_word(), 1);
            if digits.len() >= 2 {
                lemma_word_byte(text, pos, digits, 1);
                assert(radix.is_digit(digits[1]));
            }
        }
    }
}

/// A range in brackets is read as that range.
proof fn lemma_range_reads(
    text: Seq<u8>,
    pos: int,
    from: usize,
    to: usize,
    radix: Radix,
    width: nat,
)
    requires
        0 <= pos,
        readable(radix),
        has_word(
            text,
            pos,
            open_bracket() + address_text(from as nat, radix, width)
                + Expected::RangeDots.word() + address_text(to as nat, radix, width)
                + Expected::CloseBracket.word(),
        ),
    ensures
        address_at(text, pos, radix) == Ok::<(AddressSpec, int), ParseError>(
            (
                AddressSpec::Range(from, to),
                pos + 4 + address_text(from as nat, radix, width).len() + address_text(
                    to as nat,
                    radix,
                    width,
                ).len(),
            ),
        ),
        !has_word(text, pos, end_word()),
        solid(text[pos]),
{
    let first = address_text(from as nat, radix, width);
    let second = address_text(to as nat, radix, width);
    let dots = Expected::RangeDots.word();
    let close = Expected::CloseBracket.word();
    let at_first = pos + 1;
    let at_dots = at_first + first.len();
    let at_second = at_dots + 2;
    let at_close = at_second + second.len();
    lemma_word_parts(text, pos, open_bracket() + first + dots + second, close);
    lemma_word_parts(text, pos, open_bracket() + first + dots, second);
    lemma_word_parts(text, pos, open_bracket() + first, dots);
    lemma_word_parts(text, pos, open_bracket(), first);
    lemma_word_byte(text, pos, open_bracket(), 0);
    lemma_word_byte(text, at_dots, dots, 0);
    lemma_word_byte(text, at_close, close, 0);
    lemma_number_reads(text, at_first, from as nat, radix, pad_width(radix, width));
    lemma_number_reads(text, at_second, to as nat, radix, pad_width(radix, width));
    lemma_no_trivia(text, at_first);
    lemma_no_trivia(text, at_second);
    lemma_token_reads(text, at_dots, Expected::RangeDots);
    lemma_token_reads(text, at_close, Expected::CloseBracket);
    assert(!has_word(text, pos, end_word())) by {
        if has_word(text, pos, end_word()) {
            lemma_word_byte(text, pos, end_word(), 0);
        }
    }
    assert(range_at(text, at_first, radix) == Ok::<(AddressSpec, int), ParseError>(
        (AddressSpec::Range(from, to), at_close + 1),
    ));
}

/// A key that a cell of `width` bits can hold: no sign, and a magnitude
/// below two to the `width`.
pub open spec fn plain(key: ValueKey, width: nat) -> bool {
    !key.negative && key.magnitude < pow2(width)
}

/// The line of a run under a header.
#[verifier::opaque]
pub open spec fn line_of(run: Run, header: Header) -> Seq<u8> {
    line_text(run, header.address_radix, header.data_radix, header.width as nat)
}

/// The address part of the line of a run: one address, or two in brackets.
#[verifier::opaque]
pub open spec fn place_of(run: Run, header: Header) -> Seq<u8> {
    if run.start == run.end {
        address_text(run.start as nat, header.address_radix, header.width as nat)
    } else {
        open_bracket() + address_text(run.start as nat, header.address_radix, header.width as nat)
            + Expected::RangeDots.word() + address_text(
            run.end as nat,
            header.address_radix,
            header.width as nat,
        ) + Expected::CloseBracket.word()
    }
}

/// The value part of the line of a run: the colon, the value and the
/// semicolon.
#[verifier::opaque]
pub open spec fn value_of(run: Run, header: Header) -> Seq<u8> {
    Expected::Colon.word() + address_text(
        run.key.magnitude as nat,
        header.data_radix,
        header.width as nat,
    ) + Expected::Semicolon.word()
}

/// The line of a run is its address part, its value part and the end of
/// the line.
proof fn lemma_line_layout(run: Run, header: Header)
    requires
        !run.key.negative,
    ensures
        line_of(run, header) == place_of(run, header) + value_of(run, header) + newline(),
        newline().len() == 1,
        newline()[0] == '\n' as u8,
{
    reveal(line_of);
    reveal(line_text);
    reveal(place_of);
    reveal(value_of);
    let width = header.width as nat;
    assert(value_text(run.key, header.data_radix, width) =~= address_text(
        run.key.magnitude as nat,
        header.data_radix,
        width,
    ));
    assert(line_of(run, header) =~= place_of(run, header) + value_of(run, header) + newline());
}

/// Two words that stand one behind the other stand there as one.
proof fn lemma_word_joined(text: Seq<u8>, pos: int, first: Seq<u8>, second: Seq<u8>)
    requires
        has_word(text, pos, first),
        has_word(text, pos + first.len(), second),
    ensures
        has_word(text, pos, first + second),
{
    let whole = first + second;
    let there = text.subrange(pos, pos + whole.len());
    assert forall|i: int| 0 <= i < whole.len() implies #[trigger] there[i] == whole[i] by {
        if i < first.len() {
            lemma_word_byte(text, pos, first, i);
        } else {
            lemma_word_byte(text, pos + first.len(), second, i - first.len());
        }
    }
    assert(there =~= whole);
}

/// The address part of a line, with a colon behind it, is read as the
/// address of the run.
proof fn lemma_place_reads(text: Seq<u8>, pos: int, run: Run, header: Header)
    requires
        0 <= pos,
        readable(header.address_radix),
        has_word(text, pos, place_of(run, header)),
        has_word(text, pos + place_of(run, header).len(), Expected::Colon.word()),
    ensures
        address_at(text, pos, header.address_radix) == Ok::<(AddressSpec, int), ParseError>(
            (statement_of(run).address, pos + place_of(run, header).len()),
        ),
        !has_word(text, pos, end_word()),
        solid(text[pos]),
{
    reveal(place_of);
    let width = header.width as nat;
    lemma_word_joined(text, pos, place_of(run, header), Expected::Colon.word());
    if run.start == run.end {
        lemma_single_reads(text, pos, run.start, header.address_radix, width);
    } else {
        lemma_word_parts(text, pos, place_of(run, header), Expected::Colon.word());
        lemma_range_reads(text, pos, run.start, run.end, header.address_radix, width);
    }
}

/// The value part of a line is read as the one value of the run.
proof fn lemma_value_part_reads(text: Seq<u8>, pos: int, run: Run, header: Header)
    requires
        0 <= pos,
        readable(header.data_radix),
        has_word(text, pos, value_of(run, header)),
    ensures
        has_word(text, pos, Expected::Colon.word()),
        token_end(text, pos, Expected::Colon) == Ok::<int, ParseError>(pos + 1),
        values_end(text, pos + 1, header.data_radix, Seq::empty()) == Ok::<
            (Seq<usize>, int),
            ParseError,
        >((statement_of(run).values, pos + value_of(run, header).len())),
        value_of(run, header).len() >= 2,
{
    reveal(value_of);
    let digits = address_text(run.key.magnitude as nat, header.data_radix, header.width as nat);
    assert(Expected::Colon.word() + digits + Expected::Semicolon.word()
        =~= Expected::Colon.word() + (digits + Expected::Semicolon.word()));
    lemma_word_parts(text, pos, Expected::Colon.word(), digits + Expected::Semicolon.word());
    lemma_value_reads(
        text,
        pos,
        run.key.magnitude as nat,
        header.data_radix,
        header.width as nat,
    );
}

/// The line of a run is read as the statement it stands for.
proof fn lemma_line_reads(text: Seq<u8>, pos: int, run: Run, header: Header, rest: Seq<u8>)
    requires
        0 <= pos,
        acceptable(header),
        !run.key.negative,
        has_word(text, pos, line_of(run, header) + rest),
    ensures
        line_of(run, header).len() >= 2,
        statement_at(text, pos, header) == Ok::<(Statement, int), ParseError>(
            (statement_of(run), pos + line_of(run, header).len() - 1),
        ),
        !has_word(text, pos, end_word()),
        solid(text[pos]),
        text[pos + line_of(run, header).len() - 1] == '\n' as u8,
        has_word(text, pos + line_of(run, header).len(), rest),
{
    let place = place_of(run, header);
    let value = value_of(run, header);
    let line = line_of(run, header);
    lemma_line_layout(run, header);
    lemma_word_parts(text, pos, line, rest);
    lemma_word_parts(text, pos, place + value, newline());
    lemma_word_parts(text, pos, place, value);
    lemma_word_byte(text, pos + place.len() + value.len(), newline(), 0);
    lemma_value_part_reads(text, pos + place.len(), run, header);
    lemma_place_reads(text, pos, run, header);
    assert(statement_at(text, pos, header) == Ok::<(Statement, int), ParseError>(
        (
            Statement { address: statement_of(run).address, values: statement_of(run).values },
            pos + place.len() + value.len(),
        ),
    ));
}

/// The memory in which the cells below `upto` hold their keys and the
/// others are zero.
pub open spec fn filled(keys: Seq<ValueKey>, upto: int, width: nat) -> Memory {
    Memory {
        width,
        cells: Seq::new(
            keys.len(),
            |address: int|
                if address < upto {
                    keys[address].magnitude as usize
                } else {
                    0usize
                },
        ),
    }
}

proof fn lemma_or_into_zero(word: usize)
    by (bit_vector)
    ensures
        0usize | word == word,
{
}

/// The statement of a run fills the cells of the run.
proof fn lemma_run_fills(keys: Seq<ValueKey>, run: Run, width: usize)
    requires
        0 < width <= usize::BITS,
        run.start <= run.end < keys.len(),
        forall|address: int| run.start <= address <= run.end ==> keys[address] == run.key,
        plain(run.key, width as nat),
    ensures
        filled(keys, run.start as int, width as nat).assigned(statement_of(run)) == filled(
            keys,
            run.end + 1,
            width as nat,
        ),
{
    let before = filled(keys, run.start as int, width as nat);
    let after = filled(keys, run.end + 1, width as nat);
    let statement = statement_of(run);
    let magnitude = run.key.magnitude as nat;
    let literal = word_of(magnitude);
    lemma_masked_literal(magnitude, width);
    lemma_small_mod(magnitude, pow2(width as nat));
    lemma_or_into_zero(literal & low_mask(width));
    lemma_pow2_strictly_increases_or_same(width as nat);
    assert forall|address: int| 0 <= address < keys.len() implies before.assigned(
        statement,
    ).cells[address] == after.cells[address] by {
        if run.start <= address <= run.end {
            if run.start != run.end {
                assert((address - run.start) % 1 == 0);
            }
            assert(statement.literal_for(address) == Some(literal));
        } else {
            assert(statement.literal_for(address) is None);
        }
    }
    assert(before.assigned(statement).cells =~= after.cells);
}

/// Two to the width of a cell is no more than what a machine word counts.
proof fn lemma_pow2_strictly_increases_or_same(width: nat)
    requires
        width <= usize::BITS,
    ensures
        pow2(width) <= usize::MAX + 1,
{
    lemma_word_modulus();
    if width < usize::BITS {
        lemma_pow2_strictly_increases(width, usize::BITS as nat);
    }
}

/// The word that closes the content block, with its semicolon.
#[verifier::opaque]
pub open spec fn closing() -> Seq<u8> {
    end_word() + Expected::Semicolon.word()
}

/// Runs that lie end to end over all the keys, each over keys like its
/// own.
pub open spec fn tiles(runs: Seq<Run>, keys: Seq<ValueKey>) -> bool {
    &&& keys.len() > 0 ==> runs.len() > 0
    &&& runs.len() > 0 ==> runs[0].start == 0 && runs.last().end + 1 == keys.len()
    &&& forall|j: int| 0 <= j < runs.len() ==> (#[trigger] runs[j]).start <= runs[j].end
    &&& forall|j: int|
        0 <= j && j + 1 < runs.len() ==> (#[trigger] runs[j + 1]).start == runs[j].end + 1
    &&& forall|j: int, address: int|
        0 <= j < runs.len() && (#[trigger] runs[j]).start <= address <= runs[j].end
            ==> #[trigger] keys[address] == runs[j].key
}

/// Where run `j` starts; behind the last run, the number of keys.
pub open spec fn reached(runs: Seq<Run>, keys: Seq<ValueKey>, j: int) -> int {
    if 0 <= j < runs.len() {
        runs[j].start as int
    } else {
        keys.len() as int
    }
}

/// The lines of the runs from run `j` on, and the closing word.
#[verifier::opaque]
pub open spec fn tail_of(runs: Seq<Run>, j: int, header: Header) -> Seq<u8> {
    lines_text(
        runs.subrange(j, runs.len() as int),
        header.address_radix,
        header.data_radix,
        header.width as nat,
    ) + closing()
}

/// The lines of some runs are the line of the first and the lines of the
/// others.
proof fn lemma_lines_front(runs: Seq<Run>, address_radix: Radix, data_radix: Radix, width: nat)
    requires
        runs.len() > 0,
    ensures
        lines_text(runs, address_radix, data_radix, width) == line_text(
            runs[0],
            address_radix,
            data_radix,
            width,
        ) + lines_text(runs.subrange(1, runs.len() as int), address_radix, data_radix, width),
    decreases runs.len(),
{
    let others = runs.subrange(1, runs.len() as int);
    let first = line_text(runs[0], address_radix, data_radix, width);
    if runs.len() == 1 {
        assert(runs.drop_last() =~= Seq::<Run>::empty());
        assert(lines_text(runs.drop_last(), address_radix, data_radix, width)
            =~= Seq::<u8>::empty());
        assert(lines_text(others, address_radix, data_radix, width) =~= Seq::<u8>::empty());
        assert(lines_text(runs, address_radix, data_radix, width) =~= first + lines_text(
            others,
            address_radix,
            data_radix,
            width,
        ));
    } else {
        let shorter = runs.drop_last();
        lemma_lines_front(shorter, address_radix, data_radix, width);
        assert(shorter.subrange(1, shorter.len() as int) =~= others.drop_last());
        assert(others.last() == runs.last());
        assert(shorter[0] == runs[0]);
        let last = line_text(runs.last(), address_radix, data_radix, width);
        let middle = lines_text(others.drop_last(), address_radix, data_radix, width);
        assert(first + middle + last =~= first + (middle + last));
    }
}

/// What is left to read from run `j` on is the line of that run and what
/// is left from the next run on; behind the last run, the closing word.
proof fn lemma_tail_front(runs: Seq<Run>, j: int, header: Header)
    requires
        0 <= j <= runs.len(),
    ensures
        j < runs.len() ==> tail_of(runs, j, header) == line_of(runs[j], header) + tail_of(
            runs,
            j + 1,
            header,
        ),
        j == runs.len() ==> tail_of(runs, j, header) == closing(),
{
    reveal(tail_of);
    reveal(line_of);
    let left = runs.subrange(j, runs.len() as int);
    let lines = lines_text(left, header.address_radix, header.data_radix, header.width as nat);
    if j < runs.len() {
        let others = runs.subrange(j + 1, runs.len() as int);
        lemma_lines_front(left, header.address_radix, header.data_radix, header.width as nat);
        assert(left.subrange(1, left.len() as int) =~= others);
        assert(left[0] == runs[j]);
        let line = line_text(
            runs[j],
            header.address_radix,
            header.data_radix,
            header.width as nat,
        );
        let more = lines_text(
            others,
            header.address_radix,
            header.data_radix,
            header.width as nat,
        );
        assert(line + more + closing() =~= line + (more + closing()));
    } else {
        assert(lines =~= Seq::<u8>::empty());
        assert(lines + closing() =~= closing());
    }
}

/// The word that closes the content block ends the reading.
proof fn lemma_closing_reads(text: Seq<u8>, pos: int, header: Header, memory: Memory)
    requires
        0 <= pos,
        pos < text.len(),
        text[pos] == '\n' as u8,
        has_word(text, pos + 1, closing()),
    ensures
        content_end(text, pos, header, memory) == Ok::<Memory, ParseError>(memory),
{
    reveal(closing);
    lemma_word_parts(text, pos + 1, end_word(), Expected::Semicolon.word());
    lemma_word_byte(text, pos + 1, end_word(), 0);
    lemma_one_blank(text, pos);
    lemma_token_reads(text, pos + 4, Expected::Semicolon);
}

/// The line of a run, read where the cells before the run are filled,
/// fills the cells of the run, and the reading goes on behind the line.
proof fn lemma_line_step(
    text: Seq<u8>,
    pos: int,
    header: Header,
    run: Run,
    keys: Seq<ValueKey>,
    rest: Seq<u8>,
)
    requires
        0 <= pos < text.len(),
        text[pos] == '\n' as u8,
        acceptable(header),
        keys.len() == header.depth,
        run.start <= run.end < keys.len(),
        forall|address: int| run.start <= address <= run.end ==> keys[address] == run.key,
        plain(run.key, header.width as nat),
        has_word(text, pos + 1, line_of(run, header) + rest),
    ensures
        content_end(text, pos, header, filled(keys, run.start as int, header.width as nat))
            == content_end(
            text,
            pos + line_of(run, header).len(),
            header,
            filled(keys, run.end + 1, header.width as nat),
        ),
        pos + line_of(run, header).len() < text.len(),
        text[pos + line_of(run, header).len()] == '\n' as u8,
        has_word(text, pos + line_of(run, header).len() + 1, rest),
{
    lemma_line_reads(text, pos + 1, run, header, rest);
    lemma_one_blank(text, pos);
    lemma_run_fills(keys, run, header.width);
    assert(statement_of(run).fits(header.depth as nat));
}

/// The lines of runs that lie end to end are read one after the other, and
/// fill the memory with the keys.
proof fn lemma_content_reads(
    text: Seq<u8>,
    pos: int,
    header: Header,
    runs: Seq<Run>,
    keys: Seq<ValueKey>,
    j: int,
)
    requires
        0 <= pos < text.len(),
        text[pos] == '\n' as u8,
        acceptable(header),
        keys.len() == header.depth,
        tiles(runs, keys),
        forall|address: int|
            0 <= address < keys.len() ==> plain(#[trigger] keys[address], header.width as nat),
        0 <= j <= runs.len(),
        has_word(text, pos + 1, tail_of(runs, j, header)),
    ensures
        content_end(
            text,
            pos,
            header,
            filled(keys, reached(runs, keys, j), header.width as nat),
        ) == Ok::<Memory, ParseError>(filled(keys, keys.len() as int, header.width as nat)),
    decreases runs.len() - j,
{
    lemma_tail_front(runs, j, header);
    if j == runs.len() {
        lemma_closing_reads(
            text,
            pos,
            header,
            filled(keys, reached(runs, keys, j), header.width as nat),
        );
    } else {
        let run = runs[j];
        lemma_run_ends_inside(runs, keys, j);
        assert(run.start <= run.end);
        assert(keys[run.start as int] == run.key);
        lemma_line_step(text, pos, header, run, keys, tail_of(runs, j + 1, header));
        assert(reached(runs, keys, j + 1) == run.end + 1) by {
            if j + 1 == runs.len() {
                assert(runs.last() == run);
            } else {
                assert(runs[j + 1].start == runs[j].end + 1);
            }
        }
        lemma_content_reads(text, pos + line_of(run, header).len(), header, runs, keys, j + 1);
    }
}

/// Every run of runs that lie end to end ends inside the keys.
proof fn lemma_run_ends_inside(runs: Seq<Run>, keys: Seq<ValueKey>, j: int)
    requires
        tiles(runs, keys),
        0 <= j < runs.len(),
    ensures
        runs[j].end < keys.len(),
    decreases runs.len() - j,
{
    if j + 1 < runs.len() {
        lemma_run_ends_inside(runs, keys, j + 1);
        assert(runs[j + 1].start == runs[j].end + 1);
        assert(runs[j + 1].start <= runs[j + 1].end);
    } else {
        assert(runs.last() == runs[j]);
    }
}

/// A header and lines that lie end to end over some keys are read as the
/// memory that holds the keys.
proof fn lemma_whole_reads(header: Header, runs: Seq<Run>, keys: Seq<ValueKey>)
    requires
        acceptable(header),
        keys.len() == header.depth,
        tiles(runs, keys),
        forall|address: int|
            0 <= address < keys.len() ==> plain(#[trigger] keys[address], header.width as nat),
    ensures
        decode_text(
            header_text(
                header.depth as nat,
                header.width as nat,
                header.address_radix,
                header.data_radix,
            ) + tail_of(runs, 0, header),
        ) == Ok::<Memory, ParseError>(filled(keys, keys.len() as int, header.width as nat)),
{
    let top = header_text(
        header.depth as nat,
        header.width as nat,
        header.address_radix,
        header.data_radix,
    );
    let text = top + tail_of(runs, 0, header);
    assert(text.subrange(0, text.len() as int) =~= text);
    lemma_word_parts(text, 0, top, tail_of(runs, 0, header));
    lemma_header_reads(text, header);
    assert(top.len() >= 14) by {
        lemma_header_layout(header);
    }
    assert(filled(keys, 0, header.width as nat).cells =~= Memory::blank(
        header.width as nat,
        header.depth as nat,
    ).cells);
    assert(reached(runs, keys, 0) == 0);
    lemma_tail_front(runs, 0, header);
    lemma_content_reads(text, top.len() - 1, header, runs, keys, 0);
}

/// A header, the lines of runs that lie end to end over some keys, and the
/// closing word decode to the memory that holds the keys.
pub proof fn lemma_lines_decode(header: Header, runs: Seq<Run>, keys: Seq<ValueKey>)
    requires
        acceptable(header),
        keys.len() == header.depth,
        tiles(runs, keys),
        forall|address: int|
            0 <= address < keys.len() ==> plain(#[trigger] keys[address], header.width as nat),
    ensures
        decode_text(
            header_text(
                header.depth as nat,
                header.width as nat,
                header.address_radix,
                header.data_radix,
            ) + lines_text(runs, header.address_radix, header.data_radix, header.width as nat)
                + end_word() + Expected::Semicolon.word(),
        ) == Ok::<Memory, ParseError>(filled(keys, keys.len() as int, header.width as nat)),
{
    let top = header_text(
        header.depth as nat,
        header.width as nat,
        header.address_radix,
        header.data_radix,
    );
    let lines = lines_text(runs, header.address_radix, header.data_radix, header.width as nat);
    lemma_whole_reads(header, runs, keys);
    assert(top + lines + end_word() + Expected::Semicolon.word() == top + tail_of(
        runs,
        0,
        header,
    )) by {
        reveal(tail_of);
        reveal(closing);
        assert(runs.subrange(0, runs.len() as int) =~= runs);
        assert(top + lines + end_word() + Expected::Semicolon.word() =~= top + (lines + (
        end_word() + Expected::Semicolon.word())));
    }
}

/// The keys of some indexed values.
pub open spec fn keys_alone(pairs: Seq<(usize, ValueKey)>) -> Seq<ValueKey> {
    Seq::new(pairs.len(), |i: int| pairs[i].1)
}

/// Whether the values are indexed by their places: 0, 1, 2 and so on.
pub open spec fn counted(pairs: Seq<(usize, ValueKey)>) -> bool {
    forall|i: int| 0 <= i < pairs.len() ==> (#[trigger] pairs[i]).0 == i
}

/// The runs of values that are indexed by their places lie end to end over
/// the values.
pub proof fn lemma_runs_tile(pairs: Seq<(usize, ValueKey)>)
    requires
        counted(pairs),
    ensures
        tiles(runs_of(pairs), keys_alone(pairs)),
    decreases pairs.len(),
{
    if pairs.len() > 0 {
        let shorter = pairs.drop_last();
        let earlier = runs_of(shorter);
        let runs = runs_of(pairs);
        let keys = keys_alone(pairs);
        let (index, key) = pairs.last();
        assert(counted(shorter));
        lemma_runs_tile(shorter);
        assert forall|address: int| 0 <= address < shorter.len() implies keys_alone(
            shorter,
        )[address] == keys[address] by {}
        if earlier.len() > 0 && continues(earlier.last(), index, key) {
            let merged = Run { start: earlier.last().start, end: index, key };
            assert(runs == earlier.drop_last().push(merged));
            assert forall|j: int| 0 <= j < runs.len() implies (#[trigger] runs[j]).start
                <= runs[j].end by {
                if j < runs.len() - 1 {
                    assert(runs[j] == earlier[j]);
                }
            }
            assert forall|j: int| 0 <= j && j + 1 < runs.len() implies (#[trigger] runs[j
                + 1]).start == runs[j].end + 1 by {
                assert(runs[j] == earlier[j]);
                assert(earlier[j + 1].start == earlier[j].end + 1);
            }
            assert forall|j: int, address: int|
                0 <= j < runs.len() && (#[trigger] runs[j]).start <= address
                    <= runs[j].end implies #[trigger] keys[address] == runs[j].key by {
                if j < runs.len() - 1 {
                    assert(runs[j] == earlier[j]);
                    lemma_run_ends_inside(earlier, keys_alone(shorter), j);
                    assert(keys_alone(shorter)[address] == earlier[j].key);
                } else if address < index {
                    assert(keys_alone(shorter)[address] == earlier.last().key);
                }
            }
        } else {
            let single = Run { start: index, end: index, key };
            assert(runs == earlier.push(single));
            assert forall|j: int| 0 <= j < runs.len() implies (#[trigger] runs[j]).start
                <= runs[j].end by {
                if j < runs.len() - 1 {
                    assert(runs[j] == earlier[j]);
                }
            }
            assert forall|j: int| 0 <= j && j + 1 < runs.len() implies (#[trigger] runs[j
                + 1]).start == runs[j].end + 1 by {
                assert(runs[j] == earlier[j]);
                if j + 1 < earlier.len() {
                    assert(earlier[j + 1].start == earlier[j].end + 1);
                } else {
                    assert(earlier.last() == earlier[j]);
                }
            }
            assert forall|j: int, address: int|
                0 <= j < runs.len() && (#[trigger] runs[j]).start <= address
                    <= runs[j].end implies #[trigger] keys[address] == runs[j].key by {
                if j < runs.len() - 1 {
                    assert(runs[j] == earlier[j]);
                    lemma_run_ends_inside(earlier, keys_alone(shorter), j);
                    assert(keys_alone(shorter)[address] == earlier[j].key);
                }
            }
        }
    }
}

/// The cells that hold the bit patterns of some numbers.
pub open spec fn cells_of<T: ToMif>(data: Seq<T>) -> Seq<usize> {
    Seq::new(data.len(), |address: int| data[address].bit_pattern() as usize)
}

/// Whether a document is one whose text the reader takes: at least one
/// number and no more than a header may ask for, cells of one bit up to a
/// machine word, and bases that a text can be read in.
pub open spec fn decodable<T: ToMif>(document: Document<T>) -> bool {
    &&& 0 < document.data.len() <= max_depth()
    &&& 0 < T::WIDTH <= usize::BITS
    &&& readable(document.address_radix)
    &&& readable(document.data_radix)
}

/// Each number on a line of its own.
pub open spec fn flat_runs(pairs: Seq<(usize, ValueKey)>) -> Seq<Run> {
    Seq::new(pairs.len(), |i: int| Run { start: pairs[i].0, end: pairs[i].0, key: pairs[i].1 })
}

/// The text of a document that gives every address a line of its own.
pub open spec fn flat_text<T: ToMif>(document: Document<T>) -> Seq<u8> {
    header_text(
        document.data.len(),
        T::WIDTH as nat,
        document.address_radix,
        document.data_radix,
    ) + lines_text(
        flat_runs(keys_of(document.data, document.data_radix)),
        document.address_radix,
        document.data_radix,
        T::WIDTH as nat,
    ) + end_word() + Expected::Semicolon.word()
}

/// The header of a document and the keys of its numbers are such as the
/// reader takes.
proof fn lemma_document_keys<T: ToMif>(document: Document<T>)
    requires
        decodable(document),
    ensures
        counted(keys_of(document.data, document.data_radix)),
        forall|address: int|
            0 <= address < document.data.len() ==> plain(
                #[trigger] keys_alone(keys_of(document.data, document.data_radix))[address],
                T::WIDTH as nat,
            ),
        filled(
            keys_alone(keys_of(document.data, document.data_radix)),
            document.data.len() as int,
            T::WIDTH as nat,
        ) == (Memory { width: T::WIDTH as nat, cells: cells_of(document.data) }),
{
    let pairs = keys_of(document.data, document.data_radix);
    let keys = keys_alone(pairs);
    lemma_pow2_strictly_increases_or_same(T::WIDTH as nat);
    lemma_header_shape_fits();
    assert forall|address: int| 0 <= address < document.data.len() implies plain(
        #[trigger] keys[address],
        T::WIDTH as nat,
    ) && keys[address].magnitude == document.data[address].bit_pattern() by {
        document.data[address].lemma_bits_fit();
    }
    assert(filled(keys, document.data.len() as int, T::WIDTH as nat).cells =~= cells_of(
        document.data,
    ));
}

/// The largest depth is a number that a machine word can hold.
proof fn lemma_header_shape_fits()
    ensures
        max_depth() <= usize::MAX,
{
    vstd::arithmetic::div_mod::lemma_div_nonincreasing(usize::MAX as int, usize::BITS as int);
}

/// What is written can be read: the text of a document decodes to the memory
/// whose cells hold, address by address, the bit patterns of the document's
/// numbers. This holds of every pair of bases that a text can be read in and
/// of every width up to a machine word.
pub proof fn lemma_round_trip<T: ToMif>(document: Document<T>)
    requires
        decodable(document),
    ensures
        decode_text(document.text()) == Ok::<Memory, ParseError>(
            Memory { width: T::WIDTH as nat, cells: cells_of(document.data) },
        ),
{
    let pairs = keys_of(document.data, document.data_radix);
    let header = Header {
        width: T::WIDTH,
        depth: document.data.len() as usize,
        address_radix: document.address_radix,
        data_radix: document.data_radix,
    };
    lemma_header_shape_fits();
    lemma_document_keys(document);
    lemma_runs_tile(pairs);
    lemma_lines_decode(header, runs_of(pairs), keys_alone(pairs));
}

/// A document decodes to the same memory whether its equal neighbours are
/// taken together in ranges or every address has a line of its own.
pub proof fn lemma_ranges_read_like_single_lines<T: ToMif>(document: Document<T>)
    requires
        decodable(document),
    ensures
        decode_text(document.text()) == decode_text(flat_text(document)),
        decode_text(flat_text(document)) == Ok::<Memory, ParseError>(
            Memory { width: T::WIDTH as nat, cells: cells_of(document.data) },
        ),
{
    let pairs = keys_of(document.data, document.data_radix);
    let header = Header {
        width: T::WIDTH,
        depth: document.data.len() as usize,
        address_radix: document.address_radix,
        data_radix: document.data_radix,
    };
    lemma_header_shape_fits();
    lemma_document_keys(document);
    lemma_round_trip(document);
    lemma_flat_tiles(pairs);
    lemma_lines_decode(header, flat_runs(pairs), keys_alone(pairs));
}

/// Lines of one address each lie end to end over the values.
proof fn lemma_flat_tiles(pairs: Seq<(usize, ValueKey)>)
    requires
        counted(pairs),
    ensures
        tiles(flat_runs(pairs), keys_alone(pairs)),
{
    let flat = flat_runs(pairs);
    let keys = keys_alone(pairs);
    assert(flat.len() == pairs.len());
    if flat.len() > 0 {
        assert(flat.last() == flat[flat.len() - 1]);
        assert(flat[0].start == pairs[0].0);
    }
    assert forall|j: int| 0 <= j < flat.len() implies (#[trigger] flat[j]).start
        <= flat[j].end by {}
    assert forall|j: int| 0 <= j && j + 1 < flat.len() implies (#[trigger] flat[j + 1]).start
        == flat[j].end + 1 by {
        assert(flat[j].end == pairs[j].0);
        assert(flat[j + 1].start == pairs[j + 1].0);
    }
    assert forall|j: int, address: int|
        0 <= j < flat.len() && (#[trigger] flat[j]).start <= address
            <= flat[j].end implies #[trigger] keys[address] == flat[j].key by {
        assert(flat[j].start == pairs[j].0);
        assert(address == j);
    }
}

/// A document of no numbers has no lines: its text is the header and,
/// right behind it, the closing word.
pub proof fn lemma_no_numbers_no_lines<T: ToMif>(document: Document<T>)
    requires
        document.data.len() == 0,
    ensures
        document.text() == header_text(
            0,
            T::WIDTH as nat,
            document.address_radix,
            document.data_radix,
        ) + end_word() + Expected::Semicolon.word(),
{
    let pairs = keys_of(document.data, document.data_radix);
    assert(pairs.len() == 0);
    assert(runs_of(pairs).len() == 0);
    let top = header_text(0, T::WIDTH as nat, document.address_radix, document.data_radix);
    let lines = lines_text(
        runs_of(pairs),
        document.address_radix,
        document.data_radix,
        T::WIDTH as nat,
    );
    assert(lines.len() == 0);
    assert(top + lines =~= top);
}

/// The cells of the integer types of up to thirty-two bits, and of the
/// types as wide as a machine word, are cells that a text can be read
/// into.
pub proof fn lemma_widths_fit()
    ensures
        0 < <u8 as ToMif>::WIDTH <= usize::BITS,
        0 < <i8 as ToMif>::WIDTH <= usize::BITS,
        0 < <u16 as ToMif>::WIDTH <= usize::BITS,
        0 < <i16 as ToMif>::WIDTH <= usize::BITS,
        0 < <u32 as ToMif>::WIDTH <= usize::BITS,
        0 < <i32 as ToMif>::WIDTH <= usize::BITS,
        0 < <usize as ToMif>::WIDTH <= usize::BITS,
        0 < <isize as ToMif>::WIDTH <= usize::BITS,
        usize::BITS == 64 ==> <u64 as ToMif>::WIDTH <= usize::BITS && <i64 as ToMif>::WIDTH
            <= usize::BITS,
{
    crate::value::lemma_width_u8();
    crate::value::lemma_width_i8();
    crate::value::lemma_width_u16();
    crate::value::lemma_width_i16();
    crate::value::lemma_width_u32();
    crate::value::lemma_width_i32();
    crate::value::lemma_width_u64();
    crate::value::lemma_width_i64();
    crate::value::lemma_width_usize();
    crate::value::lemma_width_isize();
}

} // verus!
