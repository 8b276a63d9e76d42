//! The text that the writer writes is ASCII: as a string and as bytes it is
//! the same, so that what is written as a string is read back from it.

use vstd::prelude::*;
use vstd::utf8::{encode_utf8, is_ascii_chars, is_ascii_chars_encode_utf8};
use crate::buffer::Memory;
use crate::content::{end_word, open_bracket};
use crate::decoder::decode_text;
use crate::error::{Expected, HeaderField, ParseError};
use crate::numeral::{numeral, zero_padded};
use crate::radix::{ascii_chars, Radix};
use crate::reading::lemma_padded;
use crate::roundtrip::{cells_of, decodable, lemma_round_trip};
use crate::runs::Run;
use crate::value::{ToMif, ValueKey};
use crate::writer::{
    address_text, attribute_text, header_text, line_text, lines_text, newline, pad_width,
    value_text, Document,
};

verus! {

/// Whether every byte is an ASCII character.
pub open spec fn all_ascii(bytes: Seq<u8>) -> bool {
    forall|i: int| 0 <= i < bytes.len() ==> #[trigger] bytes[i] < 128
}

/// ASCII behind ASCII is ASCII.
pub proof fn lemma_ascii_joined(first: Seq<u8>, second: Seq<u8>)
    requires
        all_ascii(first),
        all_ascii(second),
    ensures
        all_ascii(first + second),
{
    assert forall|i: int| 0 <= i < (first + second).len() implies #[trigger] (first
        + second)[i] < 128 by {
        if i < first.len() {
            assert((first + second)[i] == first[i]);
        } else {
            assert((first + second)[i] == second[i - first.len()]);
        }
    }
}

/// The bytes of an ASCII text, taken as characters and encoded again, are
/// the same bytes.
pub proof fn lemma_ascii_encodes(bytes: Seq<u8>)
    requires
        all_ascii(bytes),
    ensures
        encode_utf8(ascii_chars(bytes)) == bytes,
{
    let chars = ascii_chars(bytes);
    assert(is_ascii_chars(chars)) by {
        assert forall|i: int| 0 <= i < chars.len() implies '\0' <= #[trigger] chars[i]
            <= '\u{7f}' by {
            assert(bytes[i] < 128);
        }
    }
    is_ascii_chars_encode_utf8(chars);
    assert(encode_utf8(chars) =~= bytes) by {
        assert forall|i: int| 0 <= i < bytes.len() implies encode_utf8(chars)[i] == bytes[i] by {
            assert(bytes[i] < 128);
            assert(chars[i] as u8 == encode_utf8(chars)[i]);
        }
    }
}

proof fn lemma_ascii_number(value: nat, radix: Radix, width: nat)
    ensures
        all_ascii(zero_padded(numeral(value, radix.base()), width)),
        all_ascii(address_text(value, radix, width)),
{
    lemma_padded(value, radix, width);
    lemma_padded(value, radix, pad_width(radix, width));
    let digits = zero_padded(numeral(value, radix.base()), width);
    assert forall|i: int| 0 <= i < digits.len() implies #[trigger] digits[i] < 128 by {
        assert(radix.is_digit(digits[i]));
    }
    let padded = address_text(value, radix, width);
    assert forall|i: int| 0 <= i < padded.len() implies #[trigger] padded[i] < 128 by {
        assert(radix.is_digit(padded[i]));
    }
}

proof fn lemma_ascii_token(token: Expected)
    ensures
        all_ascii(token.word()),
{
}

proof fn lemma_ascii_field(field: HeaderField)
    ensures
        all_ascii(field.word()),
{
}

proof fn lemma_ascii_keyword(radix: Radix)
    ensures
        all_ascii(radix.keyword_text()),
{
}

proof fn lemma_ascii_attribute(field: HeaderField, value: Seq<u8>)
    requires
        all_ascii(value),
    ensures
        all_ascii(attribute_text(field, value)),
{
    lemma_ascii_field(field);
    lemma_ascii_token(Expected::Equals);
    lemma_ascii_token(Expected::Semicolon);
    let name = field.word();
    let equals = Expected::Equals.word();
    let semicolon = Expected::Semicolon.word();
    lemma_ascii_joined(name, equals);
    lemma_ascii_joined(name + equals, value);
    lemma_ascii_joined(name + equals + value, semicolon);
    lemma_ascii_joined(name + equals + value + semicolon, newline());
}

proof fn lemma_ascii_header(depth: nat, width: nat, address_radix: Radix, data_radix: Radix)
    ensures
        all_ascii(header_text(depth, width, address_radix, data_radix)),
{
    reveal(header_text);
    lemma_ascii_number(depth, Radix::Uns, 0);
    lemma_ascii_number(width, Radix::Uns, 0);
    lemma_ascii_keyword(address_radix);
    lemma_ascii_keyword(data_radix);
    let first = attribute_text(HeaderField::Depth, numeral(depth, 10));
    let second = attribute_text(HeaderField::Width, numeral(width, 10));
    let third = attribute_text(HeaderField::AddressRadix, address_radix.keyword_text());
    let fourth = attribute_text(HeaderField::DataRadix, data_radix.keyword_text());
    lemma_ascii_attribute(HeaderField::Depth, numeral(depth, 10));
    lemma_ascii_attribute(HeaderField::Width, numeral(width, 10));
    lemma_ascii_attribute(HeaderField::AddressRadix, address_radix.keyword_text());
    lemma_ascii_attribute(HeaderField::DataRadix, data_radix.keyword_text());
    lemma_ascii_token(Expected::Content);
    lemma_ascii_token(Expected::Begin);
    let space = seq![' ' as u8];
    lemma_ascii_joined(first, second);
    lemma_ascii_joined(first + second, third);
    lemma_ascii_joined(first + second + third, fourth);
    let lines = first + second + third + fourth;
    lemma_ascii_joined(lines, Expected::Content.word());
    lemma_ascii_joined(lines + Expected::Content.word(), space);
    lemma_ascii_joined(lines + Expected::Content.word() + space, Expected::Begin.word());
    lemma_ascii_joined(
        lines + Expected::Content.word() + space + Expected::Begin.word(),
        newline(),
    );
}

proof fn lemma_ascii_value(key: ValueKey, radix: Radix, width: nat)
    ensures
        all_ascii(value_text(key, radix, width)),
{
    lemma_ascii_number(key.magnitude as nat, radix, width);
    let sign = if key.negative {
        seq!['-' as u8]
    } else {
        Seq::<u8>::empty()
    };
    lemma_ascii_joined(sign, address_text(key.magnitude as nat, radix, width));
}

proof fn lemma_ascii_line(run: Run, address_radix: Radix, data_radix: Radix, width: nat)
    ensures
        all_ascii(line_text(run, address_radix, data_radix, width)),
{
    reveal(line_text);
    let first = address_text(run.start as nat, address_radix, width);
    let second = address_text(run.end as nat, address_radix, width);
    lemma_ascii_number(run.start as nat, address_radix, width);
    lemma_ascii_number(run.end as nat, address_radix, width);
    lemma_ascii_value(run.key, data_radix, width);
    lemma_ascii_token(Expected::RangeDots);
    lemma_ascii_token(Expected::CloseBracket);
    lemma_ascii_token(Expected::Colon);
    lemma_ascii_token(Expected::Semicolon);
    let dots = Expected::RangeDots.word();
    let close = Expected::CloseBracket.word();
    lemma_ascii_joined(open_bracket(), first);
    lemma_ascii_joined(open_bracket() + first, dots);
    lemma_ascii_joined(open_bracket() + first + dots, second);
    lemma_ascii_joined(open_bracket() + first + dots + second, close);
    let place = if run.start == run.end {
        first
    } else {
        open_bracket() + first + dots + second + close
    };
    let value = value_text(run.key, data_radix, width);
    lemma_ascii_joined(place, Expected::Colon.word());
    lemma_ascii_joined(place + Expected::Colon.word(), value);
    lemma_ascii_joined(place + Expected::Colon.word() + value, Expected::Semicolon.word());
    lemma_ascii_joined(
        place + Expected::Colon.word() + value + Expected::Semicolon.word(),
        newline(),
    );
}

proof fn lemma_ascii_lines(runs: Seq<Run>, address_radix: Radix, data_radix: Radix, width: nat)
    ensures
        all_ascii(lines_text(runs, address_radix, data_radix, width)),
    decreases runs.len(),
{
    if runs.len() > 0 {
        lemma_ascii_lines(runs.drop_last(), address_radix, data_radix, width);
        lemma_ascii_line(runs.last(), address_radix, data_radix, width);
        lemma_ascii_joined(
            lines_text(runs.drop_last(), address_radix, data_radix, width),
            line_text(runs.last(), address_radix, data_radix, width),
        );
    }
}

/// The text of a document is ASCII.
pub proof fn lemma_text_is_ascii<T: ToMif>(document: Document<T>)
    ensures
        all_ascii(document.text()),
{
    let top = header_text(
        document.data.len(),
        T::WIDTH as nat,
        document.address_radix,
        document.data_radix,
    );
    let lines = lines_text(
        crate::runs::runs_of(crate::writer::keys_of(document.data, document.data_radix)),
        document.address_radix,
        document.data_radix,
        T::WIDTH as nat,
    );
    lemma_ascii_header(
        document.data.len(),
        T::WIDTH as nat,
        document.address_radix,
        document.data_radix,
    );
    lemma_ascii_lines(
        crate::runs::runs_of(crate::writer::keys_of(document.data, document.data_radix)),
        document.address_radix,
        document.data_radix,
        T::WIDTH as nat,
    );
    lemma_ascii_token(Expected::Semicolon);
    lemma_ascii_joined(top, lines);
    lemma_ascii_joined(top + lines, end_word());
    lemma_ascii_joined(top + lines + end_word(), Expected::Semicolon.word());
}

/// What is written as a string is read back from the string: the bytes of
/// the string that holds the text of a document decode to the memory whose
/// cells hold the bit patterns of the document's numbers.
pub proof fn lemma_string_round_trip<T: ToMif>(document: Document<T>)
    requires
        decodable(document),
    ensures
        encode_utf8(ascii_chars(document.text())) == document.text(),
        decode_text(encode_utf8(ascii_chars(document.text()))) == Ok::<Memory, ParseError>(
            Memory { width: T::WIDTH as nat, cells: cells_of(document.data) },
        ),
{
    lemma_text_is_ascii(document);
    lemma_ascii_encodes(document.text());
    lemma_round_trip(document);
}

} // verus!
