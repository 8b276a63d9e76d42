//! From numbers to text: the header, then one line for each run of equal
//! neighbours, then `END;`.

use vstd::prelude::*;
use vstd::string::*;
use crate::content::{end_word, open_bracket};
use crate::error::{Expected, HeaderField};
use crate::lexer::word_bytes;
use crate::numeral::{numeral, push_number, zero_padded};
use crate::radix::{ascii_bytes, ascii_chars, Radix};
use crate::runs::{group_runs, runs_of, Run};
use crate::value::{ToMif, ValueKey};

verus! {

/// The numbers of a memory together with the bases to write them in.
pub struct Mif<'a, T> {
    address_radix: Radix,
    data_radix: Radix,
    data: &'a [T],
}

/// What a [`Mif`] holds.
pub struct Document<T> {
    pub address_radix: Radix,
    pub data_radix: Radix,
    pub data: Seq<T>,
}

impl<'a, T> View for Mif<'a, T> {
    type V = Document<T>;

    closed spec fn view(&self) -> Document<T> {
        Document {
            address_radix: self.address_radix,
            data_radix: self.data_radix,
            data: self.data@,
        }
    }
}

/// The number of characters that a numeral is padded to with zeros: in
/// binary one for each bit of a cell, in hexadecimal one for each four bits
/// or part of four, in octal one more than the whole threes of bits; a
/// decimal numeral is never padded.
pub open spec fn pad_width(radix: Radix, width: nat) -> nat {
    match radix {
        Radix::Bin => width,
        Radix::Hex => (width + 3) / 4,
        Radix::Oct => width / 3 + 1,
        Radix::Uns | Radix::Dec => 0,
    }
}

/// An address as the text shows it. An address has no sign, so the two
/// decimal bases show it alike.
pub open spec fn address_text(index: nat, radix: Radix, width: nat) -> Seq<u8> {
    zero_padded(numeral(index, radix.base()), pad_width(radix, width))
}

/// A value as the text shows it: a hyphen if it is below zero, then its
/// magnitude.
pub open spec fn value_text(key: ValueKey, radix: Radix, width: nat) -> Seq<u8> {
    let sign = if key.negative {
        seq!['-' as u8]
    } else {
        Seq::empty()
    };
    sign + zero_padded(numeral(key.magnitude as nat, radix.base()), pad_width(radix, width))
}

/// The end of a line.
pub open spec fn newline() -> Seq<u8> {
    seq!['\n' as u8]
}

/// The line of a run: its address, or for a run of several addresses the
/// first and the last in brackets; then a colon, the value and a
/// semicolon.
#[verifier::opaque]
pub open spec fn line_text(run: Run, address_radix: Radix, data_radix: Radix, width: nat) -> Seq<
    u8,
> {
    let place = if run.start == run.end {
        address_text(run.start as nat, address_radix, width)
    } else {
        open_bracket() + address_text(run.start as nat, address_radix, width)
            + Expected::RangeDots.word() + address_text(run.end as nat, address_radix, width)
            + Expected::CloseBracket.word()
    };
    place + Expected::Colon.word() + value_text(run.key, data_radix, width)
        + Expected::Semicolon.word() + newline()
}

/// The lines of some runs, one after the other.
pub open spec fn lines_text(
    runs: Seq<Run>,
    address_radix: Radix,
    data_radix: Radix,
    width: nat,
) -> Seq<u8>
    decreases runs.len(),
{
    if runs.len() == 0 {
        Seq::empty()
    } else {
        lines_text(runs.drop_last(), address_radix, data_radix, width) + line_text(
            runs.last(),
            address_radix,
            data_radix,
            width,
        )
    }
}

/// One attribute of the header on a line of its own.
pub open spec fn attribute_text(field: HeaderField, value: Seq<u8>) -> Seq<u8> {
    field.word() + Expected::Equals.word() + value + Expected::Semicolon.word() + newline()
}

/// The header and the opening of the content block.
#[verifier::opaque]
pub open spec fn header_text(depth: nat, width: nat, address_radix: Radix, data_radix: Radix)
    -> Seq<u8> {
    attribute_text(HeaderField::Depth, numeral(depth, 10)) + attribute_text(
        HeaderField::Width,
        numeral(width, 10),
    ) + attribute_text(HeaderField::AddressRadix, address_radix.keyword_text()) + attribute_text(
        HeaderField::DataRadix,
        data_radix.keyword_text(),
    ) + Expected::Content.word() + seq![' ' as u8] + Expected::Begin.word() + newline()
}

/// The key of a signed number.
pub open spec fn signed_key(value: int) -> ValueKey {
    if value < 0 {
        ValueKey { negative: true, magnitude: (-value) as u128 }
    } else {
        ValueKey { negative: false, magnitude: value as u128 }
    }
}

/// The key by which a number is compared and printed: its signed value
/// where the values are written as signed decimals, its bit pattern
/// everywhere else.
pub open spec fn key_of<T: ToMif>(value: T, data_radix: Radix) -> ValueKey {
    if data_radix == Radix::Dec {
        signed_key(value.signed_value())
    } else {
        ValueKey { negative: false, magnitude: value.bit_pattern() as u128 }
    }
}

/// The numbers with their addresses and keys.
pub open spec fn keys_of<T: ToMif>(data: Seq<T>, data_radix: Radix) -> Seq<(usize, ValueKey)> {
    Seq::new(data.len(), |i: int| (i as usize, key_of(data[i], data_radix)))
}

impl<T: ToMif> Document<T> {
    /// The text of the document.
    pub open spec fn text(self) -> Seq<u8> {
        header_text(self.data.len(), T::WIDTH as nat, self.address_radix, self.data_radix)
            + lines_text(
            runs_of(keys_of(self.data, self.data_radix)),
            self.address_radix,
            self.data_radix,
            T::WIDTH as nat,
        ) + end_word() + Expected::Semicolon.word()
    }
}

/// Appends a word of the format.
fn push_word(out: &mut Vec<u8>, word: &'static str)
    requires
        word.is_ascii(),
    ensures
        final(out)@ == old(out)@ + ascii_bytes(word@),
{
    let bytes = word_bytes(word);
    let mut i: usize = 0;
    while i < bytes.len()
        invariant
            i <= bytes@.len(),
            out@ == old(out)@ + bytes@.subrange(0, i as int),
        decreases bytes@.len() - i,
    {
        out.push(bytes[i]);
        i += 1;
        proof {
            assert(out@ =~= old(out)@ + bytes@.subrange(0, i as int));
        }
    }
    proof {
        assert(bytes@.subrange(0, i as int) =~= bytes@);
    }
}

/// The number of characters to pad a numeral to.
fn padding(radix: Radix, width: usize) -> (pad: usize)
    ensures
        pad == pad_width(radix, width as nat),
{
    match radix {
        Radix::Bin => width,
        Radix::Hex => if width % 4 == 0 {
            width / 4
        } else {
            width / 4 + 1
        },
        Radix::Oct => width / 3 + 1,
        Radix::Uns | Radix::Dec => 0,
    }
}

fn push_attribute_start(out: &mut Vec<u8>, field: HeaderField)
    ensures
        final(out)@ == old(out)@ + field.word() + Expected::Equals.word(),
{
    push_word(out, field.name());
    push_word(out, Expected::Equals.describe());
}

fn push_attribute_end(out: &mut Vec<u8>)
    ensures
        final(out)@ == old(out)@ + Expected::Semicolon.word() + newline(),
{
    push_word(out, Expected::Semicolon.describe());
    out.push('\n' as u8);
    proof {
        assert(out@ =~= old(out)@ + Expected::Semicolon.word() + newline());
    }
}

fn push_count(out: &mut Vec<u8>, field: HeaderField, count: usize)
    ensures
        final(out)@ == old(out)@ + attribute_text(field, numeral(count as nat, 10)),
{
    push_attribute_start(out, field);
    push_number(out, count as u128, Radix::Uns, 0);
    push_attribute_end(out);
    proof {
        let digits = numeral(count as nat, 10);
        assert(zero_padded(digits, 0) == digits);
        assert(out@ =~= old(out)@ + attribute_text(field, digits));
    }
}

fn push_radix(out: &mut Vec<u8>, field: HeaderField, radix: Radix)
    ensures
        final(out)@ == old(out)@ + attribute_text(field, radix.keyword_text()),
{
    push_attribute_start(out, field);
    push_word(out, radix.keyword());
    push_attribute_end(out);
    proof {
        assert(out@ =~= old(out)@ + attribute_text(field, radix.keyword_text()));
    }
}

fn push_header(out: &mut Vec<u8>, depth: usize, width: usize, address_radix: Radix, data_radix: Radix)
    ensures
        final(out)@ == old(out)@ + header_text(
            depth as nat,
            width as nat,
            address_radix,
            data_radix,
        ),
{
    push_count(out, HeaderField::Depth, depth);
    push_count(out, HeaderField::Width, width);
    push_radix(out, HeaderField::AddressRadix, address_radix);
    push_radix(out, HeaderField::DataRadix, data_radix);
    push_word(out, Expected::Content.describe());
    out.push(' ' as u8);
    push_word(out, Expected::Begin.describe());
    out.push('\n' as u8);
    proof {
        reveal(header_text);
        assert(out@ =~= old(out)@ + header_text(
            depth as nat,
            width as nat,
            address_radix,
            data_radix,
        ));
    }
}

fn push_address(out: &mut Vec<u8>, index: usize, radix: Radix, width: usize)
    ensures
        final(out)@ == old(out)@ + address_text(index as nat, radix, width as nat),
{
    push_number(out, index as u128, radix, padding(radix, width));
}

fn push_value(out: &mut Vec<u8>, key: ValueKey, radix: Radix, width: usize)
    ensures
        final(out)@ == old(out)@ + value_text(key, radix, width as nat),
{
    if key.negative {
        out.push('-' as u8);
    }
    push_number(out, key.magnitude, radix, padding(radix, width));
    proof {
        assert(out@ =~= old(out)@ + value_text(key, radix, width as nat));
    }
}

fn push_line(out: &mut Vec<u8>, run: Run, address_radix: Radix, data_radix: Radix, width: usize)
    ensures
        final(out)@ == old(out)@ + line_text(run, address_radix, data_radix, width as nat),
{
    if run.start == run.end {
        push_address(out, run.start, address_radix, width);
    } else {
        out.push('[' as u8);
        push_address(out, run.start, address_radix, width);
        push_word(out, Expected::RangeDots.describe());
        push_address(out, run.end, address_radix, width);
        push_word(out, Expected::CloseBracket.describe());
    }
    push_word(out, Expected::Colon.describe());
    push_value(out, run.key, data_radix, width);
    push_word(out, Expected::Semicolon.describe());
    out.push('\n' as u8);
    proof {
        reveal(line_text);
        assert(out@ =~= old(out)@ + line_text(run, address_radix, data_radix, width as nat));
    }
}

/// `String::push` of the standard library: the string afterwards is the
/// string before with the one character added at its end.
#[verifier::external_body]
fn push_char(text: &mut String, character: char)
    ensures
        final(text)@ == old(text)@.push(character),
{
    text.push(character)
}

/// The characters for some bytes, one for each.
pub fn to_text(bytes: &[u8]) -> (text: String)
    ensures
        text@ == ascii_chars(bytes@),
{
    let mut text = String::new();
    let mut i: usize = 0;
    while i < bytes.len()
        invariant
            i <= bytes@.len(),
            text@ == ascii_chars(bytes@.subrange(0, i as int)),
        decreases bytes@.len() - i,
    {
        push_char(&mut text, bytes[i] as char);
        i += 1;
        proof {
            assert(text@ =~= ascii_chars(bytes@.subrange(0, i as int)));
        }
    }
    proof {
        assert(bytes@.subrange(0, i as int) =~= bytes@);
    }
    text
}

impl<'a, T: ToMif> Mif<'a, T> {
    /// The numbers of a memory, to be written with addresses and values in
    /// the given bases.
    pub fn new(data: &'a [T], address_radix: Radix, data_radix: Radix) -> (mif: Self)
        ensures
            mif@ == (Document { address_radix, data_radix, data: data@ }),
    {
        Self { data, address_radix, data_radix }
    }

    /// The key of each number with its address.
    fn keys(&self) -> (keys: Vec<(usize, ValueKey)>)
        ensures
            keys@ == keys_of(self@.data, self@.data_radix),
    {
        let mut keys: Vec<(usize, ValueKey)> = Vec::new();
        let mut i: usize = 0;
        while i < self.data.len()
            invariant
                i <= self.data@.len(),
                keys@ == keys_of(self@.data, self@.data_radix).subrange(0, i as int),
            decreases self.data@.len() - i,
        {
            let key = match self.data_radix {
                Radix::Dec => self.data[i].signed(),
                _ => ValueKey::unsigned(self.data[i].bits()),
            };
            keys.push((i, key));
            i += 1;
            proof {
                assert(keys@ =~= keys_of(self@.data, self@.data_radix).subrange(0, i as int));
            }
        }
        proof {
            let all = keys_of(self@.data, self@.data_radix);
            assert(all.subrange(0, i as int) =~= all);
        }
        keys
    }

    /// The text as bytes.
    pub fn encode_bytes(&self) -> (text: Vec<u8>)
        ensures
            text@ == self@.text(),
    {
        let mut out: Vec<u8> = Vec::new();
        push_header(&mut out, self.data.len(), T::WIDTH, self.address_radix, self.data_radix);
        let ghost header = out@;
        let keys = self.keys();
        let runs = group_runs(keys.as_slice());
        let mut done: usize = 0;
        proof {
            assert(runs@.subrange(0, 0) =~= Seq::empty());
            assert(out@ =~= header + lines_text(
                runs@.subrange(0, 0),
                self.address_radix,
                self.data_radix,
                T::WIDTH as nat,
            ));
        }
        while done < runs.len()
            invariant
                done <= runs@.len(),
                out@ == header + lines_text(
                    runs@.subrange(0, done as int),
                    self.address_radix,
                    self.data_radix,
                    T::WIDTH as nat,
                ),
            decreases runs@.len() - done,
        {
            push_line(&mut out, runs[done], self.address_radix, self.data_radix, T::WIDTH);
            proof {
                assert(runs@.subrange(0, done + 1).drop_last() =~= runs@.subrange(
                    0,
                    done as int,
                ));
            }
            done += 1;
        }
        out.push('E' as u8);
        out.push('N' as u8);
        out.push('D' as u8);
        push_word(&mut out, Expected::Semicolon.describe());
        proof {
            assert(runs@.subrange(0, done as int) =~= runs@);
            assert(out@ =~= self@.text());
        }
        out
    }

    /// The text: the header, then the lines, then `END;`.
    pub fn encode(&self) -> (text: String)
        ensures
            text@ == ascii_chars(self@.text()),
    {
        let bytes = self.encode_bytes();
        to_text(bytes.as_slice())
    }
}

} // verus!
