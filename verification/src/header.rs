//! The header: four attributes, in any order and as often as the text
//! likes, the last value of each being the one that counts.

use vstd::prelude::*;
use crate::error::{Expected, HeaderField, ParseError};
use crate::lexer::{
    expect, has_word, lemma_token_end_bounds, lemma_trivia_end_bounds, skip_trivia, starts_with,
    token_end, trivia_end, word_bytes,
};
use crate::numeral::{lemma_digits_end_bounds, number_at, read_number};
use crate::radix::Radix;

verus! {

/// The shape of a memory and the bases its text is written in.
#[derive(Clone, Copy, PartialEq, Eq, Debug, Structural)]
pub struct Header {
    /// The number of bits of a cell.
    pub width: usize,
    /// The number of cells.
    pub depth: usize,
    /// The base of the addresses.
    pub address_radix: Radix,
    /// The base of the values.
    pub data_radix: Radix,
}

/// One attribute with its value.
#[derive(Clone, Copy, PartialEq, Eq, Debug, Structural)]
pub enum Setting {
    Depth(usize),
    Width(usize),
    AddressRadix(Radix),
    DataRadix(Radix),
}

/// A header in the making: what has been set so far.
#[derive(Clone, Copy, Debug)]
pub struct HeaderDraft {
    pub depth: Option<usize>,
    pub width: Option<usize>,
    pub address_radix: Option<Radix>,
    pub data_radix: Option<Radix>,
}

/// The largest depth a header may ask for: that many cells of any width
/// have a bit count that fits a `usize`.
pub open spec fn max_depth() -> nat {
    (usize::MAX as nat) / (usize::BITS as nat)
}

impl HeaderDraft {
    /// The draft with nothing set.
    pub open spec fn empty() -> HeaderDraft {
        HeaderDraft { depth: None, width: None, address_radix: None, data_radix: None }
    }

    /// The draft after one more attribute: it takes the place of an earlier
    /// value of the same attribute and leaves the others alone.
    pub open spec fn with(self, setting: Setting) -> HeaderDraft {
        match setting {
            Setting::Depth(depth) => HeaderDraft { depth: Some(depth), ..self },
            Setting::Width(width) => HeaderDraft { width: Some(width), ..self },
            Setting::AddressRadix(radix) => HeaderDraft { address_radix: Some(radix), ..self },
            Setting::DataRadix(radix) => HeaderDraft { data_radix: Some(radix), ..self },
        }
    }

    /// The finished header, or the first attribute that is missing, asked
    /// for in the order depth, width, address radix, data radix.
    pub open spec fn complete(self) -> Result<Header, ParseError> {
        match self.depth {
            None => Err(ParseError::MissingHeaderField(HeaderField::Depth)),
            Some(depth) => match self.width {
                None => Err(ParseError::MissingHeaderField(HeaderField::Width)),
                Some(width) => match self.address_radix {
                    None => Err(ParseError::MissingHeaderField(HeaderField::AddressRadix)),
                    Some(address_radix) => match self.data_radix {
                        None => Err(ParseError::MissingHeaderField(HeaderField::DataRadix)),
                        Some(data_radix) => Ok(Header { width, depth, address_radix, data_radix }),
                    },
                },
            },
        }
    }

    /// A draft with nothing set.
    pub fn new() -> (draft: HeaderDraft)
        ensures
            draft == HeaderDraft::empty(),
    {
        HeaderDraft { depth: None, width: None, address_radix: None, data_radix: None }
    }

    /// Sets one attribute.
    pub fn set(&mut self, setting: Setting)
        ensures
            *final(self) == old(self).with(setting),
    {
        match setting {
            Setting::Depth(depth) => {
                self.depth = Some(depth);
            },
            Setting::Width(width) => {
                self.width = Some(width);
            },
            Setting::AddressRadix(radix) => {
                self.address_radix = Some(radix);
            },
            Setting::DataRadix(radix) => {
                self.data_radix = Some(radix);
            },
        }
    }

    /// Finishes the header, or names the first attribute that is missing.
    pub fn finish(&self) -> (header: Result<Header, ParseError>)
        ensures
            header == self.complete(),
    {
        let depth = match self.depth {
            Some(depth) => depth,
            None => {
                return Err(ParseError::MissingHeaderField(HeaderField::Depth));
            },
        };
        let width = match self.width {
            Some(width) => width,
            None => {
                return Err(ParseError::MissingHeaderField(HeaderField::Width));
            },
        };
        let address_radix = match self.address_radix {
            Some(radix) => radix,
            None => {
                return Err(ParseError::MissingHeaderField(HeaderField::AddressRadix));
            },
        };
        let data_radix = match self.data_radix {
            Some(radix) => radix,
            None => {
                return Err(ParseError::MissingHeaderField(HeaderField::DataRadix));
            },
        };
        Ok(Header { width, depth, address_radix, data_radix })
    }
}

/// The attribute whose name stands at `pos`, if one does.
pub open spec fn field_at(text: Seq<u8>, pos: int) -> Option<HeaderField> {
    if has_word(text, pos, HeaderField::Depth.word()) {
        Some(HeaderField::Depth)
    } else if has_word(text, pos, HeaderField::Width.word()) {
        Some(HeaderField::Width)
    } else if has_word(text, pos, HeaderField::AddressRadix.word()) {
        Some(HeaderField::AddressRadix)
    } else if has_word(text, pos, HeaderField::DataRadix.word()) {
        Some(HeaderField::DataRadix)
    } else {
        None
    }
}

/// The base whose keyword stands at `pos`, if it is one that a text can be
/// read in: `UNS`, `BIN`, `OCT` or `HEX`.
pub open spec fn radix_name_at(text: Seq<u8>, pos: int) -> Option<Radix> {
    if has_word(text, pos, Radix::Uns.keyword_text()) {
        Some(Radix::Uns)
    } else if has_word(text, pos, Radix::Bin.keyword_text()) {
        Some(Radix::Bin)
    } else if has_word(text, pos, Radix::Oct.keyword_text()) {
        Some(Radix::Oct)
    } else if has_word(text, pos, Radix::Hex.keyword_text()) {
        Some(Radix::Hex)
    } else {
        None
    }
}

/// The decimal number at `pos` if it lies in `1 ..= limit`, with its end.
pub open spec fn count_at(text: Seq<u8>, pos: int, limit: nat) -> Result<(usize, int), ParseError> {
    match number_at(text, pos, Radix::Uns) {
        Some((number, end)) => if 0 < number <= limit && number <= usize::MAX {
            Ok((number as usize, end))
        } else {
            Err(ParseError::MalformedLiteral(pos as usize))
        },
        None => Err(ParseError::MalformedLiteral(pos as usize)),
    }
}

/// The value of the attribute `field` that stands at `pos`, with its end.
/// A width is a decimal number from 1 to the bits of a machine word, a
/// depth one from 1 to [`max_depth`], a radix one of four keywords.
pub open spec fn value_at(text: Seq<u8>, pos: int, field: HeaderField) -> Result<
    (Setting, int),
    ParseError,
> {
    match field {
        HeaderField::Depth => match count_at(text, pos, max_depth()) {
            Ok((depth, end)) => Ok((Setting::Depth(depth), end)),
            Err(error) => Err(error),
        },
        HeaderField::Width => match count_at(text, pos, usize::BITS as nat) {
            Ok((width, end)) => Ok((Setting::Width(width), end)),
            Err(error) => Err(error),
        },
        HeaderField::AddressRadix => match radix_name_at(text, pos) {
            Some(radix) => Ok((Setting::AddressRadix(radix), pos + 3)),
            None => Err(ParseError::UnexpectedToken(pos as usize, Expected::RadixKeyword)),
        },
        HeaderField::DataRadix => match radix_name_at(text, pos) {
            Some(radix) => Ok((Setting::DataRadix(radix), pos + 3)),
            None => Err(ParseError::UnexpectedToken(pos as usize, Expected::RadixKeyword)),
        },
    }
}

/// What follows the name of an attribute: `=`, the value, and `;`, each
/// with blanks and comments before it as the text likes. `pos` is the place
/// just past the name.
pub open spec fn setting_at(text: Seq<u8>, pos: int, field: HeaderField) -> Result<
    (Setting, int),
    ParseError,
> {
    match token_end(text, pos, Expected::Equals) {
        Err(error) => Err(error),
        Ok(after_equals) => match trivia_end(text, after_equals) {
            Err(error) => Err(error),
            Ok(start) => match value_at(text, start, field) {
                Err(error) => Err(error),
                Ok((setting, end)) => match token_end(text, end, Expected::Semicolon) {
                    Err(error) => Err(error),
                    Ok(done) => Ok((setting, done)),
                },
            },
        },
    }
}

/// A value ends behind its start, inside the text.
pub proof fn lemma_value_at_bounds(text: Seq<u8>, pos: int, field: HeaderField)
    requires
        0 <= pos <= text.len(),
    ensures
        value_at(text, pos, field) matches Ok((_, end)) ==> pos < end <= text.len(),
{
    lemma_digits_end_bounds(text, pos, Radix::Uns);
}

/// An attribute ends behind its name, inside the text.
pub proof fn lemma_setting_at_bounds(text: Seq<u8>, pos: int, field: HeaderField)
    requires
        0 <= pos <= text.len(),
    ensures
        setting_at(text, pos, field) matches Ok((_, end)) ==> pos < end <= text.len(),
{
    lemma_token_end_bounds(text, pos, Expected::Equals);
    if let Ok(after_equals) = token_end(text, pos, Expected::Equals) {
        lemma_trivia_end_bounds(text, after_equals);
        if let Ok(start) = trivia_end(text, after_equals) {
            lemma_value_at_bounds(text, start, field);
            if let Ok((_, end)) = value_at(text, start, field) {
                lemma_token_end_bounds(text, end, Expected::Semicolon);
            }
        }
    }
}

/// Reads attributes from `pos` on for as long as the name of one comes
/// next, and gives the draft with all of them set, and the place where
/// something else starts.
pub open spec fn header_end(text: Seq<u8>, pos: int, draft: HeaderDraft) -> Result<
    (HeaderDraft, int),
    ParseError,
>
    decreases text.len() - pos,
    when 0 <= pos <= text.len()
{
    match trivia_end(text, pos) {
        Err(error) => Err(error),
        Ok(start) => match field_at(text, start) {
            None => Ok((draft, start)),
            Some(field) => match setting_at(text, start + field.word().len(), field) {
                Err(error) => Err(error),
                Ok((setting, end)) => {
                    proof {
                        lemma_trivia_end_bounds(text, pos);
                        lemma_setting_at_bounds(text, start + field.word().len(), field);
                    }
                    header_end(text, end, draft.with(setting))
                },
            },
        },
    }
}

/// Which attribute's name stands at `pos`.
fn read_field(text: &[u8], pos: usize) -> (field: Option<HeaderField>)
    requires
        pos <= text@.len(),
    ensures
        field == field_at(text@, pos as int),
{
    if starts_with(text, pos, word_bytes(HeaderField::Depth.name())) {
        Some(HeaderField::Depth)
    } else if starts_with(text, pos, word_bytes(HeaderField::Width.name())) {
        Some(HeaderField::Width)
    } else if starts_with(text, pos, word_bytes(HeaderField::AddressRadix.name())) {
        Some(HeaderField::AddressRadix)
    } else if starts_with(text, pos, word_bytes(HeaderField::DataRadix.name())) {
        Some(HeaderField::DataRadix)
    } else {
        None
    }
}

/// Which base's keyword stands at `pos`.
fn read_radix_name(text: &[u8], pos: usize) -> (radix: Option<Radix>)
    requires
        pos <= text@.len(),
    ensures
        radix == radix_name_at(text@, pos as int),
{
    if starts_with(text, pos, word_bytes(Radix::Uns.keyword())) {
        Some(Radix::Uns)
    } else if starts_with(text, pos, word_bytes(Radix::Bin.keyword())) {
        Some(Radix::Bin)
    } else if starts_with(text, pos, word_bytes(Radix::Oct.keyword())) {
        Some(Radix::Oct)
    } else if starts_with(text, pos, word_bytes(Radix::Hex.keyword())) {
        Some(Radix::Hex)
    } else {
        None
    }
}

/// Whether an exec result says what a spec result says, place for place.
pub open spec fn same_setting(
    found: Result<(Setting, usize), ParseError>,
    wanted: Result<(Setting, int), ParseError>,
) -> bool {
    match found {
        Ok((setting, end)) => wanted == Ok::<(Setting, int), ParseError>((setting, end as int)),
        Err(error) => wanted == Err::<(Setting, int), ParseError>(error),
    }
}

fn read_count(text: &[u8], pos: usize, limit: usize) -> (found: Result<(usize, usize), ParseError>)
    requires
        pos <= text@.len(),
    ensures
        match found {
            Ok((count, end)) => count_at(text@, pos as int, limit as nat) == Ok::<
                (usize, int),
                ParseError,
            >((count, end as int)) && pos < end <= text@.len(),
            Err(error) => count_at(text@, pos as int, limit as nat) == Err::<
                (usize, int),
                ParseError,
            >(error),
        },
{
    match read_number(text, pos, Radix::Uns) {
        Some((Some(number), end)) => {
            if 0 < number && number <= limit {
                Ok((number, end))
            } else {
                Err(ParseError::MalformedLiteral(pos))
            }
        },
        _ => Err(ParseError::MalformedLiteral(pos)),
    }
}

fn read_value(text: &[u8], pos: usize, field: HeaderField) -> (found: Result<
    (Setting, usize),
    ParseError,
>)
    requires
        pos <= text@.len(),
    ensures
        same_setting(found, value_at(text@, pos as int, field)),
        found matches Ok((_, end)) ==> pos < end <= text@.len(),
{
    let length = text.len();
    match field {
        HeaderField::Depth => {
            let (depth, end) = read_count(text, pos, usize::MAX / (usize::BITS as usize))?;
            Ok((Setting::Depth(depth), end))
        },
        HeaderField::Width => {
            let (width, end) = read_count(text, pos, usize::BITS as usize)?;
            Ok((Setting::Width(width), end))
        },
        HeaderField::AddressRadix => match read_radix_name(text, pos) {
            Some(radix) => Ok((Setting::AddressRadix(radix), pos + 3)),
            None => Err(ParseError::UnexpectedToken(pos, Expected::RadixKeyword)),
        },
        HeaderField::DataRadix => match read_radix_name(text, pos) {
            Some(radix) => Ok((Setting::DataRadix(radix), pos + 3)),
            None => Err(ParseError::UnexpectedToken(pos, Expected::RadixKeyword)),
        },
    }
}

fn read_setting(text: &[u8], pos: usize, field: HeaderField) -> (found: Result<
    (Setting, usize),
    ParseError,
>)
    requires
        pos <= text@.len(),
    ensures
        same_setting(found, setting_at(text@, pos as int, field)),
        found matches Ok((_, end)) ==> pos < end <= text@.len(),
{
    let after_equals = expect(text, pos, Expected::Equals)?;
    let start = skip_trivia(text, after_equals)?;
    let (setting, end) = read_value(text, start, field)?;
    let done = expect(text, end, Expected::Semicolon)?;
    Ok((setting, done))
}

/// Reads the attributes at the start of a text.
pub fn read_header(text: &[u8]) -> (found: Result<(HeaderDraft, usize), ParseError>)
    ensures
        match found {
            Ok((draft, end)) => header_end(text@, 0, HeaderDraft::empty()) == Ok::<
                (HeaderDraft, int),
                ParseError,
            >((draft, end as int)) && end <= text@.len(),
            Err(error) => header_end(text@, 0, HeaderDraft::empty()) == Err::<
                (HeaderDraft, int),
                ParseError,
            >(error),
        },
{
    let length = text.len();
    let mut draft = HeaderDraft::new();
    let mut pos: usize = 0;
    loop
        invariant
            length == text@.len(),
            pos <= text@.len(),
            header_end(text@, 0, HeaderDraft::empty()) == header_end(text@, pos as int, draft),
        decreases text@.len() - pos,
    {
        let start = skip_trivia(text, pos)?;
        match read_field(text, start) {
            None => {
                return Ok((draft, start));
            },
            Some(field) => {
                let name = word_bytes(field.name());
                let (setting, end) = read_setting(text, start + name.len(), field)?;
                draft.set(setting);
                pos = end;
            },
        }
    }
}

} // verus!
