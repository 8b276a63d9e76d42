//! What can be wrong with a text, and where.

use vstd::prelude::*;

verus! {

/// The four attributes of a header.
#[derive(Clone, Copy, PartialEq, Eq, Debug, Structural)]
pub enum HeaderField {
    Depth,
    Width,
    AddressRadix,
    DataRadix,
}

/// A token that the text had to show at some place.
#[derive(Clone, Copy, PartialEq, Eq, Debug, Structural)]
pub enum Expected {
    /// `=` between the name of an attribute and its value.
    Equals,
    /// `;` at the end of an attribute, of an assignment, or after `END`.
    Semicolon,
    /// `:` between the address and the values of an assignment.
    Colon,
    /// `..` between the two bounds of a range.
    RangeDots,
    /// `]` at the end of a range.
    CloseBracket,
    /// The word `CONTENT`.
    Content,
    /// The word `BEGIN`.
    Begin,
    /// One of the words `UNS`, `BIN`, `OCT`, `HEX`.
    RadixKeyword,
}

/// Why a text could not be decoded. Every offset counts bytes from the start
/// of the text.
#[derive(Clone, Copy, PartialEq, Eq, Debug, Structural)]
pub enum ParseError {
    /// The header ended without a value for this attribute.
    MissingHeaderField(HeaderField),
    /// No usable number starts at this offset where a value had to stand.
    MalformedLiteral(usize),
    /// No usable address starts at this offset, or the assignment that
    /// starts here reaches past the last cell.
    MalformedAddress(usize),
    /// The `%` at this offset opens a comment that is never closed.
    UnterminatedComment(usize),
    /// Something else than the expected token stands at this offset.
    UnexpectedToken(usize, Expected),
}

impl HeaderField {
    /// The name of the attribute as the header writes it.
    pub open spec fn word(self) -> Seq<u8> {
        match self {
            HeaderField::Depth => seq!['D' as u8, 'E' as u8, 'P' as u8, 'T' as u8, 'H' as u8],
            HeaderField::Width => seq!['W' as u8, 'I' as u8, 'D' as u8, 'T' as u8, 'H' as u8],
            HeaderField::AddressRadix => seq![
                'A' as u8,
                'D' as u8,
                'D' as u8,
                'R' as u8,
                'E' as u8,
                'S' as u8,
                'S' as u8,
                '_' as u8,
                'R' as u8,
                'A' as u8,
                'D' as u8,
                'I' as u8,
                'X' as u8,
            ],
            HeaderField::DataRadix => seq![
                'D' as u8,
                'A' as u8,
                'T' as u8,
                'A' as u8,
                '_' as u8,
                'R' as u8,
                'A' as u8,
                'D' as u8,
                'I' as u8,
                'X' as u8,
            ],
        }
    }

    /// The name of the attribute: `DEPTH`, `WIDTH`, `ADDRESS_RADIX` or
    /// `DATA_RADIX`.
    pub fn name(&self) -> (name: &'static str)
        ensures
            name.is_ascii(),
            crate::radix::ascii_bytes(name@) == self.word(),
    {
        proof {
            reveal_strlit("DEPTH");
            reveal_strlit("WIDTH");
            reveal_strlit("ADDRESS_RADIX");
            reveal_strlit("DATA_RADIX");
        }
        let name = match self {
            HeaderField::Depth => "DEPTH",
            HeaderField::Width => "WIDTH",
            HeaderField::AddressRadix => "ADDRESS_RADIX",
            HeaderField::DataRadix => "DATA_RADIX",
        };
        assert(crate::radix::ascii_bytes(name@) =~= self.word());
        name
    }
}

impl Expected {
    /// The bytes of the token. For a radix keyword, which has four forms,
    /// this is the empty sequence.
    pub open spec fn word(self) -> Seq<u8> {
        match self {
            Expected::Equals => seq!['=' as u8],
            Expected::Semicolon => seq![';' as u8],
            Expected::Colon => seq![':' as u8],
            Expected::RangeDots => seq!['.' as u8, '.' as u8],
            Expected::CloseBracket => seq![']' as u8],
            Expected::Content => seq![
                'C' as u8,
                'O' as u8,
                'N' as u8,
                'T' as u8,
                'E' as u8,
                'N' as u8,
                'T' as u8,
            ],
            Expected::Begin => seq!['B' as u8, 'E' as u8, 'G' as u8, 'I' as u8, 'N' as u8],
            Expected::RadixKeyword => Seq::empty(),
        }
    }

    /// The token as a reader would name it.
    pub fn describe(&self) -> (text: &'static str)
        ensures
            text.is_ascii(),
            *self != Expected::RadixKeyword ==> crate::radix::ascii_bytes(text@) == self.word(),
            *self == Expected::RadixKeyword ==> text@ == "UNS, BIN, OCT or HEX"@,
    {
        proof {
            reveal_strlit("=");
            reveal_strlit(";");
            reveal_strlit(":");
            reveal_strlit("..");
            reveal_strlit("]");
            reveal_strlit("CONTENT");
            reveal_strlit("BEGIN");
            reveal_strlit("UNS, BIN, OCT or HEX");
        }
        let text = match self {
            Expected::Equals => "=",
            Expected::Semicolon => ";",
            Expected::Colon => ":",
            Expected::RangeDots => "..",
            Expected::CloseBracket => "]",
            Expected::Content => "CONTENT",
            Expected::Begin => "BEGIN",
            Expected::RadixKeyword => "UNS, BIN, OCT or HEX",
        };
        if *self != Expected::RadixKeyword {
            assert(crate::radix::ascii_bytes(text@) =~= self.word());
        }
        text
    }
}

impl ParseError {
    /// The offset at which the text went wrong; a missing attribute has
    /// none.
    pub fn offset(&self) -> (offset: Option<usize>)
        ensures
            offset == match *self {
                ParseError::MissingHeaderField(_) => None,
                ParseError::MalformedLiteral(at) => Some(at),
                ParseError::MalformedAddress(at) => Some(at),
                ParseError::UnterminatedComment(at) => Some(at),
                ParseError::UnexpectedToken(at, _) => Some(at),
            },
    {
        match *self {
            ParseError::MissingHeaderField(_) => None,
            ParseError::MalformedLiteral(at) => Some(at),
            ParseError::MalformedAddress(at) => Some(at),
            ParseError::UnterminatedComment(at) => Some(at),
            ParseError::UnexpectedToken(at, _) => Some(at),
        }
    }
}

} // verus!
