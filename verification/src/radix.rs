//! The numeral bases of the format: base, digit alphabet and keyword of each.

use vstd::prelude::*;
use vstd::string::*;

verus! {

/// The bytes of an ASCII string, one per character.
pub open spec fn ascii_bytes(text: Seq<char>) -> Seq<u8> {
    Seq::new(text.len(), |i: int| text[i] as u8)
}

/// The characters that stand for a sequence of ASCII bytes.
pub open spec fn ascii_chars(bytes: Seq<u8>) -> Seq<char> {
    Seq::new(bytes.len(), |i: int| bytes[i] as char)
}

/// Every digit character the format knows, in the order of their values:
/// the decimal digits, then the six hexadecimal letters in lower case, then
/// the same six in upper case.
pub open spec fn alphabet() -> Seq<char> {
    "0123456789abcdefABCDEF"@
}

/// What a character of [`alphabet`] is worth, or nothing for any other byte.
pub open spec fn symbol_value(byte: u8) -> Option<nat> {
    if '0' as u8 <= byte <= '9' as u8 {
        Some((byte - '0' as u8) as nat)
    } else if 'a' as u8 <= byte <= 'f' as u8 {
        Some((byte - 'a' as u8 + 10) as nat)
    } else if 'A' as u8 <= byte <= 'F' as u8 {
        Some((byte - 'A' as u8 + 10) as nat)
    } else {
        None
    }
}

/// A numeral base, named as the format names it.
#[derive(Clone, Copy, PartialEq, Eq, Debug, Structural)]
pub enum Radix {
    /// Decimal, read as an unsigned magnitude.
    Uns,
    /// Binary.
    Bin,
    /// Octal.
    Oct,
    /// Decimal, read as a two's-complement signed value.
    Dec,
    /// Hexadecimal.
    Hex,
}

impl Radix {
    /// The base of the positional notation.
    pub open spec fn base(self) -> nat {
        match self {
            Radix::Uns | Radix::Dec => 10,
            Radix::Bin => 2,
            Radix::Oct => 8,
            Radix::Hex => 16,
        }
    }

    /// How many characters of [`alphabet`] are digits in this base; for
    /// hexadecimal that is all of them, so that both cases are read.
    pub open spec fn digit_count(self) -> nat {
        match self {
            Radix::Uns | Radix::Dec => 10,
            Radix::Bin => 2,
            Radix::Oct => 8,
            Radix::Hex => 22,
        }
    }

    /// The three-letter keyword of the base.
    pub open spec fn keyword_text(self) -> Seq<u8> {
        match self {
            Radix::Uns => seq!['U' as u8, 'N' as u8, 'S' as u8],
            Radix::Bin => seq!['B' as u8, 'I' as u8, 'N' as u8],
            Radix::Oct => seq!['O' as u8, 'C' as u8, 'T' as u8],
            Radix::Dec => seq!['D' as u8, 'E' as u8, 'C' as u8],
            Radix::Hex => seq!['H' as u8, 'E' as u8, 'X' as u8],
        }
    }

    /// Whether `byte` is a digit of this base.
    pub open spec fn is_digit(self, byte: u8) -> bool {
        symbol_value(byte) matches Some(v) && v < self.base()
    }

    /// The value of a digit of this base.
    pub open spec fn digit_value(self, byte: u8) -> nat {
        symbol_value(byte).unwrap()
    }

    /// The value of `byte` as a digit of this base, or nothing where it is
    /// none.
    pub fn digit(&self, byte: u8) -> (value: Option<u8>)
        ensures
            value is Some <==> self.is_digit(byte),
            value matches Some(v) ==> v == self.digit_value(byte),
    {
        let value: u8 = if '0' as u8 <= byte && byte <= '9' as u8 {
            byte - '0' as u8
        } else if 'a' as u8 <= byte && byte <= 'f' as u8 {
            byte - 'a' as u8 + 10
        } else if 'A' as u8 <= byte && byte <= 'F' as u8 {
            byte - 'A' as u8 + 10
        } else {
            return None;
        };
        if (value as u32) < self.radix() {
            Some(value)
        } else {
            None
        }
    }

    /// The base as a number: 2, 8, 10 or 16.
    pub fn radix(&self) -> (base: u32)
        ensures
            base == self.base(),
    {
        match self {
            Radix::Uns => 10,
            Radix::Bin => 2,
            Radix::Oct => 8,
            Radix::Hex => 16,
            Radix::Dec => 10,
        }
    }

    /// The digits of the base: a prefix of [`alphabet`].
    pub fn digits(&self) -> (digits: &'static str)
        ensures
            digits@ == alphabet().subrange(0, self.digit_count() as int),
            forall|byte: u8| self.is_digit(byte) <==> ascii_bytes(digits@).contains(byte),
    {
        let all = "0123456789abcdefABCDEF";
        proof {
            reveal_strlit("0123456789abcdefABCDEF");
        }
        let count: usize = match self {
            Radix::Uns | Radix::Dec => 10,
            Radix::Bin => 2,
            Radix::Oct => 8,
            Radix::Hex => 22,
        };
        let digits = all.substring_ascii(0, count);
        proof {
            assert forall|byte: u8| self.is_digit(byte) implies ascii_bytes(digits@).contains(
                byte,
            ) by {
                let v = self.digit_value(byte);
                let i: int = if 'A' as u8 <= byte <= 'F' as u8 {
                    v as int + 6
                } else {
                    v as int
                };
                assert(ascii_bytes(digits@)[i] == byte);
            }
            assert forall|byte: u8| ascii_bytes(digits@).contains(byte) implies self.is_digit(
                byte,
            ) by {
                let i = choose|i: int| 0 <= i < digits@.len() && ascii_bytes(digits@)[i] == byte;
                assert(digits@[i] == all@[i]);
            }
        }
        digits
    }

    /// The keyword of the base as the format writes it.
    pub fn keyword(&self) -> (word: &'static str)
        ensures
            ascii_bytes(word@) == self.keyword_text(),
            word.is_ascii(),
    {
        proof {
            reveal_strlit("UNS");
            reveal_strlit("BIN");
            reveal_strlit("OCT");
            reveal_strlit("DEC");
            reveal_strlit("HEX");
        }
        let word = match self {
            Radix::Bin => "BIN",
            Radix::Hex => "HEX",
            Radix::Oct => "OCT",
            Radix::Uns => "UNS",
            Radix::Dec => "DEC",
        };
        assert(ascii_bytes(word@) =~= self.keyword_text());
        word
    }
}

} // verus!
