//! What the reader makes of text that the writer wrote: words, blanks and
//! numerals, each read back as it was written.

use vstd::prelude::*;
use vstd::arithmetic::div_mod::*;
use crate::error::{Expected, ParseError};
use crate::lexer::{has_word, is_blank, token_end, trivia_end};
use crate::numeral::{
    digit_symbol, digit_worth, digits_end, number_at, numeral, numeral_value, zero_padded,
};
use crate::radix::{symbol_value, Radix};

verus! {

/// A byte at which a token can start: no blank, and neither of the two
/// bytes that open a comment.
pub open spec fn solid(byte: u8) -> bool {
    !is_blank(byte) && byte != '-' as u8 && byte != '%' as u8
}

/// Whether every byte is a digit of the base.
pub open spec fn all_digits(digits: Seq<u8>, radix: Radix) -> bool {
    forall|i: int| 0 <= i < digits.len() ==> radix.is_digit(#[trigger] digits[i])
}

/// A row of zeros.
pub open spec fn zeros(count: nat) -> Seq<u8> {
    Seq::new(count, |i: int| '0' as u8)
}

/// Each byte of a word that stands in a text is a byte of the text.
pub proof fn lemma_word_byte(text: Seq<u8>, pos: int, word: Seq<u8>, i: int)
    requires
        has_word(text, pos, word),
        0 <= i < word.len(),
    ensures
        text[pos + i] == word[i],
{
    assert(text.subrange(pos, pos + word.len())[i] == text[pos + i]);
}

/// Where two words stand one behind the other, each of them stands.
pub proof fn lemma_word_parts(text: Seq<u8>, pos: int, first: Seq<u8>, rest: Seq<u8>)
    requires
        has_word(text, pos, first + rest),
    ensures
        has_word(text, pos, first),
        has_word(text, pos + first.len(), rest),
{
    let whole = first + rest;
    assert forall|i: int| 0 <= i < whole.len() implies text[pos + i] == whole[i] by {
        lemma_word_byte(text, pos, whole, i);
    }
    assert(text.subrange(pos, pos + first.len()) =~= first) by {
        assert forall|i: int| 0 <= i < first.len() implies text[pos + i] == first[i] by {
            assert(whole[i] == first[i]);
        }
    }
    assert(text.subrange(pos + first.len(), pos + first.len() + rest.len()) =~= rest) by {
        assert forall|i: int| 0 <= i < rest.len() implies text[pos + first.len() + i]
            == rest[i] by {
            assert(whole[first.len() + i] == rest[i]);
        }
    }
}

/// Where nothing but a token can start, no blank or comment is skipped.
pub proof fn lemma_no_trivia(text: Seq<u8>, pos: int)
    requires
        0 <= pos < text.len(),
        solid(text[pos]),
    ensures
        trivia_end(text, pos) == Ok::<int, ParseError>(pos),
{
}

/// One blank before a token is skipped.
pub proof fn lemma_one_blank(text: Seq<u8>, pos: int)
    requires
        0 <= pos,
        pos + 1 < text.len(),
        is_blank(text[pos]),
        solid(text[pos + 1]),
    ensures
        trivia_end(text, pos) == Ok::<int, ParseError>(pos + 1),
{
    lemma_no_trivia(text, pos + 1);
}

/// Every token starts with a byte at which a token can start.
pub proof fn lemma_token_starts(token: Expected)
    requires
        token != Expected::RadixKeyword,
    ensures
        token.word().len() > 0,
        solid(token.word()[0]),
{
}

/// A token that stands at a place is read there.
pub proof fn lemma_token_reads(text: Seq<u8>, pos: int, token: Expected)
    requires
        0 <= pos,
        has_word(text, pos, token.word()),
        token != Expected::RadixKeyword,
    ensures
        token_end(text, pos, token) == Ok::<int, ParseError>(pos + token.word().len()),
{
    lemma_token_starts(token);
    lemma_word_byte(text, pos, token.word(), 0);
    lemma_no_trivia(text, pos);
}

/// The character of a digit is a digit of every base that has the digit,
/// and is worth the digit.
pub proof fn lemma_symbol(digit: nat, radix: Radix)
    requires
        digit < radix.base(),
    ensures
        radix.is_digit(digit_symbol(digit)),
        digit_worth(digit_symbol(digit)) == digit,
        symbol_value(digit_symbol(digit)) == Some(digit),
        solid(digit_symbol(digit)),
{
}

/// A numeral is made of digits of its base, and is worth its number.
pub proof fn lemma_numeral(value: nat, radix: Radix)
    ensures
        numeral(value, radix.base()).len() >= 1,
        all_digits(numeral(value, radix.base()), radix),
        numeral_value(numeral(value, radix.base()), radix.base()) == value,
    decreases value,
{
    let base = radix.base();
    let digits = numeral(value, base);
    if value < base {
        lemma_symbol(value, radix);
        assert(digits.drop_last() =~= Seq::<u8>::empty());
        assert(numeral_value(digits.drop_last(), base) == 0);
        assert(digits.last() == digit_symbol(value));
    } else {
        lemma_div_decreases(value as int, base as int);
        lemma_mod_bound(value as int, base as int);
        lemma_fundamental_div_mod(value as int, base as int);
        lemma_numeral(value / base, radix);
        lemma_symbol(value % base, radix);
        let shorter = numeral(value / base, base);
        assert(digits == shorter.push(digit_symbol(value % base)));
        assert(digits.drop_last() =~= shorter);
        assert(digits.last() == digit_symbol(value % base));
        assert(numeral_value(digits, base) == (value / base) * base + value % base);
        vstd::arithmetic::mul::lemma_mul_is_commutative(base as int, (value / base) as int);
    }
}

/// Zeros in front of a numeral do not change what it is worth.
pub proof fn lemma_zeros_value(count: nat, digits: Seq<u8>, base: nat)
    ensures
        numeral_value(zeros(count) + digits, base) == numeral_value(digits, base),
    decreases digits.len(), count,
{
    let whole = zeros(count) + digits;
    if digits.len() > 0 {
        assert(whole.drop_last() =~= zeros(count) + digits.drop_last());
        assert(whole.last() == digits.last());
        lemma_zeros_value(count, digits.drop_last(), base);
    } else if count > 0 {
        assert(whole.drop_last() =~= zeros((count - 1) as nat) + digits);
        assert(whole.last() == '0' as u8);
        lemma_zeros_value((count - 1) as nat, digits, base);
        assert(numeral_value(digits, base) == 0);
        assert(digit_worth('0' as u8) == 0);
        assert(numeral_value(whole.drop_last(), base) == 0);
        assert(numeral_value(whole, base) == numeral_value(whole.drop_last(), base) * base
            + digit_worth(whole.last()));
        assert(0 * base == 0);
    } else {
        assert(whole =~= digits);
    }
}

/// A numeral with its zeros in front is made of digits of its base, starts
/// with one, and is worth its number.
pub proof fn lemma_padded(value: nat, radix: Radix, width: nat)
    ensures
        zero_padded(numeral(value, radix.base()), width).len() >= 1,
        all_digits(zero_padded(numeral(value, radix.base()), width), radix),
        numeral_value(zero_padded(numeral(value, radix.base()), width), radix.base())
            == value,
{
    let base = radix.base();
    let digits = numeral(value, base);
    let padded = zero_padded(digits, width);
    lemma_numeral(value, radix);
    if digits.len() < width {
        let count = (width - digits.len()) as nat;
        assert(padded =~= zeros(count) + digits);
        lemma_zeros_value(count, digits, base);
        lemma_symbol(0, radix);
        assert forall|i: int| 0 <= i < padded.len() implies radix.is_digit(
            #[trigger] padded[i],
        ) by {
            if i >= count {
                assert(padded[i] == digits[i - count]);
            }
        }
    }
}

/// A run of digits that stands in a text, with something after it that is
/// no digit, ends where the run ends.
pub proof fn lemma_digit_run(text: Seq<u8>, pos: int, digits: Seq<u8>, radix: Radix)
    requires
        0 <= pos,
        has_word(text, pos, digits),
        all_digits(digits, radix),
        pos + digits.len() == text.len() || !radix.is_digit(text[pos + digits.len()]),
    ensures
        digits_end(text, pos, radix) == pos + digits.len(),
    decreases digits.len(),
{
    if digits.len() > 0 {
        lemma_word_byte(text, pos, digits, 0);
        let first = digits.subrange(0, 1);
        let rest = digits.subrange(1, digits.len() as int);
        assert(digits =~= first + rest);
        lemma_word_parts(text, pos, first, rest);
        assert forall|i: int| 0 <= i < rest.len() implies radix.is_digit(#[trigger] rest[i]) by {
            assert(rest[i] == digits[i + 1]);
        }
        lemma_digit_run(text, pos + 1, rest, radix);
    }
}

/// A number that the writer wrote, with something after it that is no
/// digit, is read as that number.
pub proof fn lemma_number_reads(text: Seq<u8>, pos: int, value: nat, radix: Radix, width: nat)
    requires
        0 <= pos,
        has_word(text, pos, zero_padded(numeral(value, radix.base()), width)),
        pos + zero_padded(numeral(value, radix.base()), width).len() == text.len()
            || !radix.is_digit(
            text[pos + zero_padded(numeral(value, radix.base()), width).len()],
        ),
    ensures
        number_at(text, pos, radix) == Some(
            (value, pos + zero_padded(numeral(value, radix.base()), width).len()),
        ),
        solid(text[pos]),
        radix.is_digit(text[pos]),
        all_digits(zero_padded(numeral(value, radix.base()), width), radix),
        zero_padded(numeral(value, radix.base()), width).len() >= 1,
{
    let digits = zero_padded(numeral(value, radix.base()), width);
    lemma_padded(value, radix, width);
    lemma_digit_run(text, pos, digits, radix);
    lemma_word_byte(text, pos, digits, 0);
    assert(radix.is_digit(digits[0]));
}

} // verus!
