//! Numbers as the text writes them: a run of digits in one of the bases,
//! most significant digit first.

use vstd::prelude::*;
use vstd::arithmetic::div_mod::*;
use vstd::arithmetic::mul::*;
use crate::radix::{symbol_value, Radix};

verus! {

/// Where the run of digits that starts at `pos` ends: at the first byte
/// that is no digit of the base, or at the end of the text.
pub open spec fn digits_end(text: Seq<u8>, pos: int, radix: Radix) -> int
    decreases text.len() - pos,
{
    if pos < 0 || pos >= text.len() || !radix.is_digit(text[pos]) {
        pos
    } else {
        digits_end(text, pos + 1, radix)
    }
}

/// What a byte is worth as a digit; a byte that is none counts as zero.
pub open spec fn digit_worth(byte: u8) -> nat {
    match symbol_value(byte) {
        Some(value) => value,
        None => 0,
    }
}

/// The number that a row of digits writes in `base`.
pub open spec fn numeral_value(digits: Seq<u8>, base: nat) -> nat
    decreases digits.len(),
{
    if digits.len() == 0 {
        0
    } else {
        numeral_value(digits.drop_last(), base) * base + digit_worth(digits.last())
    }
}

/// The number that stands at `pos`, with the place where it ends; nothing
/// where no digit of the base stands at `pos`.
pub open spec fn number_at(text: Seq<u8>, pos: int, radix: Radix) -> Option<(nat, int)> {
    let end = digits_end(text, pos, radix);
    if end > pos {
        Some((numeral_value(text.subrange(pos, end), radix.base()), end))
    } else {
        None
    }
}

/// The number of values a machine word has.
pub open spec fn word_modulus() -> nat {
    (usize::MAX + 1) as nat
}

/// What is left of a number in a machine word: its low `usize::BITS` bits.
pub open spec fn word_of(value: nat) -> usize {
    (value % word_modulus()) as usize
}

/// A run of digits ends at or behind its start, inside the text.
pub proof fn lemma_digits_end_bounds(text: Seq<u8>, pos: int, radix: Radix)
    requires
        0 <= pos <= text.len(),
    ensures
        pos <= digits_end(text, pos, radix) <= text.len(),
    decreases text.len() - pos,
{
    if pos < text.len() && radix.is_digit(text[pos]) {
        lemma_digits_end_bounds(text, pos + 1, radix);
    }
}

/// One more digit at the end of a numeral: the value so far times the base,
/// plus the digit.
pub proof fn lemma_numeral_grows(text: Seq<u8>, start: int, pos: int, base: nat)
    requires
        0 <= start <= pos < text.len(),
    ensures
        numeral_value(text.subrange(start, pos + 1), base) == numeral_value(
            text.subrange(start, pos),
            base,
        ) * base + digit_worth(text[pos]),
{
    let longer = text.subrange(start, pos + 1);
    assert(longer.drop_last() =~= text.subrange(start, pos));
}

/// Reads the number at `start`. The outer result is nothing where no digit
/// stands there; the inner one is nothing where the number is too large for
/// a machine word.
pub fn read_number(text: &[u8], start: usize, radix: Radix) -> (found: Option<
    (Option<usize>, usize),
>)
    requires
        start <= text@.len(),
    ensures
        match found {
            None => number_at(text@, start as int, radix) is None,
            Some((value, end)) => {
                &&& start < end <= text@.len()
                &&& number_at(text@, start as int, radix) matches Some((number, place))
                &&& place == end
                &&& value == if number <= usize::MAX {
                    Some(number as usize)
                } else {
                    None
                }
            },
        },
{
    let base = radix.radix() as usize;
    let mut pos = start;
    let mut value: Option<usize> = Some(0);
    loop
        invariant
            start <= pos <= text@.len(),
            base == radix.base(),
            digits_end(text@, start as int, radix) == digits_end(text@, pos as int, radix),
            value == if numeral_value(text@.subrange(start as int, pos as int), radix.base())
                <= usize::MAX {
                Some(numeral_value(text@.subrange(start as int, pos as int), radix.base()) as usize)
            } else {
                None
            },
        ensures
            digits_end(text@, pos as int, radix) == pos,
        decreases text@.len() - pos,
    {
        if pos >= text.len() {
            break ;
        }
        let digit = match radix.digit(text[pos]) {
            Some(digit) => digit,
            None => {
                break ;
            },
        };
        proof {
            lemma_numeral_grows(text@, start as int, pos as int, radix.base());
            let so_far = numeral_value(text@.subrange(start as int, pos as int), radix.base());
            lemma_mul_inequality(1, base as int, so_far as int);
            lemma_mul_is_commutative(base as int, so_far as int);
        }
        value =
        match value {
            None => None,
            Some(so_far) => match so_far.checked_mul(base) {
                None => None,
                Some(shifted) => shifted.checked_add(digit as usize),
            },
        };
        pos += 1;
    }
    if pos == start {
        None
    } else {
        Some((value, pos))
    }
}

/// Reads the number at `start` and keeps what a machine word holds of it:
/// a number of any length is read, and its high bits are dropped.
pub fn read_literal(text: &[u8], start: usize, radix: Radix) -> (found: Option<(usize, usize)>)
    requires
        start <= text@.len(),
    ensures
        match found {
            None => number_at(text@, start as int, radix) is None,
            Some((value, end)) => {
                &&& start < end <= text@.len()
                &&& number_at(text@, start as int, radix) matches Some((number, place))
                &&& place == end
                &&& value == word_of(number)
            },
        },
{
    let base = radix.radix() as usize;
    let mut pos = start;
    let mut value: usize = 0;
    proof {
        lemma_small_mod(0, word_modulus());
    }
    loop
        invariant
            start <= pos <= text@.len(),
            base == radix.base(),
            digits_end(text@, start as int, radix) == digits_end(text@, pos as int, radix),
            value == word_of(
                numeral_value(text@.subrange(start as int, pos as int), radix.base()),
            ),
        ensures
            digits_end(text@, pos as int, radix) == pos,
        decreases text@.len() - pos,
    {
        if pos >= text.len() {
            break ;
        }
        let digit = match radix.digit(text[pos]) {
            Some(digit) => digit,
            None => {
                break ;
            },
        };
        proof {
            lemma_numeral_grows(text@, start as int, pos as int, radix.base());
            lemma_wrapping_step(
                numeral_value(text@.subrange(start as int, pos as int), radix.base()),
                value,
                base,
                digit as usize,
            );
        }
        value = value.wrapping_mul(base).wrapping_add(digit as usize);
        pos += 1;
    }
    if pos == start {
        None
    } else {
        Some((value, pos))
    }
}

/// One step of reading a number into a word that wraps: what the word holds
/// afterwards is what is left of the longer number.
proof fn lemma_wrapping_step(so_far: nat, value: usize, base: usize, digit: usize)
    requires
        value == word_of(so_far),
    ensures
        value.wrapping_mul(base).wrapping_add(digit) == word_of(
            so_far * (base as nat) + (digit as nat),
        ),
{
    let modulus = word_modulus() as int;
    let product = (value as nat * base as nat) as int;
    let wrapped = product % modulus;
    lemma_mod_bound(product, modulus);
    assert(value.wrapping_mul(base) == wrapped);
    let sum = wrapped + digit;
    assert(value.wrapping_mul(base).wrapping_add(digit) == sum % modulus) by {
        if sum > usize::MAX {
            lemma_fundamental_div_mod_converse(sum, modulus, 1, sum - modulus);
        } else {
            lemma_small_mod(sum as nat, modulus as nat);
        }
    }
    // (so_far % m) * base  is  so_far * base, modulo m
    lemma_mul_mod_noop_left(so_far as int, base as int, modulus);
    assert(wrapped == (so_far * base) % modulus);
    // adding the digit on both sides
    lemma_add_mod_noop(so_far * base, digit as int, modulus);
    lemma_add_mod_noop(wrapped, digit as int, modulus);
    lemma_mod_twice(so_far * base, modulus);
    lemma_mul_nonnegative(so_far as int, base as int);
}

/// The character for a digit: `0` to `9`, then `A` to `F`.
pub open spec fn digit_symbol(digit: nat) -> u8 {
    if digit < 10 {
        ('0' as u8 + digit) as u8
    } else {
        ('A' as u8 + digit - 10) as u8
    }
}

/// A number written in `base`, most significant digit first, with as many
/// digits as it needs and at least one.
pub open spec fn numeral(value: nat, base: nat) -> Seq<u8>
    decreases value,
{
    if base < 2 || value < base {
        seq![digit_symbol(value)]
    } else {
        proof {
            lemma_div_decreases(value as int, base as int);
        }
        numeral(value / base, base).push(digit_symbol(value % base))
    }
}

/// A numeral brought to `width` characters by zeros in front; one that is
/// as long or longer stays as it is.
pub open spec fn zero_padded(digits: Seq<u8>, width: nat) -> Seq<u8> {
    if digits.len() >= width {
        digits
    } else {
        Seq::new((width - digits.len()) as nat, |i: int| '0' as u8) + digits
    }
}

/// The character for a digit below sixteen.
pub fn symbol(digit: u8) -> (byte: u8)
    requires
        digit < 16,
    ensures
        byte == digit_symbol(digit as nat),
{
    if digit < 10 {
        '0' as u8 + digit
    } else {
        'A' as u8 + (digit - 10)
    }
}

/// Appends `value`, written in the base of `radix` and padded with zeros
/// to at least `width` characters.
pub fn push_number(out: &mut Vec<u8>, value: u128, radix: Radix, width: usize)
    ensures
        final(out)@ == old(out)@ + zero_padded(numeral(value as nat, radix.base()), width as nat),
{
    let base = radix.radix() as u128;
    let mut reversed: Vec<u8> = Vec::new();
    let mut rest = value;
    loop
        invariant_except_break
            numeral(value as nat, base as nat) == numeral(rest as nat, base as nat)
                + reversed@.reverse(),
        invariant
            base == radix.base(),
        ensures
            numeral(value as nat, base as nat) == reversed@.reverse(),
            reversed@.len() > 0,
        decreases rest,
    {
        let ghost earlier = reversed@;
        let digit = (rest % base) as u8;
        reversed.push(symbol(digit));
        proof {
            assert(reversed@.reverse() =~= seq![digit_symbol(digit as nat)] + earlier.reverse());
        }
        if rest < base {
            proof {
                lemma_small_mod(rest as nat, base as nat);
                assert(numeral(rest as nat, base as nat) + earlier.reverse()
                    =~= reversed@.reverse());
            }
            break ;
        }
        proof {
            lemma_div_decreases(rest as int, base as int);
            assert(numeral(rest as nat, base as nat) + earlier.reverse() =~= numeral(
                (rest / base) as nat,
                base as nat,
            ) + reversed@.reverse());
        }
        rest = rest / base;
    }
    let digits = reversed.len();
    let ghost start = out@;
    let mut zeros: usize = 0;
    while zeros < width && width - zeros > digits
        invariant
            digits == reversed@.len(),
            zeros <= width,
            zeros + digits <= width || zeros == 0,
            out@ == start + Seq::new(zeros as nat, |i: int| '0' as u8),
        decreases width - zeros,
    {
        out.push('0' as u8);
        zeros += 1;
        proof {
            assert(out@ =~= start + Seq::new(zeros as nat, |i: int| '0' as u8));
        }
    }
    let ghost padded = out@;
    let mut taken: usize = 0;
    while taken < digits
        invariant
            digits == reversed@.len(),
            taken <= digits,
            out@ == padded + reversed@.reverse().subrange(0, taken as int),
        decreases digits - taken,
    {
        out.push(reversed[digits - 1 - taken]);
        taken += 1;
        proof {
            assert(out@ =~= padded + reversed@.reverse().subrange(0, taken as int));
        }
    }
    proof {
        assert(reversed@.reverse().subrange(0, digits as int) =~= reversed@.reverse());
        assert(out@ =~= start + zero_padded(reversed@.reverse(), width as nat));
    }
}

} // verus!
