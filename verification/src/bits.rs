//! Bits of machine words: single bits, low masks, and fields that may lie
//! across the boundary of two neighbouring words.

use vstd::prelude::*;
use vstd::arithmetic::div_mod::*;
use vstd::arithmetic::mul::*;

verus! {

/// Bit `k` of a word, the lowest being bit 0.
pub open spec fn word_bit(word: usize, k: usize) -> bool {
    (word >> k) & 1 == 1
}

/// The word whose lowest `width` bits are set and no other.
pub open spec fn low_mask(width: usize) -> usize {
    if width >= usize::BITS {
        !0usize
    } else {
        ((1usize << width) - 1) as usize
    }
}

/// Bit `p` of a sequence of words read as one long row of bits: word 0 holds
/// bits `0 .. usize::BITS`, word 1 the next ones, and so on. Past the end
/// every bit is clear.
pub open spec fn bit_at(words: Seq<usize>, p: int) -> bool {
    0 <= p < words.len() * usize::BITS && word_bit(
        words[p / (usize::BITS as int)],
        (p % (usize::BITS as int)) as usize,
    )
}

/// The `width` bits that start `shift` bits into `first` and go on, where
/// `first` ends, at the bottom of `second`.
pub open spec fn field_of(first: usize, second: usize, shift: usize, width: usize) -> usize {
    let low = first >> shift;
    let high = if shift + width > usize::BITS {
        second << ((usize::BITS - shift) as usize)
    } else {
        0usize
    };
    (low | high) & low_mask(width)
}

/// The `width` bits of `words` that start at bit `start`, as a number.
pub open spec fn field_at(words: Seq<usize>, start: int, width: usize) -> usize {
    let index = start / (usize::BITS as int);
    let shift = (start % (usize::BITS as int)) as usize;
    field_of(
        words[index],
        if index + 1 < words.len() {
            words[index + 1]
        } else {
            0usize
        },
        shift,
        width,
    )
}

/// Zero has no bit set.
pub proof fn lemma_bit_of_zero(k: usize)
    by (bit_vector)
    requires
        k < usize::BITS,
    ensures
        !word_bit(0usize, k),
{
}

/// A bit of an or is set where it is set in one of the two words.
pub proof fn lemma_bit_of_or(a: usize, b: usize, k: usize)
    by (bit_vector)
    requires
        k < usize::BITS,
    ensures
        word_bit(a | b, k) == (word_bit(a, k) || word_bit(b, k)),
{
}

/// A word shifted up has at each place the bit that stood `shift` places lower.
pub proof fn lemma_bit_of_shl(word: usize, shift: usize, k: usize)
    by (bit_vector)
    requires
        k < usize::BITS,
        shift < usize::BITS,
    ensures
        word_bit(word << shift, k) == (k >= shift && word_bit(word, (k - shift) as usize)),
{
}

/// A word shifted down has at each place the bit that stood `shift` places higher.
pub proof fn lemma_bit_of_shr(word: usize, shift: usize, k: usize)
    by (bit_vector)
    requires
        k < usize::BITS,
        shift < usize::BITS,
    ensures
        word_bit(word >> shift, k) == (k + shift < usize::BITS && word_bit(
            word,
            (k + shift) as usize,
        )),
{
}

/// A masked word keeps the bits below `width` and no other.
pub proof fn lemma_bit_of_masked(word: usize, width: usize, k: usize)
    by (bit_vector)
    requires
        k < usize::BITS,
    ensures
        word_bit(word & low_mask(width), k) == (k < width && word_bit(word, k)),
{
}

/// Masking a second time changes nothing.
pub proof fn lemma_masked_twice(word: usize, width: usize)
    by (bit_vector)
    ensures
        (word & low_mask(width)) & low_mask(width) == word & low_mask(width),
{
}

proof fn lemma_shift_step(x: usize, y: usize, n: usize)
    by (bit_vector)
    requires
        n < usize::BITS,
        word_bit(x, n) == word_bit(y, n),
        n + 1 < usize::BITS ==> x >> ((n + 1) as usize) == y >> ((n + 1) as usize),
    ensures
        x >> n == y >> n,
{
}

proof fn lemma_shift_none(x: usize)
    by (bit_vector)
    ensures
        x >> 0usize == x,
{
}

proof fn lemma_equal_above(x: usize, y: usize, n: usize)
    requires
        n < usize::BITS,
        forall|k: usize| n <= k < usize::BITS ==> word_bit(x, k) == word_bit(y, k),
    ensures
        x >> n == y >> n,
    decreases usize::BITS - n,
{
    if n + 1 < usize::BITS {
        lemma_equal_above(x, y, (n + 1) as usize);
    }
    lemma_shift_step(x, y, n);
}

/// Two words with the same bits are the same word.
pub proof fn lemma_word_from_bits(x: usize, y: usize)
    requires
        forall|k: usize| k < usize::BITS ==> word_bit(x, k) == word_bit(y, k),
    ensures
        x == y,
{
    lemma_equal_above(x, y, 0);
    lemma_shift_none(x);
    lemma_shift_none(y);
}

/// Bit `k` of a field is the bit `k` places after the field's start, as long
/// as `k` is inside the field.
pub proof fn lemma_bit_of_field(first: usize, second: usize, shift: usize, width: usize, k: usize)
    requires
        k < usize::BITS,
        shift < usize::BITS,
        0 < width <= usize::BITS,
    ensures
        word_bit(field_of(first, second, shift, width), k) == (k < width && if shift + k
            < usize::BITS {
            word_bit(first, (shift + k) as usize)
        } else {
            word_bit(second, (shift + k - usize::BITS) as usize)
        }),
{
    let low = first >> shift;
    let high = if shift + width > usize::BITS {
        second << ((usize::BITS - shift) as usize)
    } else {
        0usize
    };
    lemma_bit_of_masked(low | high, width, k);
    lemma_bit_of_or(low, high, k);
    lemma_bit_of_shr(first, shift, k);
    if shift + width > usize::BITS {
        lemma_bit_of_shl(second, (usize::BITS - shift) as usize, k);
    } else {
        lemma_bit_of_zero(k);
    }
}

/// Where bit `p` of a row of words lies: in word `p / usize::BITS`, at place
/// `p % usize::BITS`.
pub proof fn lemma_place(index: int, shift: int, p: int)
    requires
        0 <= shift < usize::BITS,
        p == index * usize::BITS + shift,
    ensures
        p / (usize::BITS as int) == index,
        p % (usize::BITS as int) == shift,
{
    lemma_fundamental_div_mod_converse(p, usize::BITS as int, index, shift);
}

/// The words that a field touches lie inside a row that holds the whole field.
pub proof fn lemma_field_words(count: int, start: int, width: int)
    requires
        0 < width <= usize::BITS,
        0 <= start,
        start + width <= count * usize::BITS,
    ensures
        start == (start / (usize::BITS as int)) * usize::BITS + start % (usize::BITS as int),
        0 <= start % (usize::BITS as int) < usize::BITS,
        0 <= start / (usize::BITS as int) < count,
        start % (usize::BITS as int) + width > usize::BITS ==> start / (usize::BITS as int) + 1
            < count,
{
    let bits = usize::BITS as int;
    let index = start / bits;
    let shift = start % bits;
    lemma_fundamental_div_mod(start, bits);
    lemma_mod_bound(start, bits);
    assert(start == index * bits + shift) by {
        lemma_mul_is_commutative(bits, index);
    }
    if index >= count {
        lemma_mul_inequality(count, index, bits);
    }
    if index < 0 {
        lemma_mul_inequality(index, -1, bits);
    }
    assert((index + 1) * bits == index * bits + bits) by {
        lemma_mul_is_distributive_add_other_way(bits, index, 1);
    }
    if shift + width > bits && index + 1 >= count {
        lemma_mul_inequality(count, index + 1, bits);
    }
}

/// Bit `k` of the field that starts at bit `start` is bit `start + k` of the
/// row, as long as `k` is inside the field.
pub proof fn lemma_bit_of_field_at(words: Seq<usize>, start: int, width: usize, k: usize)
    requires
        k < usize::BITS,
        0 < width <= usize::BITS,
        0 <= start,
        start + width <= words.len() * usize::BITS,
    ensures
        word_bit(field_at(words, start, width), k) == (k < width && bit_at(words, start + k)),
{
    let bits = usize::BITS as int;
    let index = start / bits;
    let shift = start % bits;
    lemma_field_words(words.len() as int, start, width as int);
    let second = if index + 1 < words.len() {
        words[index + 1]
    } else {
        0usize
    };
    lemma_bit_of_field(words[index], second, shift as usize, width, k);
    if k < width {
        if shift + k < bits {
            lemma_place(index, shift + k, start + k);
        } else {
            assert((index + 1) * bits == index * bits + bits) by {
                lemma_mul_is_distributive_add_other_way(bits, index, 1);
            }
            lemma_place(index + 1, shift + k - bits, start + k);
        }
    }
}

/// The mask of the low `width` bits.
pub fn mask(width: usize) -> (m: usize)
    ensures
        m == low_mask(width),
{
    if width >= usize::BITS as usize {
        !0usize
    } else {
        assert((1usize << width) >= 1) by (bit_vector)
            requires
                width < usize::BITS,
        ;
        (1usize << width) - 1
    }
}

/// Reads the `width` bits that start `shift` bits into `first` and go on at
/// the bottom of `second`.
pub fn read_field(first: usize, second: usize, shift: usize, width: usize) -> (field: usize)
    requires
        shift < usize::BITS,
        0 < width <= usize::BITS,
    ensures
        field == field_of(first, second, shift, width),
{
    let bits = usize::BITS as usize;
    let low = first >> shift;
    let high = if shift + width > bits {
        second << (bits - shift)
    } else {
        0
    };
    (low | high) & mask(width)
}

} // verus!
