//! What a literal leaves in a cell: its low bits, however long it is.

use vstd::prelude::*;
use vstd::arithmetic::div_mod::*;
use vstd::arithmetic::power2::*;
use vstd::bits::*;
use crate::bits::low_mask;
use crate::buffer::Memory;
use crate::content::{AddressSpec, Statement};
use crate::numeral::{word_modulus, word_of};

verus! {

/// A machine word has two to the `usize::BITS` values.
pub proof fn lemma_word_modulus()
    ensures
        word_modulus() == pow2(usize::BITS as nat),
{
    lemma2_to64();
}

proof fn lemma_all_ones_keep(word: usize)
    by (bit_vector)
    ensures
        word & !0usize == word,
{
}

/// The mask of the low bits is one less than a power of two.
pub proof fn lemma_low_mask_is_power(width: usize)
    requires
        width < usize::BITS,
    ensures
        low_mask(width) == low_bits_mask(width as nat),
        low_mask(width) == pow2(width as nat) - 1,
{
    lemma_pow2_strictly_increases(width as nat, usize::BITS as nat);
    lemma_pow2_pos(width as nat);
    lemma_word_modulus();
    assert(1 * pow2(width as nat) == pow2(width as nat));
    lemma_usize_shl_is_mul(1, width);
    assert(1usize << width == pow2(width as nat));
}

/// Of a literal, however long, the cell gets what is left of the number
/// modulo two to the width of the cell.
pub proof fn lemma_masked_literal(number: nat, width: usize)
    requires
        0 < width <= usize::BITS,
    ensures
        word_of(number) & low_mask(width) == number % pow2(width as nat),
{
    let word = word_of(number);
    lemma_word_modulus();
    lemma_pow2_pos(usize::BITS as nat);
    lemma_mod_bound(number as int, word_modulus() as int);
    if width == usize::BITS {
        lemma_all_ones_keep(word);
    } else {
        lemma_low_mask_is_power(width);
        lemma_usize_low_bits_mask_is_mod(word, width as nat);
        lemma_pow2_pos(width as nat);
        lemma_pow2_pos((usize::BITS - width) as nat);
        lemma_pow2_adds(width as nat, (usize::BITS - width) as nat);
        lemma_pow2_strictly_increases(width as nat, usize::BITS as nat);
        lemma_mod_mod(
            number as int,
            pow2(width as nat) as int,
            pow2((usize::BITS - width) as nat) as int,
        );
    }
}

/// The machine words of some literals.
pub open spec fn words_of(numbers: Seq<nat>) -> Seq<usize> {
    Seq::new(numbers.len(), |i: int| word_of(numbers[i]))
}

/// What is left of a number modulo two to the `width`.
pub open spec fn low_part(number: nat, width: nat) -> nat {
    number % pow2(width)
}

/// Each number reduced modulo two to the `width`.
pub open spec fn reduced(numbers: Seq<nat>, width: nat) -> Seq<nat> {
    Seq::new(numbers.len(), |i: int| low_part(numbers[i], width))
}

/// A literal larger than a cell can hold does to the memory what the literal
/// reduced modulo two to the width of a cell does: an assignment of any
/// numbers and the assignment of the reduced numbers give the same memory.
pub proof fn lemma_literals_wrap(memory: Memory, address: AddressSpec, numbers: Seq<nat>)
    requires
        0 < memory.width <= usize::BITS,
    ensures
        memory.assigned(Statement { address, values: words_of(numbers) }) == memory.assigned(
            Statement { address, values: words_of(reduced(numbers, memory.width)) },
        ),
{
    let width = memory.width as usize;
    let whole = Statement { address, values: words_of(numbers) };
    let cut = Statement { address, values: words_of(reduced(numbers, memory.width)) };
    assert forall|at: int| 0 <= at < memory.cells.len() implies memory.assigned(whole).cells[at]
        == memory.assigned(cut).cells[at] by {
        assert(whole.values.len() == numbers.len());
        assert(reduced(numbers, memory.width).len() == numbers.len());
        assert(cut.values.len() == numbers.len());
        assert(cut.literal_for(at) is Some == whole.literal_for(at) is Some);
        if let Some(literal) = whole.literal_for(at) {
            let i = match address {
                AddressSpec::Single(first) => at - first,
                AddressSpec::Range(from, to) => (at - from) % (numbers.len() as int),
            };
            match address {
                AddressSpec::Single(first) => {},
                AddressSpec::Range(from, to) => {
                    lemma_mod_bound(at - from, numbers.len() as int);
                },
            }
            assert(0 <= i < numbers.len());
            assert(whole.literal_for(at) == Some(whole.values[i]));
            assert(cut.literal_for(at) == Some(cut.values[i]));
            assert(whole.values[i] == word_of(numbers[i]));
            assert(reduced(numbers, memory.width)[i] == numbers[i] % pow2(memory.width));
            assert(cut.values[i] == word_of(numbers[i] % pow2(memory.width)));
            lemma_masked_literal(numbers[i], width);
            lemma_masked_literal(numbers[i] % pow2(memory.width), width);
            lemma_pow2_pos(memory.width);
            lemma_mod_twice(numbers[i] as int, pow2(memory.width) as int);
        }
    }
    assert(memory.assigned(whole).cells =~= memory.assigned(cut).cells);
}

} // verus!
