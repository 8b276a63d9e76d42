//! What the writer needs of a number: how many bits it has, its bit
//! pattern, and its value as a signed decimal.

use vstd::prelude::*;
use vstd::arithmetic::power2::*;

verus! {

/// The value by which cells are compared and from which they are printed:
/// a magnitude and a sign. The bit pattern of a cell is such a value without
/// a sign.
#[derive(Clone, Copy, PartialEq, Eq, Debug, Structural)]
pub struct ValueKey {
    /// Whether the value is below zero.
    pub negative: bool,
    /// The value without its sign.
    pub magnitude: u128,
}

impl ValueKey {
    /// There is one zero: it has no sign.
    pub open spec fn wf(self) -> bool {
        self.negative ==> self.magnitude > 0
    }

    /// The number that the key stands for.
    pub open spec fn value(self) -> int {
        if self.negative {
            -(self.magnitude as int)
        } else {
            self.magnitude as int
        }
    }

    /// The key of a number that has no sign.
    pub fn unsigned(magnitude: u128) -> (key: ValueKey)
        ensures
            key == (ValueKey { negative: false, magnitude }),
            key.wf(),
            key.value() == magnitude,
    {
        ValueKey { negative: false, magnitude }
    }

    /// The key of a signed number.
    pub fn signed(value: i128) -> (key: ValueKey)
        ensures
            key.wf(),
            key.value() == value,
    {
        if value >= 0 {
            ValueKey { negative: false, magnitude: value as u128 }
        } else {
            ValueKey { negative: true, magnitude: (-(value + 1)) as u128 + 1 }
        }
    }
}

/// A number that can be written as a cell of a memory.
pub trait ToMif {
    /// The number of bits of the cell.
    const WIDTH: usize;

    /// The bits of the number, read as an unsigned number.
    spec fn bit_pattern(&self) -> nat;

    /// The number as the signed decimal radix prints it.
    spec fn signed_value(&self) -> int;

    /// The number as the signed decimal radix prints it. For a type that
    /// has no sign this is the same number as [`ToMif::bits`] gives.
    fn signed(&self) -> (key: ValueKey)
        ensures
            key.wf(),
            key.value() == self.signed_value(),
    ;

    /// The bits of the number.
    fn bits(&self) -> (bits: u128)
        ensures
            bits == self.bit_pattern(),
    ;

    /// The bits of a number are no more than [`ToMif::WIDTH`].
    proof fn lemma_bits_fit(&self)
        ensures
            self.bit_pattern() < pow2(Self::WIDTH as nat),
    ;
}

proof fn lemma_pow2_128()
    ensures
        pow2(128) == 0x1_0000_0000_0000_0000_0000_0000_0000_0000,
{
    lemma2_to64();
    lemma_pow2_adds(64, 64);
}

proof fn lemma_pow2_word()
    ensures
        pow2(usize::BITS as nat) == usize::MAX + 1,
{
    lemma2_to64();
}

impl ToMif for u8 {
    const WIDTH: usize = 8;

    open spec fn bit_pattern(&self) -> nat {
        *self as nat
    }

    open spec fn signed_value(&self) -> int {
        *self as int
    }

    fn signed(&self) -> (key: ValueKey) {
        ValueKey::unsigned(*self as u128)
    }

    fn bits(&self) -> (bits: u128) {
        proof {
            lemma2_to64();
        }
        *self as u128
    }

    proof fn lemma_bits_fit(&self) {
        lemma2_to64();
    }
}

impl ToMif for i8 {
    const WIDTH: usize = 8;

    open spec fn bit_pattern(&self) -> nat {
        if *self >= 0 {
            *self as nat
        } else {
            (*self + 0x100) as nat
        }
    }

    open spec fn signed_value(&self) -> int {
        *self as int
    }

    fn signed(&self) -> (key: ValueKey) {
        ValueKey::signed(*self as i128)
    }

    fn bits(&self) -> (bits: u128) {
        let pattern = *self as u8;
        proof {
            lemma2_to64();
            assert(pattern as int == if *self >= 0 {
                *self as int
            } else {
                *self + 0x100
            }) by (bit_vector)
                requires
                    pattern == *self as u8,
            ;
        }
        pattern as u128
    }

    proof fn lemma_bits_fit(&self) {
        lemma2_to64();
    }
}

impl ToMif for u16 {
    const WIDTH: usize = 16;

    open spec fn bit_pattern(&self) -> nat {
        *self as nat
    }

    open spec fn signed_value(&self) -> int {
        *self as int
    }

    fn signed(&self) -> (key: ValueKey) {
        ValueKey::unsigned(*self as u128)
    }

    fn bits(&self) -> (bits: u128) {
        proof {
            lemma2_to64();
        }
        *self as u128
    }

    proof fn lemma_bits_fit(&self) {
        lemma2_to64();
    }
}

impl ToMif for i16 {
    const WIDTH: usize = 16;

    open spec fn bit_pattern(&self) -> nat {
        if *self >= 0 {
            *self as nat
        } else {
            (*self + 0x1_0000) as nat
        }
    }

    open spec fn signed_value(&self) -> int {
        *self as int
    }

    fn signed(&self) -> (key: ValueKey) {
        ValueKey::signed(*self as i128)
    }

    fn bits(&self) -> (bits: u128) {
        let pattern = *self as u16;
        proof {
            lemma2_to64();
            assert(pattern as int == if *self >= 0 {
                *self as int
            } else {
                *self + 0x1_0000
            }) by (bit_vector)
                requires
                    pattern == *self as u16,
            ;
        }
        pattern as u128
    }

    proof fn lemma_bits_fit(&self) {
        lemma2_to64();
    }
}

impl ToMif for u32 {
    const WIDTH: usize = 32;

    open spec fn bit_pattern(&self) -> nat {
        *self as nat
    }

    open spec fn signed_value(&self) -> int {
        *self as int
    }

    fn signed(&self) -> (key: ValueKey) {
        ValueKey::unsigned(*self as u128)
    }

    fn bits(&self) -> (bits: u128) {
        proof {
            lemma2_to64();
        }
        *self as u128
    }

    proof fn lemma_bits_fit(&self) {
        lemma2_to64();
    }
}

impl ToMif for i32 {
    const WIDTH: usize = 32;

    open spec fn bit_pattern(&self) -> nat {
        if *self >= 0 {
            *self as nat
        } else {
            (*self + 0x1_0000_0000) as nat
        }
    }

    open spec fn signed_value(&self) -> int {
        *self as int
    }

    fn signed(&self) -> (key: ValueKey) {
        ValueKey::signed(*self as i128)
    }

    fn bits(&self) -> (bits: u128) {
        let pattern = *self as u32;
        proof {
            lemma2_to64();
            assert(pattern as int == if *self >= 0 {
                *self as int
            } else {
                *self + 0x1_0000_0000
            }) by (bit_vector)
                requires
                    pattern == *self as u32,
            ;
        }
        pattern as u128
    }

    proof fn lemma_bits_fit(&self) {
        lemma2_to64();
    }
}

impl ToMif for u64 {
    const WIDTH: usize = 64;

    open spec fn bit_pattern(&self) -> nat {
        *self as nat
    }

    open spec fn signed_value(&self) -> int {
        *self as int
    }

    fn signed(&self) -> (key: ValueKey) {
        ValueKey::unsigned(*self as u128)
    }

    fn bits(&self) -> (bits: u128) {
        proof {
            lemma2_to64();
        }
        *self as u128
    }

    proof fn lemma_bits_fit(&self) {
        lemma2_to64();
    }
}

impl ToMif for i64 {
    const WIDTH: usize = 64;

    open spec fn bit_pattern(&self) -> nat {
        if *self >= 0 {
            *self as nat
        } else {
            (*self + 0x1_0000_0000_0000_0000) as nat
        }
    }

    open spec fn signed_value(&self) -> int {
        *self as int
    }

    fn signed(&self) -> (key: ValueKey) {
        ValueKey::signed(*self as i128)
    }

    fn bits(&self) -> (bits: u128) {
        let pattern = *self as u64;
        proof {
            lemma2_to64();
            assert(pattern as int == if *self >= 0 {
                *self as int
            } else {
                *self + 0x1_0000_0000_0000_0000
            }) by (bit_vector)
                requires
                    pattern == *self as u64,
            ;
        }
        pattern as u128
    }

    proof fn lemma_bits_fit(&self) {
        lemma2_to64();
    }
}

impl ToMif for u128 {
    const WIDTH: usize = 128;

    open spec fn bit_pattern(&self) -> nat {
        *self as nat
    }

    open spec fn signed_value(&self) -> int {
        *self as int
    }

    fn signed(&self) -> (key: ValueKey) {
        ValueKey::unsigned(*self)
    }

    fn bits(&self) -> (bits: u128) {
        proof {
            lemma_pow2_128();
        }
        *self
    }

    proof fn lemma_bits_fit(&self) {
        lemma_pow2_128();
    }
}

impl ToMif for i128 {
    const WIDTH: usize = 128;

    open spec fn bit_pattern(&self) -> nat {
        if *self >= 0 {
            *self as nat
        } else {
            (*self + 0x1_0000_0000_0000_0000_0000_0000_0000_0000) as nat
        }
    }

    open spec fn signed_value(&self) -> int {
        *self as int
    }

    fn signed(&self) -> (key: ValueKey) {
        ValueKey::signed(*self)
    }

    fn bits(&self) -> (bits: u128) {
        let pattern = *self as u128;
        proof {
            lemma_pow2_128();
            assert(pattern as int == if *self >= 0 {
                *self as int
            } else {
                *self + 0x1_0000_0000_0000_0000_0000_0000_0000_0000
            }) by (bit_vector)
                requires
                    pattern == *self as u128,
            ;
        }
        pattern
    }

    proof fn lemma_bits_fit(&self) {
        lemma_pow2_128();
    }
}

impl ToMif for usize {
    const WIDTH: usize = usize::BITS as usize;

    open spec fn bit_pattern(&self) -> nat {
        *self as nat
    }

    open spec fn signed_value(&self) -> int {
        *self as int
    }

    fn signed(&self) -> (key: ValueKey) {
        ValueKey::unsigned(*self as u128)
    }

    fn bits(&self) -> (bits: u128) {
        proof {
            lemma_pow2_word();
        }
        *self as u128
    }

    proof fn lemma_bits_fit(&self) {
        lemma_pow2_word();
    }
}

impl ToMif for isize {
    const WIDTH: usize = usize::BITS as usize;

    open spec fn bit_pattern(&self) -> nat {
        if *self >= 0 {
            *self as nat
        } else {
            (*self + usize::MAX + 1) as nat
        }
    }

    open spec fn signed_value(&self) -> int {
        *self as int
    }

    fn signed(&self) -> (key: ValueKey) {
        ValueKey::signed(*self as i128)
    }

    fn bits(&self) -> (bits: u128) {
        let pattern = *self as usize;
        proof {
            lemma_pow2_word();
            assert(pattern as int == if *self >= 0 {
                *self as int
            } else {
                *self + !0usize + 1
            }) by (bit_vector)
                requires
                    pattern == *self as usize,
            ;
            assert(!0usize == usize::MAX) by {
                lemma_all_ones();
            }
        }
        pattern as u128
    }

    proof fn lemma_bits_fit(&self) {
        lemma_pow2_word();
    }
}

proof fn lemma_all_ones()
    ensures
        !0usize == usize::MAX,
{
    let most: usize = usize::MAX;
    assert(most <= !0usize) by (bit_vector);
}

/// A cell that holds an `u8` has 8 bits.
pub proof fn lemma_width_u8()
    ensures
        <u8 as ToMif>::WIDTH == 8,
{
}

/// A cell that holds an `i8` has 8 bits.
pub proof fn lemma_width_i8()
    ensures
        <i8 as ToMif>::WIDTH == 8,
{
}

/// A cell that holds an `u16` has 16 bits.
pub proof fn lemma_width_u16()
    ensures
        <u16 as ToMif>::WIDTH == 16,
{
}

/// A cell that holds an `i16` has 16 bits.
pub proof fn lemma_width_i16()
    ensures
        <i16 as ToMif>::WIDTH == 16,
{
}

/// A cell that holds an `u32` has 32 bits.
pub proof fn lemma_width_u32()
    ensures
        <u32 as ToMif>::WIDTH == 32,
{
}

/// A cell that holds an `i32` has 32 bits.
pub proof fn lemma_width_i32()
    ensures
        <i32 as ToMif>::WIDTH == 32,
{
}

/// A cell that holds an `u64` has 64 bits.
pub proof fn lemma_width_u64()
    ensures
        <u64 as ToMif>::WIDTH == 64,
{
}

/// A cell that holds an `i64` has 64 bits.
pub proof fn lemma_width_i64()
    ensures
        <i64 as ToMif>::WIDTH == 64,
{
}

/// A cell that holds an `u128` has 128 bits.
pub proof fn lemma_width_u128()
    ensures
        <u128 as ToMif>::WIDTH == 128,
{
}

/// A cell that holds an `i128` has 128 bits.
pub proof fn lemma_width_i128()
    ensures
        <i128 as ToMif>::WIDTH == 128,
{
}

/// A cell that holds an `usize` has as many bits as a machine word.
pub proof fn lemma_width_usize()
    ensures
        <usize as ToMif>::WIDTH == usize::BITS,
{
}

/// A cell that holds an `isize` has as many bits as a machine word.
pub proof fn lemma_width_isize()
    ensures
        <isize as ToMif>::WIDTH == usize::BITS,
{
}

} // verus!
