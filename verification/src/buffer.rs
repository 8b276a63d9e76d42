//! The packed buffer: `depth` cells of `width` bits each, laid end to end in
//! machine words.

use vstd::prelude::*;
use vstd::arithmetic::div_mod::*;
use vstd::arithmetic::mul::*;
use crate::bits::{
    bit_at, field_at, lemma_bit_of_field_at, lemma_bit_of_masked, lemma_bit_of_or,
    lemma_bit_of_shl, lemma_bit_of_shr, lemma_bit_of_zero, lemma_field_words, lemma_place,
    lemma_masked_twice, lemma_word_from_bits, low_mask, mask, read_field, word_bit,
};

verus! {

/// What a buffer holds: the width of a cell in bits, and the cells by address.
pub struct Memory {
    pub width: nat,
    pub cells: Seq<usize>,
}

impl Memory {
    /// A memory of `depth` cells, all zero.
    pub open spec fn blank(width: nat, depth: nat) -> Memory {
        Memory { width, cells: Seq::new(depth, |address: int| 0usize) }
    }

    /// The memory after `value`, cut to the cell's width, is or-ed into the
    /// cell at `address`. Bits that were set stay set.
    pub open spec fn stored(self, address: int, value: usize) -> Memory {
        Memory {
            width: self.width,
            cells: self.cells.update(
                address,
                self.cells[address] | (value & low_mask(self.width as usize)),
            ),
        }
    }
}

/// The shapes a buffer can have: cells of one bit up to one machine word,
/// at least one cell, and a bit count that a `usize` can hold.
pub open spec fn valid_shape(width: nat, depth: nat) -> bool {
    &&& 0 < width <= usize::BITS
    &&& 0 < depth
    &&& depth * width <= usize::MAX
}

/// The number of machine words that hold `depth` cells of `width` bits.
pub open spec fn word_count(width: nat, depth: nat) -> nat {
    ((depth * width + usize::BITS - 1) / (usize::BITS as int)) as nat
}

/// The cell at `address` of a row of words that holds cells of `width` bits.
pub open spec fn cell_at(words: Seq<usize>, width: usize, address: int) -> usize {
    field_at(words, address * width, width)
}

/// Bit-addressable storage of `depth * width` bits. Bit `address * width + k`
/// is bit `k` of the cell at `address`; the bits left over in the last word
/// are zero.
pub struct PackedBuffer {
    width: usize,
    depth: usize,
    words: Vec<usize>,
}

impl View for PackedBuffer {
    type V = Memory;

    closed spec fn view(&self) -> Memory {
        Memory {
            width: self.width as nat,
            cells: Seq::new(
                self.depth as nat,
                |address: int| cell_at(self.words@, self.width, address),
            ),
        }
    }
}

proof fn lemma_cell_inside(width: int, depth: int, address: int)
    requires
        0 < width,
        0 <= address < depth,
    ensures
        0 <= address * width,
        address * width + width <= depth * width,
{
    lemma_mul_nonnegative(address, width);
    lemma_mul_inequality(address + 1, depth, width);
    lemma_mul_is_distributive_add_other_way(width, address, 1);
}

proof fn lemma_cells_apart(width: int, a: int, b: int, k: int)
    requires
        0 < width,
        0 <= k < width,
        0 <= a,
        0 <= b,
        a != b,
    ensures
        !(a * width <= b * width + k < a * width + width),
{
    lemma_mul_is_distributive_add_other_way(width, a, 1);
    lemma_mul_is_distributive_add_other_way(width, b, 1);
    if b < a {
        lemma_mul_inequality(b + 1, a, width);
    } else {
        lemma_mul_inequality(a + 1, b, width);
    }
}

proof fn lemma_count_holds(width: nat, depth: nat)
    ensures
        depth * width <= word_count(width, depth) * usize::BITS,
        word_count(width, depth) == (depth * width) / (usize::BITS as nat) + if (depth * width) % (
        usize::BITS as nat) == 0 {
            0nat
        } else {
            1nat
        },
{
    let bits = usize::BITS as int;
    let total = (depth * width) as int;
    lemma_mul_nonnegative(depth as int, width as int);
    let q = total / bits;
    let r = total % bits;
    lemma_fundamental_div_mod(total, bits);
    lemma_mod_bound(total, bits);
    lemma_mul_is_commutative(bits, q);
    assert((q + 1) * bits == q * bits + bits) by {
        lemma_mul_is_distributive_add_other_way(bits, q, 1);
    }
    if r == 0 {
        lemma_fundamental_div_mod_converse(total + bits - 1, bits, q, bits - 1);
    } else {
        lemma_fundamental_div_mod_converse(total + bits - 1, bits, q + 1, r - 1);
    }
}

impl PackedBuffer {
    /// The invariant of the representation: a valid shape, exactly the
    /// words that the shape needs, and no bit set past the last cell.
    pub closed spec fn wf(&self) -> bool {
        &&& valid_shape(self.width as nat, self.depth as nat)
        &&& self.words@.len() == word_count(self.width as nat, self.depth as nat)
        &&& forall|p: int| self.depth * self.width <= p ==> !#[trigger] bit_at(self.words@, p)
    }

    /// The machine words of the buffer, lowest bits first.
    pub closed spec fn raw(&self) -> Seq<usize> {
        self.words@
    }

    /// A zero-filled buffer of `depth` cells of `width` bits, or nothing
    /// where that is no valid shape.
    pub fn new(width: usize, depth: usize) -> (made: Option<PackedBuffer>)
        ensures
            made is Some <==> valid_shape(width as nat, depth as nat),
            made matches Some(buffer) ==> buffer.wf() && buffer@ == Memory::blank(
                width as nat,
                depth as nat,
            ),
    {
        if width == 0 || width > usize::BITS as usize || depth == 0 {
            return None;
        }
        match depth.checked_mul(width) {
            None => None,
            Some(_) => Some(PackedBuffer::zeroed(width, depth)),
        }
    }

    /// A zero-filled buffer of `depth` cells of `width` bits.
    pub fn zeroed(width: usize, depth: usize) -> (buffer: PackedBuffer)
        requires
            valid_shape(width as nat, depth as nat),
        ensures
            buffer.wf(),
            buffer@ == Memory::blank(width as nat, depth as nat),
    {
        let bits = usize::BITS as usize;
        let total = depth * width;
        proof {
            lemma_count_holds(width as nat, depth as nat);
        }
        let count = if total % bits == 0 {
            total / bits
        } else {
            total / bits + 1
        };
        let words = vec![0usize; count];
        let buffer = PackedBuffer { width, depth, words };
        proof {
            assert forall|p: int| !#[trigger] bit_at(buffer.words@, p) by {
                if 0 <= p < buffer.words@.len() * usize::BITS {
                    lemma_field_words(buffer.words@.len() as int, p, 1);
                    lemma_bit_of_zero((p % (usize::BITS as int)) as usize);
                }
            }
            assert forall|address: int| 0 <= address < depth implies #[trigger] cell_at(
                buffer.words@,
                width,
                address,
            ) == 0usize by {
                lemma_cell_inside(width as int, depth as int, address);
                let cell = field_at(buffer.words@, address * width, width);
                assert forall|k: usize| k < usize::BITS implies word_bit(cell, k) == word_bit(
                    0usize,
                    k,
                ) by {
                    lemma_bit_of_field_at(buffer.words@, address * width, width, k);
                    lemma_bit_of_zero(k);
                }
                lemma_word_from_bits(cell, 0usize);
            }
            assert(buffer@.cells =~= Memory::blank(width as nat, depth as nat).cells);
        }
        buffer
    }

    /// The width of a cell in bits.
    pub fn width(&self) -> (width: usize)
        ensures
            width == self@.width,
    {
        self.width
    }

    /// The number of cells.
    pub fn depth(&self) -> (depth: usize)
        ensures
            depth == self@.cells.len(),
    {
        self.depth
    }

    /// The cell at `address`.
    pub fn get(&self, address: usize) -> (cell: usize)
        requires
            self.wf(),
            address < self@.cells.len(),
        ensures
            cell == self@.cells[address as int],
    {
        let bits = usize::BITS as usize;
        proof {
            lemma_cell_inside(self.width as int, self.depth as int, address as int);
            lemma_count_holds(self.width as nat, self.depth as nat);
            lemma_field_words(
                self.words@.len() as int,
                address * self.width,
                self.width as int,
            );
        }
        let start = address * self.width;
        let index = start / bits;
        let shift = start % bits;
        let second = if index + 1 < self.words.len() {
            self.words[index + 1]
        } else {
            0
        };
        read_field(self.words[index], second, shift, self.width)
    }

    /// Ors `value`, cut to the width of a cell, into the cell at `address`.
    /// Every other cell is left as it was.
    pub fn store(&mut self, address: usize, value: usize)
        requires
            old(self).wf(),
            address < old(self)@.cells.len(),
        ensures
            final(self).wf(),
            final(self)@ == old(self)@.stored(address as int, value),
    {
        let bits = usize::BITS as usize;
        proof {
            lemma_cell_inside(self.width as int, self.depth as int, address as int);
            lemma_count_holds(self.width as nat, self.depth as nat);
            lemma_field_words(
                self.words@.len() as int,
                address * self.width,
                self.width as int,
            );
        }
        let masked = value & mask(self.width);
        let start = address * self.width;
        let index = start / bits;
        let shift = start % bits;
        let low = self.words[index] | (masked << shift);
        self.words[index] = low;
        if shift + self.width > bits {
            let high = self.words[index + 1] | (masked >> (bits - shift));
            self.words[index + 1] = high;
        }
        proof {
            let before = old(self).words@;
            let after = self.words@;
            let width = self.width;
            lemma_masked_twice(value, width);
            assert forall|p: int|
                #[trigger] bit_at(after, p) == (bit_at(before, p) || (start <= p < start + width
                    && word_bit(masked, (p - start) as usize))) by {
                lemma_touched_bits(before, after, start as int, width, masked, p);
            }
            assert forall|p: int| self.depth * self.width <= p implies !#[trigger] bit_at(
                after,
                p,
            ) by {
                assert(!bit_at(before, p));
            }
            let expected = old(self)@.stored(address as int, value);
            assert forall|other: int| 0 <= other < self.depth implies #[trigger] self@.cells[other]
                == expected.cells[other] by {
                lemma_cell_inside(width as int, self.depth as int, other);
                let new_cell = field_at(after, other * width, width);
                let old_cell = field_at(before, other * width, width);
                assert forall|k: usize| k < usize::BITS implies word_bit(new_cell, k) == word_bit(
                    expected.cells[other],
                    k,
                ) by {
                    lemma_bit_of_field_at(after, other * width, width, k);
                    lemma_bit_of_field_at(before, other * width, width, k);
                    lemma_bit_of_masked(value, width, k);
                    if other == address {
                        lemma_bit_of_or(old_cell, masked, k);
                    } else if k < width {
                        lemma_cells_apart(width as int, address as int, other, k as int);
                    }
                }
                lemma_word_from_bits(new_cell, expected.cells[other]);
            }
            assert(self@.cells =~= expected.cells);
        }
    }

    /// The machine words of the buffer.
    pub fn words(&self) -> (words: &Vec<usize>)
        ensures
            words@ == self.raw(),
    {
        &self.words
    }

    /// Gives up the buffer for its machine words.
    pub fn into_words(self) -> (words: Vec<usize>)
        ensures
            words@ == self.raw(),
    {
        self.words
    }

    /// The buffer has exactly the words its shape needs.
    pub proof fn lemma_raw_len(&self)
        requires
            self.wf(),
        ensures
            self.raw().len() == word_count(self@.width, self@.cells.len()),
    {
    }

    /// Each bit of the words is the bit of the cell it belongs to, and the
    /// bits past the last cell are clear.
    pub proof fn lemma_raw_bits(&self, p: int)
        requires
            self.wf(),
        ensures
            bit_at(self.raw(), p) == (0 <= p < self@.cells.len() * self@.width && word_bit(
                self@.cells[p / (self@.width as int)],
                (p % (self@.width as int)) as usize,
            )),
    {
        let width = self.width as int;
        let depth = self.depth as int;
        if 0 <= p < depth * width {
            let address = p / width;
            let k = p % width;
            lemma_fundamental_div_mod(p, width);
            lemma_mod_bound(p, width);
            lemma_mul_is_commutative(width, address);
            if address >= depth {
                lemma_mul_inequality(depth, address, width);
            }
            if address < 0 {
                lemma_mul_inequality(address, -1, width);
            }
            lemma_cell_inside(width, depth, address);
            lemma_count_holds(self.width as nat, self.depth as nat);
            lemma_bit_of_field_at(self.words@, address * width, self.width, k as usize);
        } else if p < 0 {
        } else {
            assert(!bit_at(self.words@, p));
        }
    }

    /// The memory decides the words: two buffers that hold the same are
    /// word for word the same.
    pub proof fn lemma_same_memory_same_words(&self, other: &PackedBuffer)
        requires
            self.wf(),
            other.wf(),
            self@ == other@,
        ensures
            self.raw() == other.raw(),
    {
        assert(self.width == other.width);
        assert(self.depth == other.depth) by {
            assert(self@.cells.len() == self.depth);
            assert(other@.cells.len() == other.depth);
        }
        assert forall|j: int| 0 <= j < self.words@.len() implies self.words@[j]
            == other.words@[j] by {
            assert forall|k: usize| k < usize::BITS implies word_bit(self.words@[j], k)
                == word_bit(other.words@[j], k) by {
                let p = j * usize::BITS + k;
                lemma_place(j, k as int, p);
                self.lemma_raw_bits(p);
                other.lemma_raw_bits(p);
                assert(0 <= p < self.words@.len() * usize::BITS) by {
                    lemma_mul_inequality(j + 1, self.words@.len() as int, usize::BITS as int);
                    lemma_mul_is_distributive_add_other_way(usize::BITS as int, j, 1);
                    lemma_mul_nonnegative(j, usize::BITS as int);
                }
            }
            lemma_word_from_bits(self.words@[j], other.words@[j]);
        }
        assert(self.words@ =~= other.words@);
    }
}

/// What or-ing a masked value into the words at `start` does to each bit of
/// the row.
proof fn lemma_touched_bits(
    before: Seq<usize>,
    after: Seq<usize>,
    start: int,
    width: usize,
    masked: usize,
    p: int,
)
    requires
        0 < width <= usize::BITS,
        0 <= start,
        start + width <= before.len() * usize::BITS,
        after.len() == before.len(),
        masked == masked & low_mask(width),
        forall|j: int|
            0 <= j < before.len() ==> #[trigger] after[j] == if j == start / (usize::BITS as int) {
                before[j] | (masked << ((start % (usize::BITS as int)) as usize))
            } else if j == start / (usize::BITS as int) + 1 && start % (usize::BITS as int) + width
                > usize::BITS {
                before[j] | (masked >> ((usize::BITS - start % (usize::BITS as int)) as usize))
            } else {
                before[j]
            },
    ensures
        bit_at(after, p) == (bit_at(before, p) || (start <= p < start + width && word_bit(
            masked,
            (p - start) as usize,
        ))),
{
    let bits = usize::BITS as int;
    let index = start / bits;
    let shift = start % bits;
    lemma_field_words(before.len() as int, start, width as int);
    assert((index + 1) * bits == index * bits + bits) by {
        lemma_mul_is_distributive_add_other_way(bits, index, 1);
    }
    if 0 <= p < before.len() * bits {
        lemma_field_words(before.len() as int, p, 1);
        let j = p / bits;
        let k = p % bits;
        assert(after[j] == after[j]);
        if start <= p < start + width {
            lemma_bit_of_masked(masked, width, (p - start) as usize);
        }
        if j == index {
            lemma_bit_of_or(before[j], masked << (shift as usize), k as usize);
            lemma_bit_of_shl(masked, shift as usize, k as usize);
            if k >= shift {
                lemma_bit_of_masked(masked, width, (k - shift) as usize);
            }
        } else if j == index + 1 {
            if shift + width > bits {
                let back = (bits - shift) as usize;
                lemma_bit_of_or(before[j], masked >> back, k as usize);
                lemma_bit_of_shr(masked, back, k as usize);
                if k + back < bits {
                    lemma_bit_of_masked(masked, width, (k + back) as usize);
                }
            }
        } else if j < index {
            lemma_mul_inequality(j + 1, index, bits);
            lemma_mul_is_distributive_add_other_way(bits, j, 1);
        } else {
            lemma_mul_inequality(index + 2, j, bits);
            lemma_mul_is_distributive_add_other_way(bits, index, 2);
        }
    } else if start <= p < start + width {
        assert(false);
    }
}

} // verus!
