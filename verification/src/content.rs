//! The content block: assignments of values to one address or to a range
//! of addresses, read one by one and or-ed into the buffer.

use vstd::prelude::*;
use vstd::arithmetic::div_mod::*;
use crate::bits::low_mask;
use crate::buffer::{Memory, PackedBuffer};
use crate::error::{Expected, ParseError};
use crate::header::Header;
use crate::lexer::{
    expect, has_word, lemma_token_end_bounds, lemma_trivia_end_bounds, skip_trivia, token_end,
    trivia_end,
};
use crate::numeral::{lemma_digits_end_bounds, number_at, read_literal, read_number, word_of};
use crate::radix::Radix;

verus! {

/// Where an assignment puts its values.
#[derive(Clone, Copy, PartialEq, Eq, Debug, Structural)]
pub enum AddressSpec {
    /// From this address on, one value per address.
    Single(usize),
    /// Every address from the first to the second, both included; the
    /// values are gone through again and again until the range is full.
    /// A range whose first address lies behind its second is empty.
    Range(usize, usize),
}

/// One assignment as the text gives it: where, and which literals. Each
/// literal is held as the machine word that is left of it.
#[derive(Clone, Debug)]
pub struct Assignment {
    pub address: AddressSpec,
    pub values: Vec<usize>,
}

/// What an [`Assignment`] says.
pub struct Statement {
    pub address: AddressSpec,
    pub values: Seq<usize>,
}

impl View for Assignment {
    type V = Statement;

    open spec fn view(&self) -> Statement {
        Statement { address: self.address, values: self.values@ }
    }
}

impl Statement {
    /// The literal that the statement gives to `address`, if it gives one.
    pub open spec fn literal_for(self, address: int) -> Option<usize> {
        match self.address {
            AddressSpec::Single(first) => if first <= address < first + self.values.len() {
                Some(self.values[address - first])
            } else {
                None
            },
            AddressSpec::Range(from, to) => if from <= address <= to && self.values.len() > 0 {
                Some(self.values[(address - from) % (self.values.len() as int)])
            } else {
                None
            },
        }
    }

    /// Whether every address that the statement writes lies below `depth`.
    pub open spec fn fits(self, depth: nat) -> bool {
        match self.address {
            AddressSpec::Single(first) => first + self.values.len() <= depth,
            AddressSpec::Range(from, to) => from > to || to < depth,
        }
    }
}

impl Memory {
    /// The memory after a statement: each cell that it writes has the
    /// literal, cut to the cell's width, or-ed into it.
    pub open spec fn assigned(self, statement: Statement) -> Memory {
        Memory {
            width: self.width,
            cells: Seq::new(
                self.cells.len(),
                |address: int|
                    match statement.literal_for(address) {
                        Some(literal) => self.cells[address] | (literal & low_mask(
                            self.width as usize,
                        )),
                        None => self.cells[address],
                    },
            ),
        }
    }
}

/// The next place in a cycle of `period` places.
proof fn lemma_cycle_step(distance: int, period: int)
    requires
        0 <= distance,
        0 < period,
    ensures
        (distance + 1) % period == if distance % period + 1 == period {
            0
        } else {
            distance % period + 1
        },
{
    let quotient = distance / period;
    let place = distance % period;
    lemma_fundamental_div_mod(distance, period);
    lemma_mod_bound(distance, period);
    vstd::arithmetic::mul::lemma_mul_is_commutative(period, quotient);
    if place + 1 == period {
        vstd::arithmetic::mul::lemma_mul_is_distributive_add_other_way(period, quotient, 1);
        lemma_fundamental_div_mod_converse(distance + 1, period, quotient + 1, 0);
    } else {
        lemma_fundamental_div_mod_converse(distance + 1, period, quotient, place + 1);
    }
}

impl PackedBuffer {
    /// Carries out one assignment on the buffer.
    pub fn assign(&mut self, assignment: &Assignment)
        requires
            old(self).wf(),
            assignment@.fits(old(self)@.cells.len()),
        ensures
            final(self).wf(),
            final(self)@ == old(self)@.assigned(assignment@),
    {
        let count = assignment.values.len();
        let depth = self.depth();
        let ghost before = self@;
        match assignment.address {
            AddressSpec::Single(first) => {
                let mut done: usize = 0;
                proof {
                    let nothing = Statement {
                        address: assignment.address,
                        values: assignment.values@.subrange(0, 0),
                    };
                    assert(before.cells =~= before.assigned(nothing).cells);
                }
                while done < count
                    invariant
                        self.wf(),
                        before == old(self)@,
                        depth == before.cells.len(),
                        count == assignment.values@.len(),
                        assignment.address == AddressSpec::Single(first),
                        first + count <= before.cells.len(),
                        done <= count,
                        self@ == before.assigned(
                            Statement {
                                address: assignment.address,
                                values: assignment.values@.subrange(0, done as int),
                            },
                        ),
                    decreases count - done,
                {
                    let ghost earlier = self@;
                    self.store(first + done, assignment.values[done]);
                    proof {
                        let shorter = Statement {
                            address: assignment.address,
                            values: assignment.values@.subrange(0, done as int),
                        };
                        let longer = Statement {
                            address: assignment.address,
                            values: assignment.values@.subrange(0, done + 1),
                        };
                        assert(self@.cells =~= before.assigned(longer).cells);
                    }
                    done += 1;
                }
                proof {
                    assert(assignment.values@.subrange(0, count as int) =~= assignment.values@);
                }
            },
            AddressSpec::Range(from, to) => {
                if from > to || count == 0 {
                    proof {
                        assert(self@.cells =~= before.assigned(assignment@).cells);
                    }
                    return ;
                }
                let mut address: usize = from;
                let mut place: usize = 0;
                proof {
                    lemma_small_mod(0, count as nat);
                }
                while address <= to
                    invariant
                        self.wf(),
                        before == old(self)@,
                        depth == before.cells.len(),
                        0 < count == assignment.values@.len(),
                        assignment.address == AddressSpec::Range(from, to),
                        from <= address <= to + 1,
                        to < before.cells.len(),
                        place == (address - from) % (count as int),
                        place < count,
                        self@.width == before.width,
                        self@.cells.len() == before.cells.len(),
                        forall|other: int|
                            0 <= other < before.cells.len() ==> #[trigger] self@.cells[other] == if from
                                <= other < address {
                                before.assigned(assignment@).cells[other]
                            } else {
                                before.cells[other]
                            },
                    decreases to + 1 - address,
                {
                    self.store(address, assignment.values[place]);
                    proof {
                        lemma_cycle_step(address - from, count as int);
                    }
                    place = if place + 1 == count {
                        0
                    } else {
                        place + 1
                    };
                    address += 1;
                }
                proof {
                    assert(self@.cells =~= before.assigned(assignment@).cells);
                }
            },
        }
    }
}

/// The address that stands at `pos`: a number in the base of the addresses
/// that fits a machine word.
pub open spec fn address_number_at(text: Seq<u8>, pos: int, radix: Radix) -> Result<
    (usize, int),
    ParseError,
> {
    match number_at(text, pos, radix) {
        Some((number, end)) => if number <= usize::MAX {
            Ok((number as usize, end))
        } else {
            Err(ParseError::MalformedAddress(pos as usize))
        },
        None => Err(ParseError::MalformedAddress(pos as usize)),
    }
}

/// The opening bracket of a range.
pub open spec fn open_bracket() -> Seq<u8> {
    seq!['[' as u8]
}

/// The word that closes the content block.
pub open spec fn end_word() -> Seq<u8> {
    seq!['E' as u8, 'N' as u8, 'D' as u8]
}

/// What follows the opening bracket of a range: the first address, `..`,
/// the second address and `]`.
pub open spec fn range_at(text: Seq<u8>, pos: int, radix: Radix) -> Result<
    (AddressSpec, int),
    ParseError,
> {
    match trivia_end(text, pos) {
        Err(error) => Err(error),
        Ok(first) => match address_number_at(text, first, radix) {
            Err(error) => Err(error),
            Ok((from, after_from)) => match token_end(text, after_from, Expected::RangeDots) {
                Err(error) => Err(error),
                Ok(after_dots) => match trivia_end(text, after_dots) {
                    Err(error) => Err(error),
                    Ok(second) => match address_number_at(text, second, radix) {
                        Err(error) => Err(error),
                        Ok((to, after_to)) => match token_end(
                            text,
                            after_to,
                            Expected::CloseBracket,
                        ) {
                            Err(error) => Err(error),
                            Ok(end) => Ok((AddressSpec::Range(from, to), end)),
                        },
                    },
                },
            },
        },
    }
}

/// The address part of an assignment that starts at `pos`: a range in
/// brackets, or one address.
pub open spec fn address_at(text: Seq<u8>, pos: int, radix: Radix) -> Result<
    (AddressSpec, int),
    ParseError,
> {
    if has_word(text, pos, open_bracket()) {
        range_at(text, pos + 1, radix)
    } else {
        match address_number_at(text, pos, radix) {
            Err(error) => Err(error),
            Ok((first, end)) => Ok((AddressSpec::Single(first), end)),
        }
    }
}

/// The literals of an assignment from `pos` on, up to and with the `;`
/// that ends them, added to `values`. There has to be at least one.
pub open spec fn values_end(text: Seq<u8>, pos: int, radix: Radix, values: Seq<usize>) -> Result<
    (Seq<usize>, int),
    ParseError,
>
    decreases text.len() - pos,
    when 0 <= pos <= text.len()
{
    match trivia_end(text, pos) {
        Err(error) => Err(error),
        Ok(start) => if has_word(text, start, Expected::Semicolon.word()) {
            if values.len() > 0 {
                Ok((values, start + 1))
            } else {
                Err(ParseError::MalformedLiteral(start as usize))
            }
        } else {
            match number_at(text, start, radix) {
                None => Err(ParseError::MalformedLiteral(start as usize)),
                Some((number, end)) => {
                    proof {
                        lemma_trivia_end_bounds(text, pos);
                        lemma_digits_end_bounds(text, start, radix);
                    }
                    values_end(text, end, radix, values.push(word_of(number)))
                },
            }
        },
    }
}

/// The assignment that starts at `pos`, with the place just past its `;`.
pub open spec fn statement_at(text: Seq<u8>, pos: int, header: Header) -> Result<
    (Statement, int),
    ParseError,
> {
    match address_at(text, pos, header.address_radix) {
        Err(error) => Err(error),
        Ok((address, after_address)) => match token_end(text, after_address, Expected::Colon) {
            Err(error) => Err(error),
            Ok(after_colon) => match values_end(
                text,
                after_colon,
                header.data_radix,
                Seq::empty(),
            ) {
                Err(error) => Err(error),
                Ok((values, end)) => Ok((Statement { address, values }, end)),
            },
        },
    }
}

/// An address ends behind its start, inside the text.
pub proof fn lemma_address_number_at_bounds(text: Seq<u8>, pos: int, radix: Radix)
    requires
        0 <= pos <= text.len(),
    ensures
        address_number_at(text, pos, radix) matches Ok((_, end)) ==> pos < end <= text.len(),
{
    lemma_digits_end_bounds(text, pos, radix);
}

/// The address part of an assignment ends behind its start, inside the text.
pub proof fn lemma_address_at_bounds(text: Seq<u8>, pos: int, radix: Radix)
    requires
        0 <= pos <= text.len(),
    ensures
        address_at(text, pos, radix) matches Ok((_, end)) ==> pos < end <= text.len(),
{
    if has_word(text, pos, open_bracket()) {
        lemma_trivia_end_bounds(text, pos + 1);
        if let Ok(first) = trivia_end(text, pos + 1) {
            lemma_address_number_at_bounds(text, first, radix);
            if let Ok((_, after_from)) = address_number_at(text, first, radix) {
                lemma_token_end_bounds(text, after_from, Expected::RangeDots);
                if let Ok(after_dots) = token_end(text, after_from, Expected::RangeDots) {
                    lemma_trivia_end_bounds(text, after_dots);
                    if let Ok(second) = trivia_end(text, after_dots) {
                        lemma_address_number_at_bounds(text, second, radix);
                        if let Ok((_, after_to)) = address_number_at(text, second, radix) {
                            lemma_token_end_bounds(text, after_to, Expected::CloseBracket);
                        }
                    }
                }
            }
        }
    } else {
        lemma_address_number_at_bounds(text, pos, radix);
    }
}

/// The values of an assignment end behind their start, inside the text, and are at least one.
pub proof fn lemma_values_end_bounds(text: Seq<u8>, pos: int, radix: Radix, values: Seq<usize>)
    requires
        0 <= pos <= text.len(),
    ensures
        values_end(text, pos, radix, values) matches Ok((all, end)) ==> pos < end <= text.len()
            && all.len() > 0,
    decreases text.len() - pos,
{
    lemma_trivia_end_bounds(text, pos);
    if let Ok(start) = trivia_end(text, pos) {
        if !has_word(text, start, Expected::Semicolon.word()) {
            lemma_digits_end_bounds(text, start, radix);
            if let Some((number, end)) = number_at(text, start, radix) {
                lemma_values_end_bounds(text, end, radix, values.push(word_of(number)));
            }
        }
    }
}

/// An assignment ends behind its start, inside the text, and has at least one value.
pub proof fn lemma_statement_at_bounds(text: Seq<u8>, pos: int, header: Header)
    requires
        0 <= pos <= text.len(),
    ensures
        statement_at(text, pos, header) matches Ok((statement, end)) ==> pos < end <= text.len()
            && statement.values.len() > 0,
{
    lemma_address_at_bounds(text, pos, header.address_radix);
    if let Ok((_, after_address)) = address_at(text, pos, header.address_radix) {
        lemma_token_end_bounds(text, after_address, Expected::Colon);
        if let Ok(after_colon) = token_end(text, after_address, Expected::Colon) {
            lemma_values_end_bounds(text, after_colon, header.data_radix, Seq::empty());
        }
    }
}

/// Reads the content block from `pos` on, the place just past `BEGIN`:
/// assignments, each carried out on `memory` in the order of the text, up
/// to `END` and its `;`. An assignment that writes past the last cell is an
/// error at the place where it starts. What follows `END;` is not looked at.
pub open spec fn content_end(text: Seq<u8>, pos: int, header: Header, memory: Memory) -> Result<
    Memory,
    ParseError,
>
    decreases text.len() - pos,
    when 0 <= pos <= text.len()
{
    match trivia_end(text, pos) {
        Err(error) => Err(error),
        Ok(start) => if has_word(text, start, end_word()) {
            match token_end(text, start + 3, Expected::Semicolon) {
                Err(error) => Err(error),
                Ok(_) => Ok(memory),
            }
        } else {
            match statement_at(text, start, header) {
                Err(error) => Err(error),
                Ok((statement, end)) => if statement.fits(header.depth as nat) {
                    proof {
                        lemma_trivia_end_bounds(text, pos);
                        lemma_statement_at_bounds(text, start, header);
                    }
                    content_end(text, end, header, memory.assigned(statement))
                } else {
                    Err(ParseError::MalformedAddress(start as usize))
                },
            }
        },
    }
}

fn read_address_number(text: &[u8], pos: usize, radix: Radix) -> (found: Result<
    (usize, usize),
    ParseError,
>)
    requires
        pos <= text@.len(),
    ensures
        match found {
            Ok((address, end)) => address_number_at(text@, pos as int, radix) == Ok::<
                (usize, int),
                ParseError,
            >((address, end as int)) && pos < end <= text@.len(),
            Err(error) => address_number_at(text@, pos as int, radix) == Err::<
                (usize, int),
                ParseError,
            >(error),
        },
{
    match read_number(text, pos, radix) {
        Some((Some(number), end)) => Ok((number, end)),
        _ => Err(ParseError::MalformedAddress(pos)),
    }
}

/// Whether an exec result says what a spec result says, place for place.
pub open spec fn same_address(
    found: Result<(AddressSpec, usize), ParseError>,
    wanted: Result<(AddressSpec, int), ParseError>,
) -> bool {
    match found {
        Ok((address, end)) => wanted == Ok::<(AddressSpec, int), ParseError>(
            (address, end as int),
        ),
        Err(error) => wanted == Err::<(AddressSpec, int), ParseError>(error),
    }
}

fn read_range(text: &[u8], pos: usize, radix: Radix) -> (found: Result<
    (AddressSpec, usize),
    ParseError,
>)
    requires
        pos <= text@.len(),
    ensures
        same_address(found, range_at(text@, pos as int, radix)),
        found matches Ok((_, end)) ==> pos < end <= text@.len(),
{
    let first = skip_trivia(text, pos)?;
    let (from, after_from) = read_address_number(text, first, radix)?;
    let after_dots = expect(text, after_from, Expected::RangeDots)?;
    let second = skip_trivia(text, after_dots)?;
    let (to, after_to) = read_address_number(text, second, radix)?;
    let end = expect(text, after_to, Expected::CloseBracket)?;
    Ok((AddressSpec::Range(from, to), end))
}

fn read_address(text: &[u8], pos: usize, radix: Radix) -> (found: Result<
    (AddressSpec, usize),
    ParseError,
>)
    requires
        pos <= text@.len(),
    ensures
        same_address(found, address_at(text@, pos as int, radix)),
        found matches Ok((_, end)) ==> pos < end <= text@.len(),
{
    if pos < text.len() && text[pos] == '[' as u8 {
        assert(text@.subrange(pos as int, pos + 1) =~= open_bracket());
        read_range(text, pos + 1, radix)
    } else {
        proof {
            if has_word(text@, pos as int, open_bracket()) {
                assert(text@.subrange(pos as int, pos + 1)[0] == text@[pos as int]);
            }
        }
        let (first, end) = read_address_number(text, pos, radix)?;
        Ok((AddressSpec::Single(first), end))
    }
}

fn read_values(text: &[u8], pos: usize, radix: Radix) -> (found: Result<
    (Vec<usize>, usize),
    ParseError,
>)
    requires
        pos <= text@.len(),
    ensures
        match found {
            Ok((values, end)) => values_end(text@, pos as int, radix, Seq::empty()) == Ok::<
                (Seq<usize>, int),
                ParseError,
            >((values@, end as int)) && pos < end <= text@.len(),
            Err(error) => values_end(text@, pos as int, radix, Seq::empty()) == Err::<
                (Seq<usize>, int),
                ParseError,
            >(error),
        },
{
    let mut values: Vec<usize> = Vec::new();
    let mut at = pos;
    loop
        invariant
            pos <= at <= text@.len(),
            values@.len() > 0 ==> pos < at,
            values_end(text@, pos as int, radix, Seq::empty()) == values_end(
                text@,
                at as int,
                radix,
                values@,
            ),
        decreases text@.len() - at,
    {
        let start = skip_trivia(text, at)?;
        if start < text.len() && text[start] == ';' as u8 {
            assert(text@.subrange(start as int, start + 1) =~= Expected::Semicolon.word());
            if values.len() > 0 {
                return Ok((values, start + 1));
            } else {
                return Err(ParseError::MalformedLiteral(start));
            }
        }
        proof {
            if has_word(text@, start as int, Expected::Semicolon.word()) {
                assert(text@.subrange(start as int, start + 1)[0] == text@[start as int]);
            }
        }
        match read_literal(text, start, radix) {
            None => {
                return Err(ParseError::MalformedLiteral(start));
            },
            Some((value, end)) => {
                values.push(value);
                at = end;
            },
        }
    }
}

fn read_statement(text: &[u8], pos: usize, header: &Header) -> (found: Result<
    (Assignment, usize),
    ParseError,
>)
    requires
        pos <= text@.len(),
    ensures
        match found {
            Ok((assignment, end)) => statement_at(text@, pos as int, *header) == Ok::<
                (Statement, int),
                ParseError,
            >((assignment@, end as int)) && pos < end <= text@.len(),
            Err(error) => statement_at(text@, pos as int, *header) == Err::<
                (Statement, int),
                ParseError,
            >(error),
        },
{
    let (address, after_address) = read_address(text, pos, header.address_radix)?;
    let after_colon = expect(text, after_address, Expected::Colon)?;
    let (values, end) = read_values(text, after_colon, header.data_radix)?;
    Ok((Assignment { address, values }, end))
}

/// Whether every address that the assignment writes lies below `depth`.
fn fits(assignment: &Assignment, depth: usize) -> (yes: bool)
    ensures
        yes == assignment@.fits(depth as nat),
{
    match assignment.address {
        AddressSpec::Single(first) => first <= depth && assignment.values.len() <= depth - first,
        AddressSpec::Range(from, to) => from > to || to < depth,
    }
}

/// Reads the content block from `pos` on into `buffer`.
pub fn read_content(text: &[u8], pos: usize, header: &Header, buffer: &mut PackedBuffer) -> (found:
    Result<(), ParseError>)
    requires
        pos <= text@.len(),
        old(buffer).wf(),
        old(buffer)@.cells.len() == header.depth,
    ensures
        final(buffer).wf(),
        match found {
            Ok(()) => content_end(text@, pos as int, *header, old(buffer)@) == Ok::<
                Memory,
                ParseError,
            >(final(buffer)@),
            Err(error) => content_end(text@, pos as int, *header, old(buffer)@) == Err::<
                Memory,
                ParseError,
            >(error),
        },
{
    let word_end: [u8; 3] = ['E' as u8, 'N' as u8, 'D' as u8];
    assert(word_end@ =~= end_word());
    let length = text.len();
    let mut at = pos;
    loop
        invariant
            length == text@.len(),
            at <= text@.len(),
            buffer.wf(),
            buffer@.cells.len() == header.depth,
            word_end@ == end_word(),
            content_end(text@, pos as int, *header, old(buffer)@) == content_end(
                text@,
                at as int,
                *header,
                buffer@,
            ),
        decreases text@.len() - at,
    {
        let start = skip_trivia(text, at)?;
        if crate::lexer::starts_with(text, start, word_end.as_slice()) {
            expect(text, start + 3, Expected::Semicolon)?;
            return Ok(());
        }
        let (assignment, end) = read_statement(text, start, header)?;
        if !fits(&assignment, header.depth) {
            return Err(ParseError::MalformedAddress(start));
        }
        buffer.assign(&assignment);
        at = end;
    }
}

} // verus!
