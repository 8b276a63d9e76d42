//! From text to a packed buffer.

use vstd::prelude::*;
use vstd::string::*;
use crate::buffer::{valid_shape, Memory, PackedBuffer};
use crate::content::{content_end, read_content};
use crate::error::{Expected, ParseError};
use crate::header::{header_end, max_depth, read_header, HeaderDraft};
use crate::lexer::{expect, token_end};

verus! {

/// What a text says: the memory it describes, or what is wrong with it.
///
/// The text is a header, the words `CONTENT` and `BEGIN`, assignments, and
/// `END;`. The memory starts out as zeros, of the shape that the header
/// gives, and the assignments are carried out on it in the order of the
/// text. The first thing that is wrong ends the reading.
///
/// A byte that is no digit of the base is a `MalformedLiteral` where a value
/// has to stand and a `MalformedAddress` where an address has to start.
/// Behind the digits of an address it is an `UnexpectedToken`, at that byte,
/// for what had to come next: the colon, the dots or the bracket.
pub open spec fn decode_text(text: Seq<u8>) -> Result<Memory, ParseError> {
    match header_end(text, 0, HeaderDraft::empty()) {
        Err(error) => Err(error),
        Ok((draft, after_header)) => match draft.complete() {
            Err(error) => Err(error),
            Ok(header) => match token_end(text, after_header, Expected::Content) {
                Err(error) => Err(error),
                Ok(after_content) => match token_end(text, after_content, Expected::Begin) {
                    Err(error) => Err(error),
                    Ok(after_begin) => content_end(
                        text,
                        after_begin,
                        header,
                        Memory::blank(header.width as nat, header.depth as nat),
                    ),
                },
            },
        },
    }
}

/// Every value that a header can hold for width and depth is one that the
/// buffer can be made with.
pub proof fn lemma_header_shape(width: usize, depth: usize)
    requires
        0 < width <= usize::BITS,
        0 < depth <= max_depth(),
    ensures
        valid_shape(width as nat, depth as nat),
{
    let bits = usize::BITS as int;
    vstd::arithmetic::mul::lemma_mul_inequality(width as int, bits, depth as int);
    vstd::arithmetic::mul::lemma_mul_is_commutative(width as int, depth as int);
    vstd::arithmetic::mul::lemma_mul_inequality(
        depth as int,
        (usize::MAX as int) / bits,
        bits,
    );
    vstd::arithmetic::div_mod::lemma_fundamental_div_mod(usize::MAX as int, bits);
    vstd::arithmetic::div_mod::lemma_mod_bound(usize::MAX as int, bits);
    vstd::arithmetic::mul::lemma_mul_is_commutative((usize::MAX as int) / bits, bits);
}

/// Reads the bytes of a text into a buffer.
pub fn decode_bytes(text: &[u8]) -> (decoded: Result<PackedBuffer, ParseError>)
    ensures
        match decoded {
            Ok(buffer) => buffer.wf() && decode_text(text@) == Ok::<Memory, ParseError>(buffer@),
            Err(error) => decode_text(text@) == Err::<Memory, ParseError>(error),
        },
{
    let (draft, after_header) = read_header(text)?;
    let header = draft.finish()?;
    let after_content = expect(text, after_header, Expected::Content)?;
    let after_begin = expect(text, after_content, Expected::Begin)?;
    proof {
        lemma_header_holds(text@, 0, HeaderDraft::empty());
        lemma_header_shape(header.width, header.depth);
    }
    let mut buffer = PackedBuffer::zeroed(header.width, header.depth);
    read_content(text, after_begin, &header, &mut buffer)?;
    Ok(buffer)
}

/// Reads a text into a buffer: nothing of the buffer is given out unless
/// the whole text is right.
pub fn decode(text: &str) -> (decoded: Result<PackedBuffer, ParseError>)
    ensures
        match decoded {
            Ok(buffer) => buffer.wf() && decode_text(text.spec_bytes()) == Ok::<
                Memory,
                ParseError,
            >(buffer@),
            Err(error) => decode_text(text.spec_bytes()) == Err::<Memory, ParseError>(error),
        },
{
    decode_bytes(text.as_bytes())
}

/// Whether the width and the depth of a draft, where they are set, are
/// such as the header accepts.
pub open spec fn draft_in_bounds(draft: HeaderDraft) -> bool {
    &&& draft.width matches Some(width) ==> 0 < width <= usize::BITS
    &&& draft.depth matches Some(depth) ==> 0 < depth <= max_depth()
}

/// Reading a header never sets a width or a depth out of bounds.
pub proof fn lemma_header_holds(text: Seq<u8>, pos: int, draft: HeaderDraft)
    requires
        0 <= pos <= text.len(),
        draft_in_bounds(draft),
    ensures
        header_end(text, pos, draft) matches Ok((done, _)) ==> draft_in_bounds(done),
    decreases text.len() - pos,
{
    crate::lexer::lemma_trivia_end_bounds(text, pos);
    if let Ok(start) = crate::lexer::trivia_end(text, pos) {
        if let Some(field) = crate::header::field_at(text, start) {
            crate::header::lemma_setting_at_bounds(text, start + field.word().len(), field);
            if let Ok((setting, end)) = crate::header::setting_at(
                text,
                start + field.word().len(),
                field,
            ) {
                lemma_header_holds(text, end, draft.with(setting));
            }
        }
    }
}

} // verus!
