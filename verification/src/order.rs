//! The order of the attributes in a header does not matter.

use vstd::prelude::*;
use crate::decoder::decode_text;
use crate::error::{Expected, HeaderField, ParseError};
use crate::header::{
    field_at, header_end, lemma_setting_at_bounds, lemma_value_at_bounds,
    radix_name_at, setting_at, value_at, HeaderDraft, Setting,
};
use crate::lexer::{
    comment_end, has_word, is_blank, lemma_comment_end_bounds, lemma_line_end_bounds,
    lemma_token_end_bounds, lemma_trivia_end_bounds, line_comment_at, line_end, token_end,
    trivia_end,
};
use crate::numeral::{digits_end, lemma_digits_end_bounds, number_at};
use crate::radix::Radix;
use crate::reading::{lemma_token_starts, lemma_word_byte};
use crate::suffix::{
    lemma_same_content_end, lemma_same_header_end, lemma_same_token_end, same_from,
};

verus! {

/// Whether `length` bytes of `first` from `at` on are the bytes of `second`
/// from `to` on.
pub open spec fn window(first: Seq<u8>, at: int, second: Seq<u8>, to: int, length: int) -> bool {
    &&& 0 <= at
    &&& 0 <= to
    &&& 0 <= length
    &&& at + length <= first.len()
    &&& to + length <= second.len()
    &&& forall|p: int| at <= p < at + length ==> #[trigger] first[p] == second[p - at + to]
}

pub proof fn lemma_window_byte(
    first: Seq<u8>,
    at: int,
    second: Seq<u8>,
    to: int,
    length: int,
    pos: int,
)
    requires
        window(first, at, second, to, length),
        at <= pos < at + length,
    ensures
        first[pos] == second[pos + to - at],
{
    assert(first[pos] == second[pos - at + to]);
}

pub proof fn lemma_window_line_end(
    first: Seq<u8>,
    at: int,
    second: Seq<u8>,
    to: int,
    length: int,
    pos: int,
)
    requires
        window(first, at, second, to, length),
        at <= pos,
        line_end(first, pos) < at + length,
    ensures
        line_end(second, pos + to - at) == line_end(first, pos) + to - at,
    decreases first.len() - pos,
{
    lemma_line_end_bounds(first, pos);
    lemma_window_byte(first, at, second, to, length, pos);
    if first[pos] != '\n' as u8 {
        lemma_window_line_end(first, at, second, to, length, pos + 1);
    }
}

pub proof fn lemma_window_comment_end(
    first: Seq<u8>,
    at: int,
    second: Seq<u8>,
    to: int,
    length: int,
    pos: int,
)
    requires
        window(first, at, second, to, length),
        at <= pos,
        comment_end(first, pos) matches Some(end) && end <= at + length,
    ensures
        comment_end(second, pos + to - at) == Some(comment_end(first, pos).unwrap() + to - at),
    decreases first.len() - pos,
{
    lemma_comment_end_bounds(first, pos);
    lemma_window_byte(first, at, second, to, length, pos);
    if first[pos] != '%' as u8 {
        lemma_window_comment_end(first, at, second, to, length, pos + 1);
    }
}

/// Blanks and comments that end inside a window, before something that is
/// no hyphen, are skipped alike wherever the window stands.
pub proof fn lemma_window_trivia_end(
    first: Seq<u8>,
    at: int,
    second: Seq<u8>,
    to: int,
    length: int,
    pos: int,
)
    requires
        window(first, at, second, to, length),
        at <= pos,
        trivia_end(first, pos) matches Ok(end) && end < at + length && first[end] != '-' as u8,
    ensures
        trivia_end(second, pos + to - at) == Ok::<int, ParseError>(
            trivia_end(first, pos).unwrap() + to - at,
        ),
    decreases first.len() - pos,
{
    lemma_trivia_end_bounds(first, pos);
    lemma_window_byte(first, at, second, to, length, pos);
    if is_blank(first[pos]) {
        lemma_window_trivia_end(first, at, second, to, length, pos + 1);
    } else if line_comment_at(first, pos) {
        let end = line_end(first, pos + 2);
        lemma_line_end_bounds(first, pos + 2);
        lemma_trivia_end_bounds(first, end);
        lemma_window_byte(first, at, second, to, length, pos + 1);
        lemma_window_line_end(first, at, second, to, length, pos + 2);
        lemma_window_trivia_end(first, at, second, to, length, end);
    } else if first[pos] == '%' as u8 {
        lemma_comment_end_bounds(first, pos + 1);
        let end = comment_end(first, pos + 1).unwrap();
        lemma_trivia_end_bounds(first, end);
        lemma_window_comment_end(first, at, second, to, length, pos + 1);
        lemma_window_trivia_end(first, at, second, to, length, end);
    }
}

pub proof fn lemma_window_word(
    first: Seq<u8>,
    at: int,
    second: Seq<u8>,
    to: int,
    length: int,
    pos: int,
    word: Seq<u8>,
)
    requires
        window(first, at, second, to, length),
        at <= pos,
        pos + word.len() <= at + length,
    ensures
        has_word(first, pos, word) == has_word(second, pos + to - at, word),
{
    let here = first.subrange(pos, pos + word.len());
    let there = second.subrange(pos + to - at, pos + to - at + word.len());
    assert forall|i: int| 0 <= i < here.len() implies #[trigger] here[i] == there[i] by {
        lemma_window_byte(first, at, second, to, length, pos + i);
    }
    assert(here =~= there);
}

pub proof fn lemma_window_token_end(
    first: Seq<u8>,
    at: int,
    second: Seq<u8>,
    to: int,
    length: int,
    pos: int,
    token: Expected,
)
    requires
        window(first, at, second, to, length),
        at <= pos,
        token != Expected::RadixKeyword,
        token_end(first, pos, token) matches Ok(end) && end <= at + length,
    ensures
        token_end(second, pos + to - at, token) == Ok::<int, ParseError>(
            token_end(first, pos, token).unwrap() + to - at,
        ),
{
    lemma_trivia_end_bounds(first, pos);
    let start = trivia_end(first, pos).unwrap();
    lemma_token_starts(token);
    lemma_word_byte(first, start, token.word(), 0);
    lemma_window_trivia_end(first, at, second, to, length, pos);
    lemma_window_word(first, at, second, to, length, start, token.word());
}

pub proof fn lemma_window_digits_end(
    first: Seq<u8>,
    at: int,
    second: Seq<u8>,
    to: int,
    length: int,
    pos: int,
    radix: Radix,
)
    requires
        window(first, at, second, to, length),
        at <= pos,
        digits_end(first, pos, radix) < at + length,
    ensures
        digits_end(second, pos + to - at, radix) == digits_end(first, pos, radix) + to - at,
    decreases first.len() - pos,
{
    lemma_digits_end_bounds(first, pos, radix);
    lemma_window_byte(first, at, second, to, length, pos);
    if radix.is_digit(first[pos]) {
        lemma_window_digits_end(first, at, second, to, length, pos + 1, radix);
    }
}

pub proof fn lemma_window_number_at(
    first: Seq<u8>,
    at: int,
    second: Seq<u8>,
    to: int,
    length: int,
    pos: int,
    radix: Radix,
)
    requires
        window(first, at, second, to, length),
        at <= pos,
        number_at(first, pos, radix) matches Some((_, end)) && end < at + length,
    ensures
        number_at(second, pos + to - at, radix) == Some(
            (number_at(first, pos, radix).unwrap().0, number_at(first, pos, radix).unwrap().1
                + to - at),
        ),
        radix.is_digit(first[pos]),
{
    let end = digits_end(first, pos, radix);
    lemma_window_digits_end(first, at, second, to, length, pos, radix);
    let here = first.subrange(pos, end);
    let there = second.subrange(pos + to - at, end + to - at);
    assert forall|i: int| 0 <= i < here.len() implies #[trigger] here[i] == there[i] by {
        lemma_window_byte(first, at, second, to, length, pos + i);
    }
    assert(here =~= there);
}

pub proof fn lemma_window_field_at(
    first: Seq<u8>,
    at: int,
    second: Seq<u8>,
    to: int,
    length: int,
    pos: int,
)
    requires
        window(first, at, second, to, length),
        at <= pos,
        field_at(first, pos) matches Some(field) && pos + field.word().len() <= at + length,
    ensures
        field_at(second, pos + to - at) == field_at(first, pos),
        first[pos] != '-' as u8,
{
    let field = field_at(first, pos).unwrap();
    let there = pos + to - at;
    lemma_window_word(first, at, second, to, length, pos, field.word());
    lemma_word_byte(first, pos, field.word(), 0);
    lemma_word_byte(first, pos, field.word(), 1);
    lemma_word_byte(second, there, field.word(), 0);
    lemma_word_byte(second, there, field.word(), 1);
    if has_word(second, there, HeaderField::Depth.word()) {
        lemma_word_byte(second, there, HeaderField::Depth.word(), 0);
        lemma_word_byte(second, there, HeaderField::Depth.word(), 1);
    }
    if has_word(second, there, HeaderField::Width.word()) {
        lemma_word_byte(second, there, HeaderField::Width.word(), 0);
    }
    if has_word(second, there, HeaderField::AddressRadix.word()) {
        lemma_word_byte(second, there, HeaderField::AddressRadix.word(), 0);
    }
}

pub proof fn lemma_window_radix_name_at(
    first: Seq<u8>,
    at: int,
    second: Seq<u8>,
    to: int,
    length: int,
    pos: int,
)
    requires
        window(first, at, second, to, length),
        at <= pos,
        radix_name_at(first, pos) is Some,
        pos + 3 <= at + length,
    ensures
        radix_name_at(second, pos + to - at) == radix_name_at(first, pos),
        first[pos] != '-' as u8,
{
    let radix = radix_name_at(first, pos).unwrap();
    let there = pos + to - at;
    lemma_window_word(first, at, second, to, length, pos, radix.keyword_text());
    lemma_word_byte(first, pos, radix.keyword_text(), 0);
    lemma_word_byte(second, there, radix.keyword_text(), 0);
    if has_word(second, there, Radix::Uns.keyword_text()) {
        lemma_word_byte(second, there, Radix::Uns.keyword_text(), 0);
    }
    if has_word(second, there, Radix::Bin.keyword_text()) {
        lemma_word_byte(second, there, Radix::Bin.keyword_text(), 0);
    }
    if has_word(second, there, Radix::Oct.keyword_text()) {
        lemma_word_byte(second, there, Radix::Oct.keyword_text(), 0);
    }
}

pub proof fn lemma_window_value_at(
    first: Seq<u8>,
    at: int,
    second: Seq<u8>,
    to: int,
    length: int,
    pos: int,
    field: HeaderField,
)
    requires
        window(first, at, second, to, length),
        at <= pos,
        value_at(first, pos, field) matches Ok((_, end)) && end < at + length,
    ensures
        value_at(second, pos + to - at, field) == Ok::<(Setting, int), ParseError>(
            (value_at(first, pos, field).unwrap().0, value_at(first, pos, field).unwrap().1 + to
                - at),
        ),
        first[pos] != '-' as u8,
{
    match field {
        HeaderField::Depth | HeaderField::Width => {
            lemma_window_number_at(first, at, second, to, length, pos, Radix::Uns);
        },
        HeaderField::AddressRadix | HeaderField::DataRadix => {
            lemma_window_radix_name_at(first, at, second, to, length, pos);
        },
    }
}

pub proof fn lemma_window_setting_at(
    first: Seq<u8>,
    at: int,
    second: Seq<u8>,
    to: int,
    length: int,
    pos: int,
    field: HeaderField,
)
    requires
        window(first, at, second, to, length),
        at <= pos,
        setting_at(first, pos, field) matches Ok((_, end)) && end <= at + length,
    ensures
        setting_at(second, pos + to - at, field) == Ok::<(Setting, int), ParseError>(
            (
                setting_at(first, pos, field).unwrap().0,
                setting_at(first, pos, field).unwrap().1 + to - at,
            ),
        ),
{
    lemma_token_end_bounds(first, pos, Expected::Equals);
    let after_equals = token_end(first, pos, Expected::Equals).unwrap();
    lemma_trivia_end_bounds(first, after_equals);
    let start = trivia_end(first, after_equals).unwrap();
    lemma_value_at_bounds(first, start, field);
    let end = value_at(first, start, field).unwrap().1;
    lemma_token_end_bounds(first, end, Expected::Semicolon);
    lemma_window_value_at(first, at, second, to, length, start, field);
    lemma_window_token_end(first, at, second, to, length, pos, Expected::Equals);
    lemma_window_trivia_end(first, at, second, to, length, after_equals);
    lemma_window_token_end(first, at, second, to, length, end, Expected::Semicolon);
}

/// The attribute that is read at a place, with the place behind it.
pub open spec fn attribute_at(text: Seq<u8>, pos: int) -> Option<(Setting, int)> {
    match trivia_end(text, pos) {
        Err(_) => None,
        Ok(start) => match field_at(text, start) {
            None => None,
            Some(field) => match setting_at(text, start + field.word().len(), field) {
                Err(_) => None,
                Ok(found) => Some(found),
            },
        },
    }
}

/// Whether a piece of text is one attribute and nothing behind it: blanks
/// and comments as it likes, then the name, `=`, the value and `;`.
pub open spec fn sets(piece: Seq<u8>, setting: Setting) -> bool {
    attribute_at(piece, 0) == Some((setting, piece.len() as int))
}

/// A piece that is one attribute is read as that attribute wherever it
/// stands in a text.
#[verifier::rlimit(30)]
pub proof fn lemma_piece_reads(
    text: Seq<u8>,
    pos: int,
    piece: Seq<u8>,
    setting: Setting,
    draft: HeaderDraft,
)
    requires
        0 <= pos,
        sets(piece, setting),
        has_word(text, pos, piece),
    ensures
        header_end(text, pos, draft) == header_end(
            text,
            pos + piece.len(),
            draft.with(setting),
        ),
{
    let length = piece.len() as int;
    assert(window(piece, 0, text, pos, length)) by {
        assert forall|p: int| 0 <= p < 0 + length implies #[trigger] piece[p] == text[p - 0
            + pos] by {
            lemma_word_byte(text, pos, piece, p);
        }
    }
    lemma_trivia_end_bounds(piece, 0);
    let start = trivia_end(piece, 0).unwrap();
    let field = field_at(piece, start).unwrap();
    let after_name = start + field.word().len();
    lemma_setting_at_bounds(piece, after_name, field);
    lemma_window_field_at(piece, 0, text, pos, length, start);
    lemma_window_trivia_end(piece, 0, text, pos, length, 0);
    lemma_window_setting_at(piece, 0, text, pos, length, after_name, field);
}

/// Some pieces of text one behind the other.
pub open spec fn joined(pieces: Seq<Seq<u8>>) -> Seq<u8>
    decreases pieces.len(),
{
    if pieces.len() == 0 {
        Seq::empty()
    } else {
        joined(pieces.drop_last()) + pieces.last()
    }
}

/// A draft after some settings, one after the other.
pub open spec fn all_set(draft: HeaderDraft, settings: Seq<Setting>) -> HeaderDraft
    decreases settings.len(),
{
    if settings.len() == 0 {
        draft
    } else {
        all_set(draft, settings.drop_last()).with(settings.last())
    }
}

/// The attribute that a setting sets.
pub open spec fn field_of(setting: Setting) -> HeaderField {
    match setting {
        Setting::Depth(_) => HeaderField::Depth,
        Setting::Width(_) => HeaderField::Width,
        Setting::AddressRadix(_) => HeaderField::AddressRadix,
        Setting::DataRadix(_) => HeaderField::DataRadix,
    }
}

/// Whether `order` names each of the places `0 .. count` once.
pub open spec fn is_order(order: Seq<int>, count: int) -> bool {
    &&& order.len() == count
    &&& forall|i: int| 0 <= i < count ==> 0 <= #[trigger] order[i] < count
    &&& forall|i: int, j: int| 0 <= i < j < count ==> #[trigger] order[i] != #[trigger] order[j]
}

/// The items in another order: the item at place `i` is the one that
/// `order[i]` names.
pub open spec fn reordered<A>(items: Seq<A>, order: Seq<int>) -> Seq<A> {
    Seq::new(order.len(), |i: int| items[order[i]])
}

/// Pieces that are one attribute each are read one after the other.
pub proof fn lemma_pieces_read(
    text: Seq<u8>,
    pos: int,
    pieces: Seq<Seq<u8>>,
    settings: Seq<Setting>,
    draft: HeaderDraft,
)
    requires
        0 <= pos,
        pieces.len() == settings.len(),
        forall|i: int| 0 <= i < pieces.len() ==> sets(#[trigger] pieces[i], settings[i]),
        has_word(text, pos, joined(pieces)),
    ensures
        header_end(text, pos, draft) == header_end(
            text,
            pos + joined(pieces).len(),
            all_set(draft, settings),
        ),
    decreases pieces.len(),
{
    if pieces.len() > 0 {
        let front = pieces.drop_last();
        let last = pieces.last();
        crate::reading::lemma_word_parts(text, pos, joined(front), last);
        assert forall|i: int| 0 <= i < front.len() implies sets(
            #[trigger] front[i],
            settings.drop_last()[i],
        ) by {
            assert(front[i] == pieces[i]);
        }
        lemma_pieces_read(text, pos, front, settings.drop_last(), draft);
        assert(sets(pieces[pieces.len() - 1], settings[pieces.len() - 1]));
        lemma_piece_reads(
            text,
            pos + joined(front).len(),
            last,
            settings.last(),
            all_set(draft, settings.drop_last()),
        );
    }
}

/// The header ends at or behind the place where its reading starts.
pub proof fn lemma_header_end_bounds(text: Seq<u8>, pos: int, draft: HeaderDraft)
    requires
        0 <= pos <= text.len(),
    ensures
        header_end(text, pos, draft) matches Ok((_, end)) ==> pos <= end <= text.len(),
    decreases text.len() - pos,
{
    lemma_trivia_end_bounds(text, pos);
    if let Ok(start) = trivia_end(text, pos) {
        if let Some(field) = field_at(text, start) {
            lemma_setting_at_bounds(text, start + field.word().len(), field);
            if let Ok((setting, end)) = setting_at(text, start + field.word().len(), field) {
                lemma_header_end_bounds(text, end, draft.with(setting));
            }
        }
    }
}

/// Four pieces one behind the other, and four settings one after the
/// other.
proof fn lemma_four(pieces: Seq<Seq<u8>>, settings: Seq<Setting>, draft: HeaderDraft)
    requires
        pieces.len() == 4,
        settings.len() == 4,
    ensures
        joined(pieces).len() == pieces[0].len() + pieces[1].len() + pieces[2].len()
            + pieces[3].len(),
        all_set(draft, settings) == draft.with(settings[0]).with(settings[1]).with(
            settings[2],
        ).with(settings[3]),
{
    reveal_with_fuel(joined, 5);
    reveal_with_fuel(all_set, 5);
    let three = pieces.drop_last();
    let two = three.drop_last();
    let one = two.drop_last();
    assert(one.drop_last().len() == 0);
    assert(three.last() == pieces[2] && two.last() == pieces[1] && one.last() == pieces[0]);
    let s3 = settings.drop_last();
    let s2 = s3.drop_last();
    let s1 = s2.drop_last();
    assert(s1.drop_last().len() == 0);
    assert(s3.last() == settings[2] && s2.last() == settings[1] && s1.last() == settings[0]);
}

/// Four settings of four different attributes give one draft in whatever
/// order they are made.
proof fn lemma_same_draft(draft: HeaderDraft, settings: Seq<Setting>, order: Seq<int>)
    requires
        settings.len() == 4,
        is_order(order, 4),
        forall|i: int, j: int|
            0 <= i < j < 4 ==> field_of(#[trigger] settings[i]) != field_of(
                #[trigger] settings[j],
            ),
    ensures
        draft.with(settings[order[0]]).with(settings[order[1]]).with(settings[order[2]]).with(
            settings[order[3]],
        ) == draft.with(settings[0]).with(settings[1]).with(settings[2]).with(settings[3]),
{
    let a = settings[0];
    let b = settings[1];
    let c = settings[2];
    let d = settings[3];
    assert(field_of(a) != field_of(b) && field_of(a) != field_of(c) && field_of(a) != field_of(d)
        && field_of(b) != field_of(c) && field_of(b) != field_of(d) && field_of(c) != field_of(
        d,
    ));
    assert(order[0] != order[1] && order[0] != order[2] && order[0] != order[3] && order[1]
        != order[2] && order[1] != order[3] && order[2] != order[3]);
    assert(0 <= order[0] < 4 && 0 <= order[1] < 4 && 0 <= order[2] < 4 && 0 <= order[3] < 4);
}

/// Four pieces take as much room in one order as in another.
proof fn lemma_same_length(pieces: Seq<Seq<u8>>, order: Seq<int>)
    requires
        pieces.len() == 4,
        is_order(order, 4),
    ensures
        joined(reordered(pieces, order)).len() == joined(pieces).len(),
{
    let settings = Seq::new(4, |i: int| Setting::Depth(0));
    lemma_four(pieces, settings, HeaderDraft::empty());
    lemma_four(reordered(pieces, order), settings, HeaderDraft::empty());
    assert(order[0] != order[1] && order[0] != order[2] && order[0] != order[3] && order[1]
        != order[2] && order[1] != order[3] && order[2] != order[3]);
    assert(0 <= order[0] < 4 && 0 <= order[1] < 4 && 0 <= order[2] < 4 && 0 <= order[3] < 4);
}

/// Four settings of four different attributes give one draft in whatever
/// order they are made.
proof fn lemma_same_settings(settings: Seq<Setting>, order: Seq<int>)
    requires
        settings.len() == 4,
        is_order(order, 4),
        forall|i: int, j: int|
            0 <= i < j < 4 ==> field_of(#[trigger] settings[i]) != field_of(
                #[trigger] settings[j],
            ),
    ensures
        all_set(HeaderDraft::empty(), reordered(settings, order)) == all_set(
            HeaderDraft::empty(),
            settings,
        ),
{
    let pieces = Seq::new(4, |i: int| Seq::<u8>::empty());
    lemma_four(pieces, settings, HeaderDraft::empty());
    lemma_four(pieces, reordered(settings, order), HeaderDraft::empty());
    lemma_same_draft(HeaderDraft::empty(), settings, order);
}

/// A text that starts with pieces that are one attribute each is read up
/// to the end of the pieces as the settings of the pieces.
proof fn lemma_prefix_read(pieces: Seq<Seq<u8>>, settings: Seq<Setting>, rest: Seq<u8>)
    requires
        pieces.len() == settings.len(),
        forall|i: int| 0 <= i < pieces.len() ==> sets(#[trigger] pieces[i], settings[i]),
    ensures
        header_end(joined(pieces) + rest, 0, HeaderDraft::empty()) == header_end(
            joined(pieces) + rest,
            joined(pieces).len() as int,
            all_set(HeaderDraft::empty(), settings),
        ),
{
    let text = joined(pieces) + rest;
    assert(text.subrange(0, joined(pieces).len() as int) =~= joined(pieces));
    lemma_pieces_read(text, 0, pieces, settings, HeaderDraft::empty());
}

/// Two texts that end alike behind starts of one length are the same from
/// the end of the starts on.
proof fn lemma_same_rest(first: Seq<u8>, second: Seq<u8>, rest: Seq<u8>)
    requires
        first.len() == second.len(),
    ensures
        same_from(first + rest, second + rest, first.len() as int),
{
    let length = first.len() as int;
    assert forall|i: int| length <= i < (first + rest).len() implies (first + rest)[i] == (second
        + rest)[i] by {
        assert((first + rest)[i] == rest[i - length]);
        assert((second + rest)[i] == rest[i - length]);
    }
}

/// Two texts whose headers come to one draft at one place, and which are
/// the same from that place on, decode alike.
proof fn lemma_decoded_alike(first: Seq<u8>, second: Seq<u8>, length: int, draft: HeaderDraft)
    requires
        same_from(first, second, length),
        length <= first.len(),
        header_end(first, 0, HeaderDraft::empty()) == header_end(first, length, draft),
        header_end(second, 0, HeaderDraft::empty()) == header_end(second, length, draft),
    ensures
        decode_text(first) == decode_text(second),
{
    lemma_same_header_end(first, second, length, length, draft);
    lemma_header_end_bounds(first, length, draft);
    if let Ok((done, after_header)) = header_end(first, length, draft) {
        if let Ok(header) = done.complete() {
            lemma_same_token_end(first, second, length, after_header, Expected::Content);
            lemma_token_end_bounds(first, after_header, Expected::Content);
            if let Ok(after_content) = token_end(first, after_header, Expected::Content) {
                lemma_same_token_end(first, second, length, after_content, Expected::Begin);
                lemma_token_end_bounds(first, after_content, Expected::Begin);
                if let Ok(after_begin) = token_end(first, after_content, Expected::Begin) {
                    lemma_same_content_end(
                        first,
                        second,
                        length,
                        after_begin,
                        header,
                        crate::buffer::Memory::blank(header.width as nat, header.depth as nat),
                    );
                }
            }
        }
    }
}

/// The four attributes of a header can stand in any order: whatever the
/// order of four pieces of text that are one attribute each, of four
/// different attributes, with their blanks and comments, the text decodes
/// to the same result.
pub proof fn lemma_header_order(
    pieces: Seq<Seq<u8>>,
    settings: Seq<Setting>,
    order: Seq<int>,
    rest: Seq<u8>,
)
    requires
        pieces.len() == 4,
        settings.len() == 4,
        forall|i: int| 0 <= i < 4 ==> sets(#[trigger] pieces[i], settings[i]),
        forall|i: int, j: int|
            0 <= i < j < 4 ==> field_of(#[trigger] settings[i]) != field_of(
                #[trigger] settings[j],
            ),
        is_order(order, 4),
    ensures
        decode_text(joined(reordered(pieces, order)) + rest) == decode_text(
            joined(pieces) + rest,
        ),
{
    let other_pieces = reordered(pieces, order);
    let other_settings = reordered(settings, order);
    assert forall|i: int| 0 <= i < other_pieces.len() implies sets(
        #[trigger] other_pieces[i],
        other_settings[i],
    ) by {
        assert(sets(pieces[order[i]], settings[order[i]]));
    }
    lemma_same_length(pieces, order);
    lemma_same_settings(settings, order);
    lemma_prefix_read(pieces, settings, rest);
    lemma_prefix_read(other_pieces, other_settings, rest);
    lemma_same_rest(joined(pieces), joined(other_pieces), rest);
    lemma_decoded_alike(
        joined(pieces) + rest,
        joined(other_pieces) + rest,
        joined(pieces).len() as int,
        all_set(HeaderDraft::empty(), settings),
    );
}

} // verus!
