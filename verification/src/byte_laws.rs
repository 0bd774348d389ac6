//! What the results of the operations satisfy, told on the bytes and fields themselves.

use crate::cursor::Cursor;
use crate::delta::{Delta, DeltaElement, PlainDelta, PlainElement};
use crate::laws::law_codepoints_spell;
use crate::leaf::{
    find_leaf_split, find_leaf_split_for_bulk, find_leaf_split_for_merge, is_leaf_split, leaf_split,
    lemma_boundary_behind_ascii, lemma_leaf_split, lemma_leaf_split_lengths, merge_minsplit,
    split_limit,
};
use crate::leaves::{
    bulk_leaves, joined_leaves, leaf_index, leaf_start, leaves_wf, lemma_leaf_ends,
    lemma_leaf_index, lemma_leaf_index_is, lemma_leaf_parts, lemma_leaf_start_monotone,
};
use crate::lines::{chunks_from, chunks_of, is_range, lemma_chunks_from, range_of, trim_ending};
use crate::metric::{len_utf8_from_first_byte, BaseMetric, LinesMetric, Metric, RopeInfo};
use crate::scan::count_newlines;
use crate::text::{
    codepoint_at, count_byte, first_line_len, is_boundary, is_next_boundary, is_prev_boundary,
    lemma_count_concat, lemma_count_none, lemma_decode_concat, lemma_encode_empty,
    lemma_first_line_len, lemma_is_char_boundary, lemma_line_start, lemma_line_start_is,
    lemma_split_valid, lemma_start_is_boundary, lemma_subrange_valid, lemma_width_reaches_next,
    line_start, newlines, raw_lines, strip_ending, stripped_lines, width_from_first_byte,
};
use crate::tree::{lemma_bytes_valid, lemma_leaves_wf, Node};
use vstd::prelude::*;
use vstd::seq_lib::*;
use vstd::string::*;
use vstd::utf8::*;

verus! {

// Deltas

/// Made plain, an element that copies a range copies the same range, and one that
/// inserts a rope inserts the text of that rope.
pub proof fn law_plain_of_element(el: DeltaElement, plain: PlainElement)
    requires
        call_ensures(<PlainElement as From<&DeltaElement>>::from, (&el,), plain),
    ensures
        match el {
            DeltaElement::Copy(start, end) => plain == PlainElement::Copy(start, end),
            DeltaElement::Insert(rope) => plain matches PlainElement::Insert(s) && encode_utf8(s@)
                == rope.bytes(),
        },
{
}

/// The element of a plain one copies the same range, or inserts a rope of the same text,
/// cut as a string in bulk is.
pub proof fn law_element_of_plain(plain: PlainElement, el: DeltaElement)
    requires
        call_ensures(<DeltaElement as From<&PlainElement>>::from, (&plain,), el),
    ensures
        match plain {
            PlainElement::Copy(start, end) => el == DeltaElement::Copy(start, end),
            PlainElement::Insert(s) => el matches DeltaElement::Insert(rope) && rope.bytes()
                == encode_utf8(s@) && rope.leaves() == bulk_leaves(encode_utf8(s@)),
        },
{
}

/// Made plain, a delta has as many elements, in the same order, each with the same range
/// or the same text, and the same length of the base.
pub proof fn law_plain_of_delta(delta: Delta, plain: PlainDelta)
    requires
        call_ensures(<PlainDelta as From<&Delta>>::from, (&delta,), plain),
    ensures
        plain.base_len == delta.base_len,
        plain.els@.len() == delta.els@.len(),
        forall|j: int|
            0 <= j < delta.els@.len() ==> match #[trigger] delta.els@[j] {
                DeltaElement::Copy(start, end) => plain.els@[j] == PlainElement::Copy(start, end),
                DeltaElement::Insert(rope) => plain.els@[j] matches PlainElement::Insert(s)
                    && encode_utf8(s@) == rope.bytes(),
            },
{
    assert forall|j: int| 0 <= j < delta.els@.len() implies match #[trigger] delta.els@[j] {
        DeltaElement::Copy(start, end) => plain.els@[j] == PlainElement::Copy(start, end),
        DeltaElement::Insert(rope) => plain.els@[j] matches PlainElement::Insert(s)
            && encode_utf8(s@) == rope.bytes(),
    } by {
        let _el = plain.els@[j];
    }
}

/// The delta of a plain one has as many elements, in the same order, each with the same
/// range or the same text, and the same length of the base.
pub proof fn law_delta_of_plain(plain: PlainDelta, delta: Delta)
    requires
        call_ensures(<Delta as From<PlainDelta>>::from, (plain,), delta),
    ensures
        delta.base_len == plain.base_len,
        delta.els@.len() == plain.els@.len(),
        forall|j: int|
            0 <= j < plain.els@.len() ==> match #[trigger] plain.els@[j] {
                PlainElement::Copy(start, end) => delta.els@[j] == DeltaElement::Copy(start, end),
                PlainElement::Insert(s) => delta.els@[j] matches DeltaElement::Insert(rope)
                    && rope.bytes() == encode_utf8(s@) && rope.leaves() == bulk_leaves(
                    encode_utf8(s@),
                ),
            },
{
    assert forall|j: int| 0 <= j < plain.els@.len() implies match #[trigger] plain.els@[j] {
        PlainElement::Copy(start, end) => delta.els@[j] == DeltaElement::Copy(start, end),
        PlainElement::Insert(s) => delta.els@[j] matches DeltaElement::Insert(rope)
            && rope.bytes() == encode_utf8(s@) && rope.leaves() == bulk_leaves(encode_utf8(s@)),
    } by {
        let _el = delta.els@[j];
    }
}

// Counting

/// The count of a byte is how often it stands in the text.
pub proof fn law_count(text: Seq<u8>, byte: u8)
    ensures
        count_byte(text, byte) == text.to_multiset().count(byte),
        newlines(text) == text.to_multiset().count(0x0a),
{
    lemma_count(text, byte);
    lemma_count(text, 0x0a);
}

proof fn lemma_count(text: Seq<u8>, byte: u8)
    ensures
        count_byte(text, byte) == text.to_multiset().count(byte),
    decreases text.len(),
{
    broadcast use group_to_multiset_ensures;

    if text.len() == 0 {
        assert(!text.contains(byte));
    } else {
        lemma_count(text.drop_last(), byte);
        assert(text =~= text.drop_last().push(text.last()));
    }
}

/// `count_newlines` tells how many bytes of the string are newlines.
pub proof fn law_count_newlines(s: &str, n: usize)
    requires
        call_ensures(count_newlines, (s,), n),
    ensures
        n == s.spec_bytes().to_multiset().count(0x0a),
{
    law_count(s.spec_bytes(), 0x0a);
}

/// The summary of a leaf, read in lines, is its number of newlines; read in bytes, the
/// length that goes with it.
pub proof fn law_summary(s: String, info: RopeInfo, len: usize, lines: usize, bytes: usize)
    requires
        call_ensures(RopeInfo::compute_info, (&s,), info),
        call_ensures(<LinesMetric as Metric>::measure, (&info, len), lines),
        call_ensures(<BaseMetric as Metric>::measure, (&info, len), bytes),
    ensures
        lines == encode_utf8(s@).to_multiset().count(0x0a),
        bytes == len,
{
    law_count(encode_utf8(s@), 0x0a);
}

// The line metric

/// The next line boundary of a leaf lies right behind the first newline from the offset
/// on; there is none if no newline follows.
pub proof fn law_next_line_boundary(s: String, offset: usize, at: Option<usize>)
    requires
        offset <= encode_utf8(s@).len(),
        call_ensures(<LinesMetric as Metric>::next, (&s, offset), at),
    ensures
        ({
            let text = encode_utf8(s@);
            match at {
                Some(at) => {
                    &&& offset < at <= text.len()
                    &&& text[at - 1] == 0x0a
                    &&& forall|i: int| offset <= i < at - 1 ==> text[i] != 0x0a
                    &&& text.take(at as int).to_multiset().count(0x0a) == text.take(
                        offset as int,
                    ).to_multiset().count(0x0a) + 1
                    &&& at == line_start(text, newlines(text.take(offset as int)) + 1)
                },
                None => forall|i: int| offset <= i < text.len() ==> text[i] != 0x0a,
            }
        }),
{
    let text = encode_utf8(s@);
    match at {
        Some(at) => {
            let middle = text.subrange(offset as int, at - 1);
            assert(text.take(at - 1) =~= text.take(offset as int) + middle);
            lemma_count_concat(text.take(offset as int), middle, 0x0a);
            lemma_count_none(middle, 0x0a);
            assert(text.take(at as int).drop_last() =~= text.take(at - 1));
            law_count(text.take(at as int), 0x0a);
            law_count(text.take(offset as int), 0x0a);
            lemma_line_start_is(text, newlines(text.take(offset as int)) + 1, at as int);
        },
        None => {},
    }
}

/// The previous line boundary of a leaf lies right behind the last newline before the
/// offset; there is none if no newline precedes.
pub proof fn law_prev_line_boundary(s: String, offset: usize, at: Option<usize>)
    requires
        offset <= encode_utf8(s@).len(),
        call_ensures(<LinesMetric as Metric>::prev, (&s, offset), at),
    ensures
        ({
            let text = encode_utf8(s@);
            match at {
                Some(at) => {
                    &&& 0 < at <= offset
                    &&& text[at - 1] == 0x0a
                    &&& forall|i: int| at <= i < offset ==> text[i] != 0x0a
                },
                None => forall|i: int| 0 <= i < offset ==> text[i] != 0x0a,
            }
        }),
{
}

/// From a line boundary that was found, the previous one is itself.
pub proof fn law_prev_of_line_boundary(
    s: String,
    offset: usize,
    next: Option<usize>,
    prev: Option<usize>,
)
    requires
        offset <= encode_utf8(s@).len(),
        call_ensures(<LinesMetric as Metric>::next, (&s, offset), next),
        next matches Some(at) ==> call_ensures(<LinesMetric as Metric>::prev, (&s, at), prev),
    ensures
        next is Some ==> prev == next,
{
    law_next_line_boundary(s, offset, next);
    if let Some(at) = next {
        law_prev_line_boundary(s, at, prev);
    }
}

/// An offset is a line boundary if and only if a newline stands right before it.
pub proof fn law_is_line_boundary(s: String, offset: usize, found: bool)
    requires
        offset <= encode_utf8(s@).len(),
        call_ensures(<LinesMetric as Metric>::is_boundary, (&s, offset), found),
    ensures
        found <==> offset > 0 && encode_utf8(s@)[offset - 1] == 0x0a,
{
}

/// The offset of a number of lines has that many newlines before it, the last of them
/// right before it; and back from there the number is the same.
pub proof fn law_line_units(s: String, lines: usize, offset: usize, back: usize)
    requires
        lines <= encode_utf8(s@).to_multiset().count(0x0a),
        call_ensures(<LinesMetric as Metric>::to_base_units, (&s, lines), offset),
        call_ensures(<LinesMetric as Metric>::from_base_units, (&s, offset), back),
    ensures
        offset <= encode_utf8(s@).len(),
        encode_utf8(s@).take(offset as int).to_multiset().count(0x0a) == lines,
        offset == 0 || encode_utf8(s@)[offset - 1] == 0x0a,
        back == lines,
{
    let text = encode_utf8(s@);
    law_count(text, 0x0a);
    lemma_line_start(text, lines as nat);
    law_count(text.take(offset as int), 0x0a);
}

/// The lines before an offset are the newlines before it.
pub proof fn law_lines_before_offset(s: String, offset: usize, lines: usize)
    requires
        offset <= encode_utf8(s@).len(),
        call_ensures(<LinesMetric as Metric>::from_base_units, (&s, offset), lines),
    ensures
        lines == encode_utf8(s@).take(offset as int).to_multiset().count(0x0a),
{
    law_count(encode_utf8(s@).take(offset as int), 0x0a);
}

// The base metric

/// In bytes, units and offsets are the same.
pub proof fn law_base_units(s: String, units: usize, to: usize, from: usize)
    requires
        call_ensures(<BaseMetric as Metric>::to_base_units, (&s, units), to),
        call_ensures(<BaseMetric as Metric>::from_base_units, (&s, units), from),
    ensures
        to == units,
        from == units,
{
}

/// Boundaries of the base metric are the boundaries of the characters.
pub proof fn law_base_boundary(s: String, offset: usize, found: bool)
    requires
        call_ensures(<BaseMetric as Metric>::is_boundary, (&s, offset), found),
    ensures
        found == is_char_boundary(encode_utf8(s@), offset as int),
{
    encode_utf8_valid_utf8(s@);
    lemma_is_char_boundary(encode_utf8(s@), offset as int);
}

/// The previous boundary is the last character boundary before the offset.
pub proof fn law_base_prev(s: String, offset: usize, at: Option<usize>)
    requires
        call_ensures(<BaseMetric as Metric>::prev, (&s, offset), at),
    ensures
        match at {
            Some(at) => {
                &&& at < offset
                &&& is_char_boundary(encode_utf8(s@), at as int)
                &&& forall|i: int|
                    at < i < offset ==> !#[trigger] is_char_boundary(encode_utf8(s@), i)
            },
            None => offset == 0,
        },
{
    encode_utf8_valid_utf8(s@);
    if let Some(at) = at {
        lemma_no_boundary_between(encode_utf8(s@), at as int, offset as int);
        lemma_is_char_boundary(encode_utf8(s@), at as int);
    }
}

proof fn lemma_no_boundary_between(text: Seq<u8>, from: int, to: int)
    requires
        valid_utf8(text),
        forall|i: int| from < i < to ==> !#[trigger] is_boundary(text, i),
    ensures
        forall|i: int| from < i < to ==> !#[trigger] is_char_boundary(text, i),
{
    assert forall|i: int| from < i < to implies !#[trigger] is_char_boundary(text, i) by {
        lemma_is_char_boundary(text, i);
        assert(!is_boundary(text, i));
    }
}

/// The next boundary lies one to four bytes behind the offset, the more the higher the
/// byte there; from a character boundary it is the next character boundary.
pub proof fn law_base_next(s: String, offset: usize, at: Option<usize>)
    requires
        offset <= encode_utf8(s@).len(),
        call_ensures(<BaseMetric as Metric>::next, (&s, offset), at),
    ensures
        ({
            let text = encode_utf8(s@);
            match at {
                Some(at) => {
                    &&& offset < text.len()
                    &&& offset < at <= offset + 4
                    &&& at <= offset + 1 <==> text[offset as int] < 0x80
                    &&& at <= offset + 2 <==> text[offset as int] < 0xe0
                    &&& at <= offset + 3 <==> text[offset as int] < 0xf0
                    &&& is_char_boundary(text, offset as int) ==> {
                        &&& is_char_boundary(text, at as int)
                        &&& forall|i: int| offset < i < at ==> !#[trigger] is_char_boundary(text, i)
                    }
                },
                None => offset == text.len(),
            }
        }),
{
    let text = encode_utf8(s@);
    encode_utf8_valid_utf8(s@);
    if let Some(at) = at {
        lemma_is_char_boundary(text, offset as int);
        if is_char_boundary(text, offset as int) {
            lemma_width_reaches_next(text, offset as int);
            lemma_is_char_boundary(text, at as int);
            lemma_no_boundary_between(text, offset as int, at as int);
        }
    }
}

/// The first byte of a character tells how many bytes it takes. Of other bytes a higher
/// one tells at least as many: one below 0x80, and from there on two to four.
pub proof fn law_width(b: u8, n: usize)
    requires
        call_ensures(len_utf8_from_first_byte, (b,), n),
    ensures
        forall|c: char|
            (#[trigger] encode_utf8(seq![c]))[0] == b ==> encode_utf8(seq![c]).len() == n,
        n == 1 <==> b < 0x80,
        n <= 2 <==> b < 0xe0,
        n <= 3 <==> b < 0xf0,
        1 <= n <= 4,
{
    assert forall|c: char| (#[trigger] encode_utf8(seq![c]))[0] == b implies encode_utf8(
        seq![c],
    ).len() == n by {
        let text = encode_utf8(seq![c]);
        encode_utf8_valid_utf8(seq![c]);
        lemma_one_char(c);
        lemma_width_reaches_next(text, 0);
        let end = width_from_first_byte(text[0]) as int;
        if end < text.len() {
            lemma_split_valid(text, end);
            let (a, rest) = (decode_utf8(text.take(end)), decode_utf8(text.skip(end)));
            lemma_decode_concat(text.take(end), text.skip(end));
            assert(text =~= text.take(end) + text.skip(end));
            encode_utf8_decode_utf8(seq![c]);
            decode_utf8_encode_utf8(text.take(end));
            decode_utf8_encode_utf8(text.skip(end));
            lemma_encode_empty(a);
            lemma_encode_empty(rest);
            assert((a + rest).len() == 1);
        }
    }
}

proof fn lemma_one_char(c: char)
    ensures
        encode_utf8(seq![c]).len() > 0,
        is_boundary(encode_utf8(seq![c]), 0),
{
    lemma_encode_empty(seq![c]);
    encode_utf8_valid_utf8(seq![c]);
    lemma_start_is_boundary(encode_utf8(seq![c]));
}

/// A text measures its bytes, or its newlines, and the units before an offset are those of
/// the text before it.
pub proof fn law_measures(text: Seq<u8>, offset: int)
    ensures
        BaseMetric::measured(text) == text.len(),
        LinesMetric::measured(text) == text.to_multiset().count(0x0a),
        0 <= offset ==> BaseMetric::units_at(text, offset) == offset,
        LinesMetric::units_at(text, offset) == text.take(offset).to_multiset().count(0x0a),
        0 <= offset ==> BaseMetric::base_offset(text, offset as nat) == offset,
{
    law_count(text, 0x0a);
    law_count(text.take(offset), 0x0a);
}

/// A rope measures as its text does.
pub proof fn law_rope_measures(rope: Node, bytes: usize, lines: usize)
    requires
        call_ensures(Node::measure::<BaseMetric>, (&rope,), bytes),
        call_ensures(Node::measure::<LinesMetric>, (&rope,), lines),
    ensures
        bytes == rope.bytes().len(),
        lines == rope.bytes().to_multiset().count(0x0a),
{
    law_measures(rope.bytes(), 0);
}

// Characters

/// The previous and the next boundary are the nearest character boundaries before and
/// behind an offset.
pub proof fn law_nearest_boundaries(text: Seq<u8>, offset: int, at: int)
    requires
        valid_utf8(text),
    ensures
        is_prev_boundary(text, offset, at) ==> {
            &&& 0 <= at < offset
            &&& is_char_boundary(text, at)
            &&& forall|i: int| at < i < offset ==> !#[trigger] is_char_boundary(text, i)
        },
        is_next_boundary(text, offset, at) ==> {
            &&& offset < at <= text.len()
            &&& is_char_boundary(text, at)
            &&& forall|i: int| offset < i < at ==> !#[trigger] is_char_boundary(text, i)
        },
{
    lemma_is_char_boundary(text, at);
    if is_prev_boundary(text, offset, at) {
        lemma_no_boundary_between(text, at, offset);
    }
    if is_next_boundary(text, offset, at) {
        lemma_no_boundary_between(text, offset, at);
    }
}

/// The codepoint at a boundary is the character that the bytes up to the next boundary
/// encode.
pub proof fn law_codepoint_bytes(text: Seq<u8>, offset: int, next: int)
    requires
        valid_utf8(text),
        0 <= offset,
        is_boundary(text, offset),
        is_next_boundary(text, offset, next),
    ensures
        encode_utf8(seq![codepoint_at(text, offset)]) == text.subrange(offset, next),
{
    law_codepoints_spell(text, offset, next);
    lemma_split_valid(text, offset);
    lemma_subrange_valid(text, offset, next);
    let one = text.subrange(offset, next);
    let chars = decode_utf8(text.take(offset));
    assert(text.take(next) =~= text.take(offset) + one);
    lemma_decode_concat(text.take(offset), one);
    assert((chars + decode_utf8(one)).skip(chars.len() as int) =~= decode_utf8(one));
    assert(chars.push(codepoint_at(text, offset)).skip(chars.len() as int) =~= seq![
        codepoint_at(text, offset),
    ]);
    decode_utf8_encode_utf8(one);
}

// Offsets of a rope

/// The line number at an offset is the number of newlines before it.
pub proof fn law_line_of_offset(rope: Node, offset: usize, line: usize)
    requires
        call_ensures(Node::line_of_offset, (&rope, offset), line),
    ensures
        line == rope.bytes().take(offset as int).to_multiset().count(0x0a),
{
    law_count(rope.bytes().take(offset as int), 0x0a);
}

/// The offset of a line that the text has lies behind that many newlines, and right
/// behind the last of them; of another line it is the length of the text.
pub proof fn law_offset_of_line(rope: Node, line: usize, offset: usize)
    requires
        call_ensures(Node::offset_of_line, (&rope, line), offset),
    ensures
        ({
            let text = rope.bytes();
            if line <= text.to_multiset().count(0x0a) {
                &&& offset <= text.len()
                &&& text.take(offset as int).to_multiset().count(0x0a) == line
                &&& offset == 0 || text[offset - 1] == 0x0a
            } else {
                offset == text.len()
            }
        }),
{
    law_count(rope.bytes(), 0x0a);
    law_count(rope.bytes().take(offset as int), 0x0a);
}

/// A codepoint boundary is a boundary of the characters of the text.
pub proof fn law_is_codepoint_boundary(rope: Node, offset: usize, found: bool)
    requires
        rope.wf(),
        call_ensures(Node::is_codepoint_boundary, (&rope, offset), found),
    ensures
        found == is_char_boundary(rope.bytes(), offset as int),
{
    lemma_bytes_valid(rope);
    lemma_is_char_boundary(rope.bytes(), offset as int);
}

/// The codepoint before an offset starts at the last boundary before it.
pub proof fn law_prev_codepoint_offset(rope: Node, offset: usize, at: Option<usize>)
    requires
        rope.wf(),
        call_ensures(Node::prev_codepoint_offset, (&rope, offset), at),
    ensures
        match at {
            Some(at) => {
                &&& at < offset
                &&& is_char_boundary(rope.bytes(), at as int)
                &&& forall|i: int|
                    at < i < offset ==> !#[trigger] is_char_boundary(rope.bytes(), i)
            },
            None => offset == 0,
        },
{
    lemma_bytes_valid(rope);
    if let Some(at) = at {
        lemma_no_boundary_between(rope.bytes(), at as int, offset as int);
        lemma_is_char_boundary(rope.bytes(), at as int);
    }
}

/// The codepoint after an offset starts at the first boundary behind it.
pub proof fn law_next_codepoint_offset(rope: Node, offset: usize, at: Option<usize>)
    requires
        rope.wf(),
        call_ensures(Node::next_codepoint_offset, (&rope, offset), at),
    ensures
        match at {
            Some(at) => {
                &&& offset < at <= rope.bytes().len()
                &&& is_char_boundary(rope.bytes(), at as int)
                &&& forall|i: int|
                    offset < i < at ==> !#[trigger] is_char_boundary(rope.bytes(), i)
            },
            None => offset >= rope.bytes().len(),
        },
{
    lemma_bytes_valid(rope);
    if let Some(at) = at {
        lemma_no_boundary_between(rope.bytes(), offset as int, at as int);
        lemma_is_char_boundary(rope.bytes(), at as int);
    }
}

/// A slice holds the bytes from its start to its end.
pub proof fn law_slice(rope: Node, start: usize, end: usize, s: String)
    requires
        call_ensures(Node::slice_to_string, (&rope, start, end), s),
    ensures
        start < end ==> encode_utf8(s@) == rope.bytes().subrange(start as int, end as int),
        start >= end ==> s@.len() == 0,
{
    if start >= end {
        lemma_encode_empty(s@);
    }
}

/// The bytes of a range, and none of an empty one.
pub proof fn law_range_of(text: Seq<u8>, start: int, end: int)
    ensures
        start < end ==> range_of(text, start, end) == text.subrange(start, end),
        start >= end ==> range_of(text, start, end).len() == 0,
{
}

/// Every empty range may be walked over, and every range between character boundaries.
pub proof fn law_ranges(text: Seq<u8>, start: int, end: int)
    requires
        valid_utf8(text),
        0 <= start,
        0 <= end,
    ensures
        is_range(text, start, end) <==> start >= end || is_char_boundary(text, start)
            && is_char_boundary(text, end),
{
    lemma_is_char_boundary(text, start);
    lemma_is_char_boundary(text, end);
}

// Lines

/// A line without its ending, followed by the ending, is the line: the ending is a
/// newline, a carriage return and a newline, or nothing. It is nothing only if the line
/// does not end with a newline, and a newline alone only if no carriage return stands
/// before it.
pub proof fn law_strip_ending(line: Seq<u8>)
    ensures
        ({
            let body = strip_ending(line);
            ||| line == body && (line.len() == 0 || line.last() != 0x0a)
            ||| line == body + seq![0x0au8] && (body.len() == 0 || body.last() != 0x0d)
            ||| line == body + seq![0x0du8, 0x0au8]
        }),
{
    let body = strip_ending(line);
    if line.len() > 0 && line.last() == 0x0a {
        if line.len() > 1 && line[line.len() - 2] == 0x0d {
            assert(line =~= body + seq![0x0du8, 0x0au8]);
        } else {
            assert(line =~= body + seq![0x0au8]);
        }
    }
}

/// What `trim_ending` cuts off is the ending and nothing else.
pub proof fn law_trim_ending<'a>(line: &'a str, body: &'a str)
    requires
        call_ensures(trim_ending, (line,), body),
    ensures
        ({
            let line = line.spec_bytes();
            let body = body.spec_bytes();
            ||| line == body && (line.len() == 0 || line.last() != 0x0a)
            ||| line == body + seq![0x0au8] && (body.len() == 0 || body.last() != 0x0d)
            ||| line == body + seq![0x0du8, 0x0au8]
        }),
{
    law_strip_ending(line.spec_bytes());
}

/// Every line without its ending, followed by the ending, is the line with it.
pub proof fn law_stripped_line_and_ending(text: Seq<u8>, k: int)
    requires
        0 <= k < raw_lines(text).len(),
    ensures
        stripped_lines(text).len() == raw_lines(text).len(),
        ({
            let line = raw_lines(text)[k];
            let body = stripped_lines(text)[k];
            ||| line == body && (line.len() == 0 || line.last() != 0x0a)
            ||| line == body + seq![0x0au8] && (body.len() == 0 || body.last() != 0x0d)
            ||| line == body + seq![0x0du8, 0x0au8]
        }),
{
    law_strip_ending(raw_lines(text)[k]);
}

/// The first line reaches to the first newline, which belongs to it, or to the end of a
/// text without one.
pub proof fn law_first_line(text: Seq<u8>)
    ensures
        ({
            let n = first_line_len(text) as int;
            &&& 0 <= n <= text.len()
            &&& text.len() > 0 ==> n > 0
            &&& forall|i: int| 0 <= i < n - 1 ==> text[i] != 0x0a
            &&& n < text.len() ==> text[n - 1] == 0x0a
        }),
{
    if text.len() > 0 {
        lemma_first_line_len(text);
    }
}

// Places

/// The leaf at a position starts at or before it, and the next leaf, if there is one,
/// behind it.
pub proof fn law_leaf_at(leaves: Seq<Seq<u8>>, position: int)
    requires
        leaves.len() > 0,
        0 <= position,
    ensures
        ({
            let k = leaf_index(leaves, position);
            &&& 0 <= k < leaves.len()
            &&& leaves.take(k).flatten().len() <= position
            &&& k + 1 < leaves.len() ==> position < leaves.take(k + 1).flatten().len()
            &&& leaf_start(leaves, k) == leaves.take(k).flatten().len()
            &&& leaf_start(leaves, k + 1) == leaves.take(k + 1).flatten().len()
        }),
{
    lemma_leaf_index(leaves, position);
}

/// A cursor that has moved to a position is there, at a leaf of the same rope; one that
/// has gone is at no leaf.
pub proof fn law_cursor_places(c: Cursor, from: Cursor, position: int)
    ensures
        c.moved_to(from, position) ==> c.position() == position && c.at_leaf() && c.leaves()
            == from.leaves(),
        c.gone(from, position) ==> c.position() == position && !c.at_leaf() && c.leaves()
            == from.leaves(),
        c.bytes() == c.leaves().flatten(),
        c.index() == leaf_index(c.leaves(), c.position()),
{
}

/// `find_leaf` hands out the leaf that holds a position, and where it starts.
pub proof fn law_find_leaf(rope: Node, position: usize, leaf: &String, start: usize, k: int)
    requires
        call_ensures(Node::find_leaf, (&rope, position), (leaf, start)),
        0 <= k < rope.leaves().len(),
        rope.leaves().take(k).flatten().len() <= position,
        k + 1 < rope.leaves().len() ==> position < rope.leaves().take(k + 1).flatten().len(),
    ensures
        encode_utf8(leaf@) == rope.leaves()[k],
        start == rope.leaves().take(k).flatten().len(),
{
    lemma_leaf_index_is(rope.leaves(), position as int, k);
}

// Splits

/// `at` is where a text is to be cut in two leaves with at least `minsplit` bytes in the
/// first: behind the last newline that leaves room for it, with at most 1024 bytes before
/// it and at least 511 behind; or, without such a newline, at the last character boundary.
pub open spec fn splits_well(text: Seq<u8>, minsplit: int, at: int) -> bool {
    let limit = if text.len() - 511 < 1024 {
        text.len() - 511
    } else {
        1024
    };
    &&& 0 <= at <= limit
    &&& is_char_boundary(text, at)
    &&& (exists|i: int| minsplit <= i + 1 <= limit && #[trigger] text[i] == 0x0a) ==> {
        &&& minsplit <= at
        &&& text[at - 1] == 0x0a
        &&& forall|i: int| at <= i < limit ==> #[trigger] text[i] != 0x0a
    }
    &&& !(exists|i: int| minsplit <= i + 1 <= limit && #[trigger] text[i] == 0x0a)
        ==> forall|i: int| at < i <= limit ==> !#[trigger] is_char_boundary(text, i)
}

/// Splits are as `splits_well` says, for any least length of the first part.
pub proof fn law_leaf_split(text: Seq<u8>, minsplit: int, at: int)
    requires
        valid_utf8(text),
        text.len() >= 511,
        1 <= minsplit,
        is_leaf_split(text, minsplit, at),
    ensures
        splits_well(text, minsplit, at),
{
    let limit = split_limit(text.len() as int);
    if exists|i: int| minsplit <= i + 1 <= limit && #[trigger] text[i] == 0x0a {
        let i = choose|i: int| minsplit <= i + 1 <= limit && #[trigger] text[i] == 0x0a;
        assert(minsplit - 1 <= i < limit && text[i] == 0x0a);
        lemma_boundary_behind_ascii(text, at - 1);
        lemma_is_char_boundary(text, at);
    } else {
        assert forall|i: int| minsplit - 1 <= i < limit implies #[trigger] text[i] != 0x0a by {
            assert(minsplit <= i + 1 <= limit);
        }
        lemma_is_char_boundary(text, at);
        lemma_no_boundary_between(text, at, limit + 1);
    }
}

/// The least length before a split when leaves are merged: 511, or what leaves 1024
/// behind it.
pub proof fn law_merge_minsplit(len: int)
    ensures
        merge_minsplit(len) >= 511,
        merge_minsplit(len) >= len - 1024,
        merge_minsplit(len) == 511 || merge_minsplit(len) == len - 1024,
{
}

/// What `find_leaf_split` finds splits the string well.
pub proof fn law_find_leaf_split(s: &str, minsplit: usize, at: usize)
    requires
        s.spec_bytes().len() >= 511,
        1 <= minsplit,
        call_ensures(find_leaf_split, (s, minsplit), at),
    ensures
        splits_well(s.spec_bytes(), minsplit as int, at as int),
{
    encode_utf8_valid_utf8(s@);
    law_leaf_split(s.spec_bytes(), minsplit as int, at as int);
}

/// A split in bulk leaves at least 511 bytes before it.
pub proof fn law_split_for_bulk(s: &str, at: usize)
    requires
        s.spec_bytes().len() >= 1021,
        call_ensures(find_leaf_split_for_bulk, (s,), at),
    ensures
        splits_well(s.spec_bytes(), 511, at as int),
{
    encode_utf8_valid_utf8(s@);
    law_leaf_split(s.spec_bytes(), 511, at as int);
}

/// A split for merging leaves at least 511 bytes before it, and, where a newline decides,
/// at most 1024 behind it.
pub proof fn law_split_for_merge(s: &str, at: usize)
    requires
        s.spec_bytes().len() >= 1024,
        call_ensures(find_leaf_split_for_merge, (s,), at),
    ensures
        ({
            let over = s.spec_bytes().len() - 1024;
            splits_well(
                s.spec_bytes(),
                if over > 511 {
                    over
                } else {
                    511
                },
                at as int,
            )
        }),
{
    encode_utf8_valid_utf8(s@);
    let len = s.spec_bytes().len() as int;
    law_merge_minsplit(len);
    law_leaf_split(s.spec_bytes(), merge_minsplit(len), at as int);
}

// Leaves

/// The leaves of a rope hold at most 1024 bytes each, and with siblings at least 511.
pub proof fn law_leaf_lengths(rope: Node, k: int)
    requires
        rope.wf(),
        0 <= k < rope.leaves().len(),
    ensures
        rope.leaves()[k].len() <= 1024,
        rope.leaves().len() > 1 ==> rope.leaves()[k].len() >= 511,
{
    lemma_leaves_wf(rope);
}

/// A string of at most 1024 bytes is one leaf. A longer one is cut where it splits well,
/// and the rest as a string of its own.
pub proof fn law_bulk_layout(text: Seq<u8>)
    requires
        valid_utf8(text),
    ensures
        text.len() <= 1024 ==> bulk_leaves(text) == seq![text],
        text.len() > 1024 ==> {
            let at = bulk_leaves(text)[0].len() as int;
            &&& 511 <= at <= 1024
            &&& splits_well(text, 511, at)
            &&& bulk_leaves(text) == seq![text.take(at)] + bulk_leaves(text.skip(at))
        },
{
    if text.len() > 1024 {
        let at = leaf_split(text, 511);
        lemma_leaf_split(text, 511);
        lemma_leaf_split_lengths(text, 511, at);
        lemma_split_valid(text, at);
        law_leaf_split(text, 511, at);
    }
}

/// Ropes that are joined keep all their leaves but the two that meet. These stay too if
/// both hold at least 511 bytes. Else they become one leaf, or, if that would hold more
/// than 1024 bytes, two that split it well.
pub proof fn law_joined_layout(a: Seq<Seq<u8>>, b: Seq<Seq<u8>>)
    requires
        leaves_wf(a),
        leaves_wf(b),
    ensures
        ({
            let joined = joined_leaves(a, b);
            let all = a.last() + b[0];
            if a.last().len() >= 511 && b[0].len() >= 511 {
                joined == a + b
            } else if all.len() <= 1024 {
                joined == a.drop_last() + seq![all] + b.drop_first()
            } else {
                let at = joined[a.len() - 1].len() as int;
                &&& splits_well(
                    all,
                    if all.len() - 1024 > 511 {
                        all.len() - 1024
                    } else {
                        511
                    },
                    at,
                )
                &&& joined == a.drop_last() + seq![all.take(at), all.skip(at)] + b.drop_first()
            }
        }),
{
    let all = a.last() + b[0];
    if !(a.last().len() >= 511 && b[0].len() >= 511) && all.len() > 1024 {
        let minsplit = merge_minsplit(all.len() as int);
        law_merge_minsplit(all.len() as int);
        assert(valid_utf8(a.last()) && valid_utf8(b[0]));
        valid_utf8_concat(a.last(), b[0]);
        lemma_leaf_split(all, minsplit);
        let at = leaf_split(all, minsplit);
        lemma_leaf_split_lengths(all, minsplit, at);
        law_leaf_split(all, minsplit, at);
        assert(joined_leaves(a, b)[a.len() - 1] == all.take(at));
    }
}

// Chunks

/// Chunk number `i` from `start` on is what lies between `start` and `end` of the leaf
/// `i` leaves behind the one that holds `start`.
pub proof fn law_chunk(leaves: Seq<Seq<u8>>, start: int, end: int, i: int)
    requires
        leaves_wf(leaves),
        0 <= start < end <= leaves.flatten().len(),
        0 <= i < chunks_of(leaves, start, end).len(),
    ensures
        ({
            let k = leaf_index(leaves, start) + i;
            let first = leaves.take(k).flatten().len() as int;
            let last = leaves.take(k + 1).flatten().len() as int;
            &&& 0 <= k < leaves.len()
            &&& chunks_of(leaves, start, end)[i] == leaves.flatten().subrange(
                if first < start {
                    start
                } else {
                    first
                },
                if end < last {
                    end
                } else {
                    last
                },
            )
        }),
{
    let k = leaf_index(leaves, start);
    lemma_leaf_index(leaves, start);
    lemma_leaf_ends(leaves);
    lemma_chunk(leaves, k, start, end, i);
}

proof fn lemma_chunk(leaves: Seq<Seq<u8>>, k: int, start: int, end: int, i: int)
    requires
        leaves_wf(leaves),
        0 <= k < leaves.len(),
        leaf_start(leaves, k) <= start < end <= leaves.flatten().len(),
        start < leaf_start(leaves, k + 1),
        0 <= i < chunks_from(leaves, k, start, end).len(),
    ensures
        ({
            let first = leaf_start(leaves, k + i);
            let last = leaf_start(leaves, k + i + 1);
            &&& k + i < leaves.len()
            &&& chunks_from(leaves, k, start, end)[i] == leaves.flatten().subrange(
                if first < start {
                    start
                } else {
                    first
                },
                if end < last {
                    end
                } else {
                    last
                },
            )
        }),
    decreases i,
{
    lemma_leaf_parts(leaves, k);
    lemma_leaf_ends(leaves);
    let next = leaf_start(leaves, k + 1);
    if i > 0 {
        let stop = if end < next {
            end
        } else {
            next
        };
        let rest = chunks_from(leaves, k + 1, stop, end);
        assert(chunks_from(leaves, k, start, end)[i] == rest[i - 1]);
        if k + 1 < leaves.len() {
            lemma_leaf_parts(leaves, k + 1);
            assert(leaves[k + 1].len() > 0);
            lemma_chunk(leaves, k + 1, stop, end, i - 1);
            lemma_leaf_start_monotone(leaves, k + 1, k + i);
        }
    }
}

/// The chunks of a range join to its bytes, and no chunk is empty.
pub proof fn law_chunks_hold_the_range(leaves: Seq<Seq<u8>>, start: int, end: int)
    requires
        leaves_wf(leaves),
        0 <= start < end <= leaves.flatten().len(),
    ensures
        chunks_of(leaves, start, end).flatten() == leaves.flatten().subrange(start, end),
        forall|i: int|
            0 <= i < chunks_of(leaves, start, end).len() ==> (#[trigger] chunks_of(
                leaves,
                start,
                end,
            )[i]).len() > 0,
{
    lemma_leaf_index(leaves, start);
    lemma_leaf_ends(leaves);
    lemma_chunks_from(leaves, leaf_index(leaves, start), start, end);
}

} // verus!
