//! The mathematical model of a text: a sequence of UTF-8 code units, with
//! codepoint boundaries, newlines and lines.

use vstd::prelude::*;
use vstd::seq_lib::*;
use vstd::utf8::*;

verus! {

/// The byte that ends a line.
pub const NEWLINE: u8 = 0x0a;

/// The byte that may stand before the newline in a line ending.
pub const CARRIAGE_RETURN: u8 = 0x0d;

// Codepoint boundaries

/// `offset` lies between two codepoints of `text`, or at one of its ends.
pub open spec fn is_boundary(text: Seq<u8>, offset: int) -> bool {
    ||| offset == text.len()
    ||| 0 <= offset < text.len() && !is_continuation_byte(text[offset])
}

/// `at` is the largest boundary of `text` below `offset`.
pub open spec fn is_prev_boundary(text: Seq<u8>, offset: int, at: int) -> bool {
    &&& 0 <= at < offset
    &&& is_boundary(text, at)
    &&& forall|i: int| at < i < offset ==> !#[trigger] is_boundary(text, i)
}

/// `at` is the smallest boundary of `text` above `offset`.
pub open spec fn is_next_boundary(text: Seq<u8>, offset: int, at: int) -> bool {
    &&& offset < at <= text.len()
    &&& is_boundary(text, at)
    &&& forall|i: int| offset < i < at ==> !#[trigger] is_boundary(text, i)
}

/// The number of bytes that a codepoint with the first byte `b` takes.
pub open spec fn width_from_first_byte(b: u8) -> nat {
    if b < 0x80 {
        1
    } else if b < 0xe0 {
        2
    } else if b < 0xf0 {
        3
    } else {
        4
    }
}

/// The codepoint of `text` that starts at `offset`.
pub open spec fn codepoint_at(text: Seq<u8>, offset: int) -> char {
    decode_utf8(text.skip(offset))[0]
}

/// In a valid text the boundaries are those that `str::is_char_boundary` finds.
pub proof fn lemma_is_char_boundary(text: Seq<u8>, offset: int)
    requires
        valid_utf8(text),
    ensures
        is_boundary(text, offset) == is_char_boundary(text, offset),
{
    is_char_boundary_start_end_of_seq(text);
    if 0 <= offset < text.len() {
        is_char_boundary_iff_not_is_continuation_byte(text, offset);
    }
}

/// The start of a valid text is a boundary.
pub proof fn lemma_start_is_boundary(text: Seq<u8>)
    requires
        valid_utf8(text),
    ensures
        is_boundary(text, 0),
{
    lemma_is_char_boundary(text, 0);
}

/// The boundaries of a concatenation are those of its parts.
pub proof fn lemma_boundary_concat(a: Seq<u8>, b: Seq<u8>, offset: int)
    requires
        valid_utf8(a),
        valid_utf8(b),
    ensures
        offset <= a.len() ==> is_boundary(a + b, offset) == is_boundary(a, offset),
        offset >= a.len() ==> is_boundary(a + b, offset) == is_boundary(b, offset - a.len()),
{
    lemma_start_is_boundary(b);
}

/// A valid text splits at a boundary into two valid texts.
pub proof fn lemma_split_valid(text: Seq<u8>, offset: int)
    requires
        valid_utf8(text),
        is_boundary(text, offset),
    ensures
        0 <= offset <= text.len(),
        valid_utf8(text.take(offset)),
        valid_utf8(text.skip(offset)),
{
    lemma_is_char_boundary(text, offset);
    valid_utf8_split(text, offset);
}

/// The part of a valid text between two boundaries is a valid text.
pub proof fn lemma_subrange_valid(text: Seq<u8>, start: int, end: int)
    requires
        valid_utf8(text),
        is_boundary(text, start),
        is_boundary(text, end),
        start <= end,
    ensures
        0 <= start <= end <= text.len(),
        valid_utf8(text.subrange(start, end)),
{
    lemma_split_valid(text, end);
    let head = text.take(end);
    assert(is_boundary(head, start));
    lemma_split_valid(head, start);
    assert(head.skip(start) =~= text.subrange(start, end));
}

/// A boundary lies at most three bytes before any offset.
pub proof fn lemma_boundary_nearby(text: Seq<u8>, offset: int)
    requires
        valid_utf8(text),
        0 <= offset <= text.len(),
    ensures
        exists|i: int| 0 <= i && offset - 3 <= i <= offset && #[trigger] is_boundary(text, i),
    decreases text.len(),
{
    lemma_start_is_boundary(text);
    if offset <= 3 {
        assert(is_boundary(text, 0));
    } else {
        let first = length_of_first_scalar(text);
        let rest = pop_first_scalar(text);
        if offset >= first {
            lemma_boundary_nearby(rest, offset - first);
            let i = choose|i: int|
                0 <= i && offset - first - 3 <= i <= offset - first && #[trigger] is_boundary(
                    rest,
                    i,
                );
            assert(is_boundary(text, i + first));
        } else {
            assert(is_boundary(text, 0));
        }
    }
}

/// From a boundary inside a valid text the first byte tells where the next one lies.
pub proof fn lemma_width_reaches_next(text: Seq<u8>, offset: int)
    requires
        valid_utf8(text),
        0 <= offset < text.len(),
        is_boundary(text, offset),
    ensures
        is_next_boundary(text, offset, offset + width_from_first_byte(text[offset])),
{
    lemma_split_valid(text, offset);
    let rest = text.skip(offset);
    let width = width_from_first_byte(text[offset]);
    assert(rest[0] == text[offset]);
    assert(length_of_first_scalar(rest) == width);
    let tail = pop_first_scalar(rest);
    assert(valid_utf8(tail));
    lemma_start_is_boundary(tail);
    if tail.len() > 0 {
        assert(tail[0] == text[offset + width]);
    }
    assert forall|i: int| offset < i < offset + width implies !#[trigger] is_boundary(text, i) by {
        assert(text[i] == rest[i - offset]);
        assert(is_continuation_byte(rest[i - offset]));
    }
}

/// Encoding distributes over concatenation.
pub proof fn lemma_encode_concat(a: Seq<char>, b: Seq<char>)
    ensures
        encode_utf8(a + b) == encode_utf8(a) + encode_utf8(b),
    decreases a.len(),
{
    if a.len() == 0 {
        assert(a + b =~= b);
        assert(encode_utf8(a) + encode_utf8(b) =~= encode_utf8(b));
    } else {
        lemma_encode_concat(a.drop_first(), b);
        assert((a + b).drop_first() =~= a.drop_first() + b);
        assert(encode_utf8(a + b) =~= encode_utf8(a) + encode_utf8(b));
    }
}

/// Only the empty text encodes to no bytes.
pub proof fn lemma_encode_empty(chars: Seq<char>)
    ensures
        (encode_utf8(chars).len() == 0) == (chars.len() == 0),
{
    if chars.len() > 0 {
        assert(encode_scalar(chars[0] as u32).len() > 0);
    }
}

/// Decoding distributes over the concatenation of valid texts.
pub proof fn lemma_decode_concat(a: Seq<u8>, b: Seq<u8>)
    requires
        valid_utf8(a),
        valid_utf8(b),
    ensures
        valid_utf8(a + b),
        decode_utf8(a + b) == decode_utf8(a) + decode_utf8(b),
{
    valid_utf8_concat(a, b);
    let chars = decode_utf8(a) + decode_utf8(b);
    lemma_encode_concat(decode_utf8(a), decode_utf8(b));
    decode_utf8_encode_utf8(a);
    decode_utf8_encode_utf8(b);
    encode_utf8_decode_utf8(chars);
}

/// A codepoint is told by the part of the text in which it lies.
pub proof fn lemma_codepoint_of_part(before: Seq<u8>, part: Seq<u8>, behind: Seq<u8>, offset: int)
    requires
        valid_utf8(before),
        valid_utf8(part),
        valid_utf8(behind),
        0 <= offset < part.len(),
        is_boundary(part, offset),
    ensures
        codepoint_at(before + part + behind, before.len() + offset) == codepoint_at(part, offset),
        decode_utf8(part.skip(offset)).len() > 0,
{
    lemma_split_valid(part, offset);
    let rest = part.skip(offset);
    assert((before + part + behind).skip(before.len() + offset) =~= rest + behind);
    lemma_decode_concat(rest, behind);
    assert(decode_utf8(rest).len() > 0);
}

// Edits

/// `text` with the bytes from `start` to `end` replaced by `new`.
pub open spec fn edited(text: Seq<u8>, start: int, end: int, new: Seq<u8>) -> Seq<u8> {
    text.take(start) + new + text.skip(end)
}

// Newlines

/// The number of bytes of `text` that equal `byte`.
pub open spec fn count_byte(text: Seq<u8>, byte: u8) -> nat
    decreases text.len(),
{
    if text.len() == 0 {
        0
    } else {
        count_byte(text.drop_last(), byte) + if text.last() == byte {
            1nat
        } else {
            0nat
        }
    }
}

/// The number of newlines in `text`.
pub open spec fn newlines(text: Seq<u8>) -> nat {
    count_byte(text, NEWLINE)
}

/// The count over a concatenation is the sum of the counts.
pub proof fn lemma_count_concat(a: Seq<u8>, b: Seq<u8>, byte: u8)
    ensures
        count_byte(a + b, byte) == count_byte(a, byte) + count_byte(b, byte),
    decreases b.len(),
{
    if b.len() == 0 {
        assert(a + b =~= a);
    } else {
        lemma_count_concat(a, b.drop_last(), byte);
        assert((a + b).drop_last() =~= a + b.drop_last());
    }
}

/// No byte occurs more often than the text is long.
pub proof fn lemma_count_bounded(text: Seq<u8>, byte: u8)
    ensures
        count_byte(text, byte) <= text.len(),
    decreases text.len(),
{
    if text.len() > 0 {
        lemma_count_bounded(text.drop_last(), byte);
    }
}

/// A longer prefix holds at least as many newlines.
pub proof fn lemma_newlines_monotone(text: Seq<u8>, i: int, j: int)
    requires
        0 <= i <= j <= text.len(),
    ensures
        newlines(text.take(i)) <= newlines(text.take(j)),
{
    lemma_count_concat(text.take(i), text.subrange(i, j), NEWLINE);
    assert(text.take(i) + text.subrange(i, j) =~= text.take(j));
}

/// A text in which the byte does not occur counts zero.
pub proof fn lemma_count_none(text: Seq<u8>, byte: u8)
    requires
        forall|i: int| 0 <= i < text.len() ==> text[i] != byte,
    ensures
        count_byte(text, byte) == 0,
    decreases text.len(),
{
    if text.len() > 0 {
        lemma_count_none(text.drop_last(), byte);
    }
}

/// A text whose rest holds no newline counts no more than the part before.
pub proof fn lemma_no_newline_after(text: Seq<u8>, offset: int)
    requires
        0 <= offset <= text.len(),
    ensures
        (forall|i: int| offset <= i < text.len() ==> text[i] != NEWLINE) ==> newlines(text)
            == newlines(text.take(offset)),
{
    let rest = text.skip(offset);
    assert(text.take(offset) + rest =~= text);
    lemma_count_concat(text.take(offset), rest, NEWLINE);
    if forall|i: int| offset <= i < text.len() ==> text[i] != NEWLINE {
        lemma_count_none(rest, NEWLINE);
    }
}

// Lines by number

/// `offset` is where line number `line` of `text` starts: after that many
/// newlines, and right behind the last of them.
pub open spec fn starts_line(text: Seq<u8>, line: nat, offset: int) -> bool {
    &&& 0 <= offset <= text.len()
    &&& newlines(text.take(offset)) == line
    &&& offset == 0 || text[offset - 1] == NEWLINE
}

/// The offset behind newline number `line` of `text`, counted from one; zero for line zero.
pub open spec fn line_start(text: Seq<u8>, line: nat) -> int
    decreases text.len(),
{
    if line == 0 || text.len() == 0 {
        0
    } else if newlines(text.drop_last()) >= line {
        line_start(text.drop_last(), line)
    } else {
        text.len() as int
    }
}

/// `line_start` is where the line starts, for every line that the text has.
pub proof fn lemma_line_start(text: Seq<u8>, line: nat)
    requires
        line <= newlines(text),
    ensures
        starts_line(text, line, line_start(text, line)),
    decreases text.len(),
{
    if line == 0 || text.len() == 0 {
        assert(text.take(0).len() == 0);
    } else if newlines(text.drop_last()) >= line {
        lemma_line_start(text.drop_last(), line);
        let o = line_start(text.drop_last(), line);
        assert(text.drop_last().take(o) =~= text.take(o));
    } else {
        assert(text.take(text.len() as int) =~= text);
    }
}

/// A line starts at one offset only.
pub proof fn lemma_line_start_unique(text: Seq<u8>, line: nat, a: int, b: int)
    requires
        starts_line(text, line, a),
        starts_line(text, line, b),
    ensures
        a == b,
{
    if a < b {
        lemma_no_line_between(text, line, a, b);
    } else if b < a {
        lemma_no_line_between(text, line, b, a);
    }
}

proof fn lemma_no_line_between(text: Seq<u8>, line: nat, a: int, b: int)
    requires
        starts_line(text, line, a),
        0 <= a < b <= text.len(),
        text[b - 1] == NEWLINE,
    ensures
        newlines(text.take(b)) > line,
{
    lemma_newlines_monotone(text, a, b - 1);
    assert(text.take(b).drop_last() =~= text.take(b - 1));
    assert(text.take(b).last() == text[b - 1]);
}

/// What identifies the start of a line pins down `line_start`.
pub proof fn lemma_line_start_is(text: Seq<u8>, line: nat, offset: int)
    requires
        starts_line(text, line, offset),
    ensures
        line <= newlines(text),
        line_start(text, line) == offset,
{
    lemma_newlines_monotone(text, offset, text.len() as int);
    assert(text.take(text.len() as int) =~= text);
    lemma_line_start(text, line);
    lemma_line_start_unique(text, line, offset, line_start(text, line));
}

// Lines by splitting

/// The length of the first line of `text`, with its newline if it has one.
pub open spec fn first_line_len(text: Seq<u8>) -> nat
    decreases text.len(),
{
    if text.len() == 0 {
        0
    } else if text[0] == NEWLINE {
        1
    } else {
        1 + first_line_len(text.drop_first())
    }
}

/// The lines of `text`, each with its newline; only the last may lack one.
pub open spec fn raw_lines(text: Seq<u8>) -> Seq<Seq<u8>>
    decreases text.len(),
{
    if text.len() == 0 {
        Seq::empty()
    } else {
        proof {
            lemma_first_line_len(text);
        }
        let n = first_line_len(text) as int;
        seq![text.take(n)] + raw_lines(text.skip(n))
    }
}

/// A line without its ending: a newline, or a carriage return and a newline.
pub open spec fn strip_ending(line: Seq<u8>) -> Seq<u8> {
    if line.len() > 0 && line.last() == NEWLINE {
        let body = line.drop_last();
        if body.len() > 0 && body.last() == CARRIAGE_RETURN {
            body.drop_last()
        } else {
            body
        }
    } else {
        line
    }
}

/// The lines of `text` without their endings.
pub open spec fn stripped_lines(text: Seq<u8>) -> Seq<Seq<u8>> {
    raw_lines(text).map_values(|line: Seq<u8>| strip_ending(line))
}

/// A line reaches to its first newline, or to the end of a text without one.
pub proof fn lemma_first_line_len(text: Seq<u8>)
    requires
        text.len() > 0,
    ensures
        0 < first_line_len(text) <= text.len(),
        forall|i: int| 0 <= i < first_line_len(text) - 1 ==> text[i] != NEWLINE,
        first_line_len(text) < text.len() ==> text[first_line_len(text) - 1] == NEWLINE,
    decreases text.len(),
{
    reveal_with_fuel(first_line_len, 2);
    if text[0] != NEWLINE && text.len() > 1 {
        let rest = text.drop_first();
        lemma_first_line_len(rest);
        assert forall|i: int| 0 <= i < first_line_len(text) - 1 implies text[i] != NEWLINE by {
            if i > 0 {
                assert(text[i] == rest[i - 1]);
            }
        }
        if first_line_len(text) < text.len() {
            assert(text[first_line_len(text) - 1] == rest[first_line_len(rest) - 1]);
        }
    }
}

/// The first line of a text whose newline at `at` is the first.
pub proof fn lemma_first_line_at(text: Seq<u8>, at: int)
    requires
        0 <= at < text.len(),
        text[at] == NEWLINE,
        forall|i: int| 0 <= i < at ==> text[i] != NEWLINE,
    ensures
        first_line_len(text) == at + 1,
{
    lemma_first_line_len(text);
}

/// The first line of a text that starts with a part without newline.
pub proof fn lemma_first_line_prefix(a: Seq<u8>, b: Seq<u8>)
    requires
        forall|i: int| 0 <= i < a.len() ==> a[i] != NEWLINE,
    ensures
        first_line_len(a + b) == a.len() + first_line_len(b),
    decreases a.len(),
{
    if a.len() == 0 {
        assert(a + b =~= b);
    } else {
        lemma_first_line_prefix(a.drop_first(), b);
        assert((a + b).drop_first() =~= a.drop_first() + b);
    }
}

} // verus!
