//! What holds between the operations of a rope, stated over the model that their
//! contracts use.

use crate::delta::{Delta, PlainDelta};
use crate::grapheme::{chunk_text, next_grapheme_of, offset_of, prev_grapheme_of};
use crate::leaf::{
    leaf_split, lemma_boundary_behind_ascii, lemma_leaf_split, lemma_leaf_split_lengths,
    merge_minsplit, Leaf, MAX_LEAF, MIN_LEAF,
};
use crate::leaves::{
    bulk_leaves, cut_leaves, joined_leaves, leaf_index, leaf_start, leaves_wf, lemma_bulk_leaves,
    lemma_cut_clamp, lemma_cut_concat, lemma_cut_none, lemma_cut_one, lemma_leaf_ends,
    lemma_leaf_index, lemma_leaf_index_is, lemma_leaf_parts, merged_leaves,
};
use crate::lines::{chunks_from, chunks_of, drop_bytes, is_range, lemma_chunks_of, range_of};
use crate::metric::{BaseMetric, Metric};
use crate::segment::{next_boundary_of, prev_boundary_of, segmenter_new};
use crate::text::{
    codepoint_at, edited, first_line_len, is_boundary, is_next_boundary, is_prev_boundary,
    lemma_boundary_concat, lemma_count_concat, lemma_count_none, lemma_decode_concat,
    lemma_first_line_at, lemma_first_line_len, lemma_line_start, lemma_line_start_is,
    lemma_newlines_monotone, lemma_split_valid, lemma_start_is_boundary, lemma_subrange_valid,
    lemma_width_reaches_next, line_start, newlines, raw_lines, starts_line, strip_ending,
    stripped_lines, width_from_first_byte, CARRIAGE_RETURN, NEWLINE,
};
use crate::tree::{lemma_bytes_valid, lemma_leaves_wf, Node};
use vstd::prelude::*;
use vstd::seq_lib::*;
use vstd::utf8::*;

verus! {

// Conversions

/// A string made into a rope and back is the same string.
pub proof fn law_string_round_trip(s: String, rope: Node, back: String)
    requires
        call_ensures(<Node as From<String>>::from, (s,), rope),
        call_ensures(<String as From<Node>>::from, (rope,), back),
    ensures
        back@ == s@,
{
}

/// A rope made into a string and back holds the same text.
pub proof fn law_rope_round_trip(rope: Node, s: String, back: Node)
    requires
        call_ensures(<String as From<&Node>>::from, (&rope,), s),
        call_ensures(<Node as From<&String>>::from, (&s,), back),
    ensures
        back@ == rope@,
{
}

/// A delta made plain and back means the same.
pub proof fn law_delta_round_trip(delta: Delta, plain: PlainDelta, back: Delta)
    requires
        call_ensures(<PlainDelta as From<&Delta>>::from, (&delta,), plain),
        call_ensures(<Delta as From<PlainDelta>>::from, (plain,), back),
    ensures
        back@ == delta@,
{
}

/// Ropes with the same characters hold the same bytes, and the other way round.
pub proof fn law_bytes_of_view(a: Node, b: Node)
    requires
        a.wf(),
        b.wf(),
    ensures
        a.bytes() == encode_utf8(a@),
        a@ == b@ <==> a.bytes() == b.bytes(),
{
    lemma_bytes_valid(a);
    lemma_bytes_valid(b);
    decode_utf8_encode_utf8(a.bytes());
    decode_utf8_encode_utf8(b.bytes());
}

// Line numbers

/// The offset of a line is a codepoint boundary, and the line number there is that of
/// the line.
pub proof fn law_line_of_line_start(text: Seq<u8>, line: nat, offset: int)
    requires
        valid_utf8(text),
        starts_line(text, line, offset),
    ensures
        is_boundary(text, offset),
        newlines(text.take(offset)) == line,
{
    if offset == 0 {
        lemma_start_is_boundary(text);
    } else {
        lemma_boundary_behind_ascii(text, offset - 1);
    }
}

/// The line at an offset starts at or before the offset, with no newline in between.
pub proof fn law_start_of_line_at(text: Seq<u8>, offset: int)
    requires
        0 <= offset <= text.len(),
    ensures
        ({
            let line = newlines(text.take(offset));
            let start = line_start(text, line);
            &&& line <= newlines(text)
            &&& starts_line(text, line, start)
            &&& start <= offset
            &&& forall|i: int| start <= i < offset ==> text[i] != NEWLINE
        }),
{
    let line = newlines(text.take(offset));
    lemma_newlines_monotone(text, offset, text.len() as int);
    assert(text.take(text.len() as int) =~= text);
    lemma_line_start(text, line);
    let start = line_start(text, line);
    if start > offset {
        lemma_newlines_monotone(text, offset, start - 1);
        lemma_newline_counts(text, start - 1);
    }
    assert forall|i: int| start <= i < offset implies text[i] != NEWLINE by {
        if text[i] == NEWLINE {
            lemma_newline_counts(text, i);
            lemma_newlines_monotone(text, start, i);
            lemma_newlines_monotone(text, i + 1, offset);
        }
    }
}

/// Lines start one behind the other.
pub proof fn law_line_starts_ordered(text: Seq<u8>, a: nat, b: nat)
    requires
        a < b <= newlines(text),
    ensures
        line_start(text, a) < line_start(text, b),
{
    lemma_line_start(text, a);
    lemma_line_start(text, b);
    if line_start(text, b) <= line_start(text, a) {
        lemma_newlines_monotone(text, line_start(text, b), line_start(text, a));
    }
}

/// The line number grows with the offset.
pub proof fn law_line_numbers_ordered(text: Seq<u8>, a: int, b: int)
    requires
        0 <= a <= b <= text.len(),
    ensures
        newlines(text.take(a)) <= newlines(text.take(b)),
{
    lemma_newlines_monotone(text, a, b);
}

proof fn lemma_newline_counts(text: Seq<u8>, at: int)
    requires
        0 <= at < text.len(),
        text[at] == NEWLINE,
    ensures
        newlines(text.take(at + 1)) == newlines(text.take(at)) + 1,
{
    assert(text.take(at + 1).drop_last() =~= text.take(at));
}

// Lines

/// Taking the lines one by one, each up to the first newline of what is left, gives
/// `raw_lines`.
pub proof fn law_lines_one_by_one(text: Seq<u8>)
    requires
        text.len() > 0,
    ensures
        ({
            let n = first_line_len(text) as int;
            &&& 0 < n <= text.len()
            &&& raw_lines(text) == seq![text.take(n)] + raw_lines(text.skip(n))
            &&& stripped_lines(text) == seq![strip_ending(text.take(n))] + stripped_lines(
                text.skip(n),
            )
        }),
{
    lemma_first_line_len(text);
    let n = first_line_len(text) as int;
    assert(stripped_lines(text) =~= seq![strip_ending(text.take(n))] + stripped_lines(
        text.skip(n),
    ));
}

/// The lines with their endings join to the text.
pub proof fn law_lines_join(text: Seq<u8>)
    ensures
        raw_lines(text).flatten() == text,
    decreases text.len(),
{
    if text.len() == 0 {
        assert(raw_lines(text) =~= Seq::empty());
        assert(text =~= Seq::empty());
    } else {
        lemma_first_line_len(text);
        let n = first_line_len(text) as int;
        law_lines_join(text.skip(n));
        let first = seq![text.take(n)];
        first.lemma_flatten_one_element();
        lemma_flatten_concat(first, raw_lines(text.skip(n)));
        assert(text =~= text.take(n) + text.skip(n));
    }
}

/// Every line with its ending, except the last, ends with a newline, and no line holds
/// a newline before its end.
pub proof fn law_lines_end_with_newline(text: Seq<u8>, k: int)
    requires
        0 <= k < raw_lines(text).len(),
    ensures
        raw_lines(text)[k].len() > 0,
        k < raw_lines(text).len() - 1 ==> raw_lines(text)[k].last() == NEWLINE,
        forall|i: int|
            0 <= i < raw_lines(text)[k].len() - 1 ==> raw_lines(text)[k][i] != NEWLINE,
    decreases text.len(),
{
    lemma_first_line_len(text);
    let n = first_line_len(text) as int;
    let rest = text.skip(n);
    if k == 0 {
        assert(raw_lines(text)[0] == text.take(n));
        if rest.len() == 0 {
            assert(raw_lines(rest) =~= Seq::empty());
        }
    } else {
        assert(raw_lines(text)[k] == raw_lines(rest)[k - 1]);
        law_lines_end_with_newline(rest, k - 1);
    }
}

/// There are as many lines as newlines, and one more if the text goes on behind the
/// last newline.
pub proof fn law_number_of_lines(text: Seq<u8>)
    ensures
        raw_lines(text).len() == newlines(text) + if text.len() > 0 && text.last() != NEWLINE {
            1nat
        } else {
            0nat
        },
        stripped_lines(text).len() == raw_lines(text).len(),
    decreases text.len(),
{
    if text.len() > 0 {
        lemma_first_line_len(text);
        let n = first_line_len(text) as int;
        let line = text.take(n);
        let rest = text.skip(n);
        law_number_of_lines(rest);
        assert(text =~= line + rest);
        lemma_count_concat(line, rest, NEWLINE);
        lemma_count_none(line.drop_last(), NEWLINE);
        if rest.len() > 0 {
            assert(text.last() == rest.last());
        } else {
            assert(raw_lines(rest) =~= Seq::empty());
            assert(text.last() == line.last());
        }
    }
}

/// The lines before line number `k` take up the text to the offset of line `k`.
pub proof fn law_lines_before(text: Seq<u8>, k: nat)
    requires
        k <= newlines(text),
    ensures
        k <= raw_lines(text).len(),
        raw_lines(text).take(k as int).flatten() == text.take(line_start(text, k)),
    decreases k,
{
    law_number_of_lines(text);
    lemma_line_start(text, k);
    if k == 0 {
        assert(raw_lines(text).take(0) =~= Seq::empty());
        assert(text.take(0) =~= Seq::empty());
    } else {
        lemma_first_line_len(text);
        let n = first_line_len(text) as int;
        let line = text.take(n);
        let rest = text.skip(n);
        assert(text =~= line + rest);
        lemma_count_concat(line, rest, NEWLINE);
        lemma_count_none(line.drop_last(), NEWLINE);
        if rest.len() == 0 && line.last() != NEWLINE {
            assert(newlines(text) == 0);
        }
        let j = (k - 1) as nat;
        law_lines_before(rest, j);
        lemma_line_start(rest, j);
        let o = line_start(rest, j);
        assert(text.take(n + o) =~= line + rest.take(o));
        lemma_count_concat(line, rest.take(o), NEWLINE);
        if o > 0 {
            assert(text[n + o - 1] == rest[o - 1]);
        }
        lemma_line_start_is(text, k, n + o);
        let before = raw_lines(rest).take(j as int);
        assert(raw_lines(text).take(k as int) =~= seq![line] + before);
        seq![line].lemma_flatten_one_element();
        lemma_flatten_concat(seq![line], before);
    }
}

/// The lines without their endings are those with them, each without its ending.
pub proof fn law_stripped_line(text: Seq<u8>, k: int)
    requires
        0 <= k < raw_lines(text).len(),
    ensures
        stripped_lines(text)[k] == strip_ending(raw_lines(text)[k]),
        forall|i: int|
            0 <= i < stripped_lines(text)[k].len() ==> stripped_lines(text)[k][i] != NEWLINE,
{
    law_lines_end_with_newline(text, k);
}

/// The final line ending is optional: with or without a newline at the end the lines
/// are the same, unless the text is empty, ends with a newline already, or ends with
/// a carriage return, which the newline would make part of the ending.
pub proof fn law_final_newline_optional(text: Seq<u8>)
    requires
        text.len() > 0,
        text.last() != NEWLINE,
        text.last() != CARRIAGE_RETURN,
    ensures
        stripped_lines(text.push(NEWLINE)) == stripped_lines(text),
    decreases text.len(),
{
    let longer = text.push(NEWLINE);
    lemma_first_line_len(text);
    let n = first_line_len(text) as int;
    law_lines_one_by_one(text);
    law_lines_one_by_one(longer);
    let rest = text.skip(n);
    if n < text.len() {
        assert forall|i: int| 0 <= i < n - 1 implies longer[i] != NEWLINE by {
            assert(longer[i] == text[i]);
        }
        assert(longer[n - 1] == text[n - 1]);
        lemma_first_line_at(longer, n - 1);
        assert(longer.take(n) =~= text.take(n));
        assert(longer.skip(n) =~= rest.push(NEWLINE));
        assert(rest.last() == text.last());
        law_final_newline_optional(rest);
    } else {
        assert forall|i: int| 0 <= i < text.len() implies longer[i] != NEWLINE by {
            assert(longer[i] == text[i]);
        }
        lemma_first_line_at(longer, text.len() as int);
        assert(longer.take(longer.len() as int) =~= longer);
        assert(longer.drop_last() =~= text);
        assert(text.take(n) =~= text);
        assert(longer.skip(longer.len() as int) =~= Seq::empty());
        assert(rest =~= Seq::empty());
    }
}

// Leaves

/// A rope has a leaf. Its leaves are valid texts of at most the longest length, and
/// with siblings of at least the shortest, and they join to a valid text.
pub proof fn law_leaves(rope: Node)
    requires
        rope.wf(),
    ensures
        rope.leaves().len() > 0,
        forall|k: int|
            0 <= k < rope.leaves().len() ==> {
                &&& valid_utf8(#[trigger] rope.leaves()[k])
                &&& rope.leaves()[k].len() <= MAX_LEAF
                &&& rope.leaves().len() > 1 ==> MIN_LEAF <= rope.leaves()[k].len()
            },
        valid_utf8(rope.bytes()),
{
    lemma_leaves_wf(rope);
    lemma_bytes_valid(rope);
}

/// The leaves of two ropes that are joined are leaves that a rope may have, and they
/// join to both texts.
pub proof fn law_joined_leaves(a: Seq<Seq<u8>>, b: Seq<Seq<u8>>)
    requires
        leaves_wf(a),
        leaves_wf(b),
    ensures
        leaves_wf(joined_leaves(a, b)),
        joined_leaves(a, b).flatten() == a.flatten() + b.flatten(),
{
    let joined = joined_leaves(a, b);
    assert(valid_utf8(a.last()) && valid_utf8(b[0]));
    if a.last().len() >= MIN_LEAF && b[0].len() >= MIN_LEAF {
        lemma_flatten_concat(a, b);
        assert forall|k: int| 0 <= k < joined.len() implies {
            &&& valid_utf8(#[trigger] joined[k])
            &&& MIN_LEAF <= joined[k].len() <= MAX_LEAF
        } by {
            if k < a.len() {
                assert(joined[k] == a[k]);
            } else {
                assert(joined[k] == b[k - a.len()]);
            }
        }
    } else {
        let merged = merged_leaves(a.last(), b[0]);
        let front = a.drop_last();
        let back = b.drop_first();
        lemma_merged_leaves(a.last(), b[0]);
        assert(a =~= front.push(a.last()));
        front.lemma_flatten_push(a.last());
        assert(b =~= seq![b[0]] + back);
        seq![b[0]].lemma_flatten_one_element();
        lemma_flatten_concat(seq![b[0]], back);
        lemma_flatten_concat(front + merged, back);
        lemma_flatten_concat(front, merged);
        assert(joined.flatten() =~= a.flatten() + b.flatten());
        assert forall|k: int| 0 <= k < joined.len() implies {
            &&& valid_utf8(#[trigger] joined[k])
            &&& joined[k].len() <= MAX_LEAF
            &&& joined.len() > 1 ==> MIN_LEAF <= joined[k].len()
        } by {
            if k < front.len() {
                assert(joined[k] == a[k]);
            } else if k < front.len() + merged.len() {
                assert(joined[k] == merged[k - front.len()]);
            } else {
                assert(joined[k] == b[k - front.len() - merged.len() + 1]);
            }
        }
    }
}

proof fn lemma_merged_leaves(a: Seq<u8>, b: Seq<u8>)
    requires
        valid_utf8(a),
        valid_utf8(b),
        a.len() <= MAX_LEAF,
        b.len() <= MAX_LEAF,
        a.len() < MIN_LEAF || b.len() < MIN_LEAF,
    ensures
        1 <= merged_leaves(a, b).len() <= 2,
        merged_leaves(a, b).flatten() == a + b,
        forall|k: int|
            0 <= k < merged_leaves(a, b).len() ==> {
                &&& valid_utf8(#[trigger] merged_leaves(a, b)[k])
                &&& merged_leaves(a, b)[k].len() <= MAX_LEAF
                &&& a.len() >= MIN_LEAF || b.len() >= MIN_LEAF || merged_leaves(a, b).len() > 1
                    ==> MIN_LEAF <= merged_leaves(a, b)[k].len()
            },
{
    let all = a + b;
    let merged = merged_leaves(a, b);
    valid_utf8_concat(a, b);
    if all.len() <= MAX_LEAF {
        merged.lemma_flatten_one_element();
    } else {
        let minsplit = merge_minsplit(all.len() as int);
        let at = leaf_split(all, minsplit);
        lemma_leaf_split(all, minsplit);
        lemma_leaf_split_lengths(all, minsplit, at);
        lemma_split_valid(all, at);
        assert(merged =~= seq![all.take(at)] + seq![all.skip(at)]);
        seq![all.take(at)].lemma_flatten_one_element();
        seq![all.skip(at)].lemma_flatten_one_element();
        lemma_flatten_concat(seq![all.take(at)], seq![all.skip(at)]);
        assert(merged.flatten() =~= all);
    }
}

/// A string is cut in bulk into leaves that a rope may have, and they join to it.
pub proof fn law_bulk_leaves(text: Seq<u8>)
    requires
        valid_utf8(text),
    ensures
        leaves_wf(bulk_leaves(text)),
        bulk_leaves(text).flatten() == text,
{
    lemma_bulk_leaves(text);
}

// Chunks

/// The chunks join to the text between the ends. Unless the rope is empty none of them
/// is empty, and none is longer than a leaf.
pub proof fn law_chunks_join(leaves: Seq<Seq<u8>>, start: int, end: int)
    requires
        leaves_wf(leaves),
        0 <= start,
        is_range(leaves.flatten(), start, end),
    ensures
        chunks_of(leaves, start, end).flatten() == range_of(leaves.flatten(), start, end),
        leaves.flatten().len() > 0 ==> forall|i: int|
            0 <= i < chunks_of(leaves, start, end).len() ==> 0 < (#[trigger] chunks_of(
                leaves,
                start,
                end,
            )[i]).len() <= MAX_LEAF,
{
    lemma_chunks_of(leaves, start, end);
}

/// The empty rope has one chunk, and it is empty.
pub proof fn law_empty_chunk(leaves: Seq<Seq<u8>>, start: int, end: int)
    requires
        leaves.flatten().len() == 0,
    ensures
        chunks_of(leaves, start, end) == seq![Seq::<u8>::empty()],
{
}

/// A chunk that is neither the first nor the last is a whole leaf, so its length lies
/// between that of the shortest leaf with siblings and that of the longest.
pub proof fn law_inner_chunks(leaves: Seq<Seq<u8>>, start: int, end: int, i: int)
    requires
        leaves_wf(leaves),
        0 <= start,
        is_range(leaves.flatten(), start, end),
        0 < i < chunks_of(leaves, start, end).len() - 1,
    ensures
        leaf_index(leaves, start) + i < leaves.len(),
        chunks_of(leaves, start, end)[i] == leaves[leaf_index(leaves, start) + i],
        MIN_LEAF <= chunks_of(leaves, start, end)[i].len() <= MAX_LEAF,
{
    let k = leaf_index(leaves, start);
    lemma_leaf_index(leaves, start);
    lemma_leaf_parts(leaves, k);
    lemma_leaf_ends(leaves);
    let next = leaf_start(leaves, k + 1);
    let stop = if end < next {
        end
    } else {
        next
    };
    let rest = chunks_from(leaves, k + 1, stop, end);
    assert(chunks_of(leaves, start, end)[i] == rest[i - 1]);
    lemma_whole_chunks(leaves, k + 1, end, i - 1);
    assert(leaves[k + i].len() <= MAX_LEAF);
}

proof fn lemma_whole_chunks(leaves: Seq<Seq<u8>>, k: int, end: int, i: int)
    requires
        0 <= k <= leaves.len(),
        end <= leaves.flatten().len(),
        0 <= i < chunks_from(leaves, k, leaf_start(leaves, k), end).len() - 1,
    ensures
        k + i < leaves.len(),
        chunks_from(leaves, k, leaf_start(leaves, k), end)[i] == leaves[k + i],
    decreases i,
{
    lemma_leaf_parts(leaves, k);
    let next = leaf_start(leaves, k + 1);
    let rest = chunks_from(leaves, k + 1, next, end);
    if end < next {
        assert(chunks_from(leaves, k + 1, end, end) =~= Seq::empty());
    }
    if i > 0 {
        assert(chunks_from(leaves, k, leaf_start(leaves, k), end)[i] == rest[i - 1]);
        lemma_whole_chunks(leaves, k + 1, end, i - 1);
    }
}

/// The chunks of a range are the parts of the leaves that lie in it.
pub proof fn law_chunks_are_parts(leaves: Seq<Seq<u8>>, start: int, end: int)
    requires
        leaves_wf(leaves),
        0 <= start < end <= leaves.flatten().len(),
    ensures
        chunks_of(leaves, start, end) == cut_leaves(leaves, start, end),
{
    let k = leaf_index(leaves, start);
    lemma_leaf_index(leaves, start);
    lemma_leaf_ends(leaves);
    lemma_chunks_from_are_parts(leaves, k, start, end);
    let front = leaves.take(k);
    assert(leaves =~= front + leaves.skip(k));
    lemma_cut_concat(front, leaves.skip(k), start, end);
    lemma_cut_none(front, start, end);
    assert(cut_leaves(leaves, start, end) =~= chunks_of(leaves, start, end));
}

proof fn lemma_chunks_from_are_parts(leaves: Seq<Seq<u8>>, k: int, start: int, end: int)
    requires
        leaves_wf(leaves),
        0 <= k <= leaves.len(),
        leaf_start(leaves, k) <= start,
        end <= leaves.flatten().len(),
        k < leaves.len() && start < end ==> start < leaf_start(leaves, k + 1),
    ensures
        chunks_from(leaves, k, start, end) == cut_leaves(
            leaves.skip(k),
            start - leaf_start(leaves, k),
            end - leaf_start(leaves, k),
        ),
    decreases leaves.len() - k,
{
    let at = leaf_start(leaves, k);
    let here = leaves.skip(k);
    if start >= end {
        lemma_cut_none(here, start - at, end - at);
        assert(chunks_from(leaves, k, start, end) =~= Seq::empty());
    } else if k >= leaves.len() {
        assert(here =~= Seq::empty());
        assert(chunks_from(leaves, k, start, end) =~= Seq::empty());
    } else {
        lemma_leaf_parts(leaves, k);
        let leaf = leaves[k];
        let next = leaf_start(leaves, k + 1);
        let stop = if end < next {
            end
        } else {
            next
        };
        let rest = leaves.skip(k + 1);
        let total = rest.flatten().len() as int;
        assert(here =~= seq![leaf] + rest);
        seq![leaf].lemma_flatten_one_element();
        lemma_cut_concat(seq![leaf], rest, start - at, end - at);
        lemma_cut_clamp(seq![leaf], leaf.len() as int, start - at, end - at);
        lemma_cut_one(leaf, start - at, stop - at);
        assert(leaf.subrange(start - at, stop - at) =~= leaves.flatten().subrange(start, stop));
        if end < next {
            lemma_cut_none(rest, start - next, end - next);
            assert(chunks_from(leaves, k + 1, stop, end) =~= Seq::empty());
        } else {
            if k + 1 < leaves.len() {
                lemma_leaf_parts(leaves, k + 1);
                assert(leaves[k + 1].len() > 0);
            }
            lemma_chunks_from_are_parts(leaves, k + 1, stop, end);
            lemma_cut_clamp(rest, total, start - next, end - next);
            lemma_cut_clamp(rest, total, 0, end - next);
        }
        assert(chunks_from(leaves, k, start, end) =~= cut_leaves(here, start - at, end - at));
    }
}

/// Without its first bytes a range is left with the chunks of the rest of the range.
pub proof fn law_chunks_after(leaves: Seq<Seq<u8>>, start: int, end: int, n: int)
    requires
        leaves_wf(leaves),
        leaves.flatten().len() > 0,
        0 <= start <= start + n <= end <= leaves.flatten().len(),
        0 <= n,
    ensures
        drop_bytes(chunks_of(leaves, start, end), n) == chunks_of(leaves, start + n, end),
{
    lemma_leaf_index(leaves, start);
    lemma_leaf_ends(leaves);
    lemma_chunks_after(leaves, leaf_index(leaves, start), start, end, n);
}

proof fn lemma_chunks_after(leaves: Seq<Seq<u8>>, k: int, start: int, end: int, n: int)
    requires
        leaves_wf(leaves),
        0 <= k <= leaves.len(),
        leaf_start(leaves, k) <= start,
        0 <= start <= start + n <= end <= leaves.flatten().len(),
        0 <= n,
        k < leaves.len() && start < end ==> start < leaf_start(leaves, k + 1),
        k == leaves.len() ==> start == end,
    ensures
        drop_bytes(chunks_from(leaves, k, start, end), n) == chunks_from(
            leaves,
            leaf_index(leaves, start + n),
            start + n,
            end,
        ),
    decreases leaves.len() - k,
{
    let all = chunks_from(leaves, k, start, end);
    let left = chunks_from(leaves, leaf_index(leaves, start + n), start + n, end);
    lemma_leaf_ends(leaves);
    if start == end {
        assert(all =~= Seq::empty());
        assert(left =~= Seq::empty());
    } else {
        lemma_leaf_parts(leaves, k);
        let next = leaf_start(leaves, k + 1);
        let stop = if end < next {
            end
        } else {
            next
        };
        let first = leaves.flatten().subrange(start, stop);
        let rest = chunks_from(leaves, k + 1, stop, end);
        assert(all.drop_first() =~= rest);
        assert(all[0] == first);
        if start + n < stop {
            lemma_leaf_index_is(leaves, start + n, k);
            assert(first.skip(n) =~= leaves.flatten().subrange(start + n, stop));
            assert(drop_bytes(all, n) =~= left);
        } else if end < next {
            assert(rest =~= Seq::empty());
            assert(drop_bytes(rest, n - first.len()) =~= Seq::empty());
            assert(left =~= Seq::empty());
        } else {
            if k + 1 < leaves.len() {
                lemma_leaf_parts(leaves, k + 1);
                assert(leaves[k + 1].len() > 0);
            }
            lemma_chunks_after(leaves, k + 1, stop, end, n - (stop - start));
        }
    }
}

/// A line from `start` on lies in the first piece of what is to come, and is borrowed, if
/// and only if it ends in the leaf in which it starts.
pub proof fn law_line_in_one_leaf(leaves: Seq<Seq<u8>>, start: int, end: int)
    requires
        leaves_wf(leaves),
        0 <= start < end <= leaves.flatten().len(),
    ensures
        ({
            let n = first_line_len(range_of(leaves.flatten(), start, end));
            let leaf_end = leaf_start(leaves, leaf_index(leaves, start) + 1);
            &&& chunks_of(leaves, start, end).len() > 0
            &&& n <= chunks_of(leaves, start, end)[0].len() <==> start + n <= leaf_end
        }),
{
    let k = leaf_index(leaves, start);
    lemma_leaf_index(leaves, start);
    lemma_leaf_ends(leaves);
    lemma_leaf_parts(leaves, k);
    lemma_first_line_len(range_of(leaves.flatten(), start, end));
}

/// Slices that meet join to one slice.
pub proof fn law_slices_join(text: Seq<u8>, a: int, b: int, c: int)
    requires
        0 <= a <= b <= c <= text.len(),
    ensures
        range_of(text, a, b) + range_of(text, b, c) == range_of(text, a, c),
{
    assert(range_of(text, a, b) + range_of(text, b, c) =~= range_of(text, a, c));
}

// Edits

/// An edit keeps the text before and behind the range, and puts the new text in
/// between.
pub proof fn law_edit_keeps_the_rest(text: Seq<u8>, start: int, end: int, new: Seq<u8>)
    requires
        0 <= start <= end <= text.len(),
    ensures
        ({
            let after = edited(text, start, end, new);
            &&& after.len() == text.len() - (end - start) + new.len()
            &&& after.take(start) == text.take(start)
            &&& after.subrange(start, start + new.len()) == new
            &&& after.skip(start + new.len() as int) == text.skip(end)
        }),
{
    let after = edited(text, start, end, new);
    assert(after.take(start) =~= text.take(start));
    assert(after.subrange(start, start + new.len()) =~= new);
    assert(after.skip(start + new.len() as int) =~= text.skip(end));
}

/// An edit between boundaries makes a valid text. The ends of the new text are
/// boundaries of it, and so are the boundaries of the text outside the range.
pub proof fn law_edit_boundaries(text: Seq<u8>, start: int, end: int, new: Seq<u8>)
    requires
        valid_utf8(text),
        valid_utf8(new),
        start <= end,
        is_boundary(text, start),
        is_boundary(text, end),
    ensures
        ({
            let after = edited(text, start, end, new);
            &&& valid_utf8(after)
            &&& is_boundary(after, start)
            &&& is_boundary(after, start + new.len())
            &&& forall|i: int|
                i <= start ==> #[trigger] is_boundary(after, i) == is_boundary(text, i)
            &&& forall|i: int|
                end <= i ==> #[trigger] is_boundary(text, i) == is_boundary(
                    after,
                    i - end + start + new.len(),
                )
        }),
{
    let after = edited(text, start, end, new);
    let before = text.take(start);
    let behind = text.skip(end);
    lemma_split_valid(text, start);
    lemma_split_valid(text, end);
    lemma_decode_concat(before, new);
    lemma_decode_concat(before + new, behind);
    assert forall|i: int| i <= start implies #[trigger] is_boundary(after, i) == is_boundary(
        text,
        i,
    ) by {
        lemma_boundary_concat(before + new, behind, i);
        lemma_boundary_concat(before, new, i);
        lemma_boundary_concat(before, text.skip(start), i);
        assert(before + text.skip(start) =~= text);
    }
    assert forall|i: int| end <= i implies #[trigger] is_boundary(text, i) == is_boundary(
        after,
        i - end + start + new.len(),
    ) by {
        lemma_boundary_concat(before + new, behind, i - end + start + new.len());
        lemma_boundary_concat(text.take(end), behind, i);
        assert(text.take(end) + behind =~= text);
    }
    assert(is_boundary(text, end));
}

/// Editing the new text back to what it replaced gives the text of before.
pub proof fn law_edit_undone(text: Seq<u8>, start: int, end: int, new: Seq<u8>)
    requires
        0 <= start <= end <= text.len(),
    ensures
        edited(
            edited(text, start, end, new),
            start,
            start + new.len() as int,
            text.subrange(start, end),
        ) == text,
{
    assert(edited(
        edited(text, start, end, new),
        start,
        start + new.len() as int,
        text.subrange(start, end),
    ) =~= text);
}

/// An edit of what was just put in is one edit.
pub proof fn law_edits_merge(
    text: Seq<u8>,
    start: int,
    end: int,
    first: Seq<u8>,
    second: Seq<u8>,
)
    requires
        0 <= start <= end <= text.len(),
    ensures
        edited(edited(text, start, end, first), start, start + first.len() as int, second)
            == edited(text, start, end, second),
{
    assert(edited(edited(text, start, end, first), start, start + first.len() as int, second)
        =~= edited(text, start, end, second));
}

/// An edit changes the number of newlines by those put in and those taken out.
pub proof fn law_edit_newlines(text: Seq<u8>, start: int, end: int, new: Seq<u8>)
    requires
        0 <= start <= end <= text.len(),
    ensures
        newlines(edited(text, start, end, new)) == newlines(text) + newlines(new) - newlines(
            text.subrange(start, end),
        ),
{
    let before = text.take(start);
    let out = text.subrange(start, end);
    let behind = text.skip(end);
    lemma_count_concat(before + new, behind, NEWLINE);
    lemma_count_concat(before, new, NEWLINE);
    lemma_count_concat(before + out, behind, NEWLINE);
    lemma_count_concat(before, out, NEWLINE);
    assert(before + out + behind =~= text);
}

// Concatenation

/// Concatenation is associative, and the empty text is neutral.
pub proof fn law_concat(a: Seq<u8>, b: Seq<u8>, c: Seq<u8>)
    ensures
        (a + b) + c == a + (b + c),
        a + Seq::<u8>::empty() == a,
        Seq::<u8>::empty() + a == a,
{
    assert((a + b) + c =~= a + (b + c));
    assert(a + Seq::<u8>::empty() =~= a);
    assert(Seq::<u8>::empty() + a =~= a);
}

/// Lengths and newlines add up over a concatenation.
pub proof fn law_concat_measures(a: Seq<u8>, b: Seq<u8>)
    ensures
        (a + b).len() == a.len() + b.len(),
        newlines(a + b) == newlines(a) + newlines(b),
{
    lemma_count_concat(a, b, NEWLINE);
}

// Codepoints

/// The boundary before the next boundary is the boundary itself.
pub proof fn law_prev_of_next(text: Seq<u8>, offset: int, next: int)
    requires
        0 <= offset,
        is_boundary(text, offset),
        is_next_boundary(text, offset, next),
    ensures
        is_prev_boundary(text, next, offset),
{
}

/// The boundary behind the previous boundary is the boundary itself.
pub proof fn law_next_of_prev(text: Seq<u8>, offset: int, prev: int)
    requires
        is_boundary(text, offset),
        is_prev_boundary(text, offset, prev),
    ensures
        is_next_boundary(text, prev, offset),
{
}

/// In a string the base metric steps from a boundary to the next one, and back.
pub proof fn law_base_metric_steps_back(
    s: String,
    offset: usize,
    next: Option<usize>,
    prev: Option<usize>,
)
    requires
        offset < s.utf8().len(),
        is_boundary(s.utf8(), offset as int),
        call_ensures(<BaseMetric as Metric>::next, (&s, offset), next),
        next matches Some(at) ==> call_ensures(<BaseMetric as Metric>::prev, (&s, at), prev),
    ensures
        next matches Some(at) && is_next_boundary(s.utf8(), offset as int, at as int),
        prev == Some(offset),
{
    let text = s.utf8();
    encode_utf8_valid_utf8(s@);
    lemma_width_reaches_next(text, offset as int);
    let at = offset + width_from_first_byte(text[offset as int]);
    assert(BaseMetric::follows(text, offset as int, at));
    law_prev_of_next(text, offset as int, at);
    assert(BaseMetric::precedes(text, at, offset as int));
    law_neighbours_unique(text, at, offset as int, prev->0 as int);
}

/// An offset has at most one previous and one next boundary.
pub proof fn law_neighbours_unique(text: Seq<u8>, offset: int, a: int, b: int)
    ensures
        is_prev_boundary(text, offset, a) && is_prev_boundary(text, offset, b) ==> a == b,
        is_next_boundary(text, offset, a) && is_next_boundary(text, offset, b) ==> a == b,
{
    if is_prev_boundary(text, offset, a) && is_prev_boundary(text, offset, b) {
        assert(is_boundary(text, a) && is_boundary(text, b));
    }
    if is_next_boundary(text, offset, a) && is_next_boundary(text, offset, b) {
        assert(is_boundary(text, a) && is_boundary(text, b));
    }
}

/// Going from boundary to boundary spells out the text codepoint by codepoint.
pub proof fn law_codepoints_spell(text: Seq<u8>, offset: int, next: int)
    requires
        valid_utf8(text),
        0 <= offset,
        is_boundary(text, offset),
        is_next_boundary(text, offset, next),
    ensures
        decode_utf8(text.take(next)) == decode_utf8(text.take(offset)).push(
            codepoint_at(text, offset),
        ),
{
    lemma_width_reaches_next(text, offset);
    let width = width_from_first_byte(text[offset]);
    law_neighbours_unique(text, offset, next, offset + width);
    lemma_split_valid(text, offset);
    lemma_split_valid(text, next);
    lemma_subrange_valid(text, offset, next);
    let one = text.subrange(offset, next);
    assert(text.take(next) =~= text.take(offset) + one);
    lemma_decode_concat(text.take(offset), one);
    assert(text.skip(offset) =~= one + text.skip(next));
    lemma_decode_concat(one, text.skip(next));
    assert(length_of_first_scalar(one) == one.len());
    assert(pop_first_scalar(one) =~= Seq::empty());
    assert(decode_utf8(pop_first_scalar(one)) =~= Seq::empty());
    assert(decode_utf8(one).len() == 1);
    assert(decode_utf8(text.take(next)) =~= decode_utf8(text.take(offset)).push(
        codepoint_at(text, offset),
    ));
}

// Graphemes

/// In a rope of one leaf the next grapheme is what the segmenter finds in the text.
pub proof fn law_next_grapheme_in_one_leaf(text: Seq<u8>, offset: int)
    requires
        0 <= offset <= text.len() <= usize::MAX,
    ensures
        next_grapheme_of(seq![text], 0, offset).at == offset_of(
            Some(
                next_boundary_of(
                    segmenter_new(offset as usize, text.len() as usize, true),
                    decode_utf8(text),
                    0,
                ).0,
            ),
        ),
{
    let leaves = seq![text];
    leaves.lemma_flatten_one_element();
    lemma_leaf_ends(leaves);
    assert(chunk_text(leaves, 0) == decode_utf8(text));
}

/// In a rope of one leaf the previous grapheme is what the segmenter finds in the text.
pub proof fn law_prev_grapheme_in_one_leaf(text: Seq<u8>, offset: int)
    requires
        0 <= offset <= text.len() <= usize::MAX,
    ensures
        prev_grapheme_of(seq![text], 0, offset).at == offset_of(
            Some(
                prev_boundary_of(
                    segmenter_new(offset as usize, text.len() as usize, true),
                    decode_utf8(text),
                    0,
                ).0,
            ),
        ),
{
    let leaves = seq![text];
    leaves.lemma_flatten_one_element();
    lemma_leaf_ends(leaves);
    assert(chunk_text(leaves, 0) == decode_utf8(text));
}

} // verus!
