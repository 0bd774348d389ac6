//! The model of a text that is cut into leaves.

use crate::leaf::{
    is_leaf_split, leaf_split, lemma_leaf_split, lemma_leaf_split_lengths, lemma_leaf_split_unique,
    merge_minsplit, MAX_LEAF, MIN_LEAF,
};
use crate::text::{is_boundary, lemma_boundary_concat, lemma_split_valid};
use vstd::prelude::*;
use vstd::seq_lib::*;
use vstd::utf8::*;

verus! {

/// What the leaves of a rope look like: at least one, all of them valid texts of
/// bounded length, and none of them short unless it stands alone.
pub open spec fn leaves_wf(leaves: Seq<Seq<u8>>) -> bool {
    &&& leaves.len() > 0
    &&& forall|k: int|
        0 <= k < leaves.len() ==> {
            &&& valid_utf8(#[trigger] leaves[k])
            &&& leaves[k].len() <= MAX_LEAF
            &&& leaves.len() > 1 ==> MIN_LEAF <= leaves[k].len()
        }
}

/// What the leaves of a builder look like: those of a rope, if there are any.
pub open spec fn builder_wf(leaves: Seq<Seq<u8>>) -> bool {
    leaves.len() > 0 ==> leaves_wf(leaves)
}

/// The offset at which leaf number `k` starts.
pub open spec fn leaf_start(leaves: Seq<Seq<u8>>, k: int) -> int {
    leaves.take(k).flatten().len() as int
}

/// The number of the leaf that holds the byte at `position`; the last one for a
/// position at the end or behind it.
pub open spec fn leaf_index(leaves: Seq<Seq<u8>>, position: int) -> int
    decreases leaves.len(),
{
    if leaves.len() <= 1 {
        0
    } else if leaf_start(leaves, leaves.len() - 1) <= position {
        leaves.len() - 1
    } else {
        leaf_index(leaves.drop_last(), position)
    }
}

/// The text before, in and behind a leaf.
pub proof fn lemma_leaf_parts(leaves: Seq<Seq<u8>>, k: int)
    requires
        0 <= k < leaves.len(),
    ensures
        leaves.flatten() == leaves.take(k).flatten() + leaves[k] + leaves.skip(k + 1).flatten(),
        leaves.take(k + 1).flatten() == leaves.take(k).flatten() + leaves[k],
        leaf_start(leaves, k + 1) == leaf_start(leaves, k) + leaves[k].len(),
        0 <= leaf_start(leaves, k),
        leaf_start(leaves, k + 1) <= leaves.flatten().len(),
        leaves.flatten().subrange(leaf_start(leaves, k), leaf_start(leaves, k + 1)) == leaves[k],
{
    assert(leaves.take(k + 1) =~= leaves.take(k).push(leaves[k]));
    leaves.take(k).lemma_flatten_push(leaves[k]);
    assert(leaves =~= leaves.take(k + 1) + leaves.skip(k + 1));
    lemma_flatten_concat(leaves.take(k + 1), leaves.skip(k + 1));
    assert(leaves.flatten().subrange(leaf_start(leaves, k), leaf_start(leaves, k + 1))
        =~= leaves[k]);
}

/// The first leaf starts at zero, and the last one ends where the text ends.
pub proof fn lemma_leaf_ends(leaves: Seq<Seq<u8>>)
    ensures
        leaf_start(leaves, 0) == 0,
        leaf_start(leaves, leaves.len() as int) == leaves.flatten().len(),
{
    assert(leaves.take(0) =~= Seq::empty());
    assert(leaves.take(leaves.len() as int) =~= leaves);
}

/// Leaves start one behind the other.
pub proof fn lemma_leaf_start_monotone(leaves: Seq<Seq<u8>>, i: int, j: int)
    requires
        0 <= i <= j <= leaves.len(),
    ensures
        leaf_start(leaves, i) <= leaf_start(leaves, j),
    decreases j - i,
{
    if i < j {
        lemma_leaf_start_monotone(leaves, i, j - 1);
        lemma_leaf_parts(leaves, j - 1);
    }
}

/// The leaf at a position starts at or before the position, and the next one, if
/// there is one, behind it.
pub proof fn lemma_leaf_index(leaves: Seq<Seq<u8>>, position: int)
    requires
        leaves.len() > 0,
        0 <= position,
    ensures
        0 <= leaf_index(leaves, position) < leaves.len(),
        leaf_start(leaves, leaf_index(leaves, position)) <= position,
        leaf_index(leaves, position) + 1 < leaves.len() ==> position < leaf_start(
            leaves,
            leaf_index(leaves, position) + 1,
        ),
    decreases leaves.len(),
{
    if leaves.len() <= 1 {
        lemma_leaf_ends(leaves);
    } else if leaf_start(leaves, leaves.len() - 1) <= position {
    } else {
        let front = leaves.drop_last();
        lemma_leaf_index(front, position);
        let k = leaf_index(front, position);
        assert(front.take(k) =~= leaves.take(k));
        assert(front.take(k + 1) =~= leaves.take(k + 1));
    }
}

/// Only one leaf is the leaf at a position.
pub proof fn lemma_leaf_index_is(leaves: Seq<Seq<u8>>, position: int, k: int)
    requires
        0 <= k < leaves.len(),
        leaf_start(leaves, k) <= position,
        k + 1 < leaves.len() ==> position < leaf_start(leaves, k + 1),
    ensures
        leaf_index(leaves, position) == k,
{
    lemma_leaf_parts(leaves, k);
    lemma_leaf_index(leaves, position);
    let i = leaf_index(leaves, position);
    if i < k {
        lemma_leaf_start_monotone(leaves, i + 1, k);
    } else if k < i {
        lemma_leaf_start_monotone(leaves, k + 1, i);
    }
}

/// Leaves that are valid texts join to a valid text.
pub proof fn lemma_flatten_valid(leaves: Seq<Seq<u8>>)
    requires
        forall|k: int| 0 <= k < leaves.len() ==> valid_utf8(#[trigger] leaves[k]),
    ensures
        valid_utf8(leaves.flatten()),
    decreases leaves.len(),
{
    if leaves.len() > 0 {
        let rest = leaves.drop_first();
        assert forall|k: int| 0 <= k < rest.len() implies valid_utf8(#[trigger] rest[k]) by {
            assert(rest[k] == leaves[k + 1]);
        }
        lemma_flatten_valid(rest);
        assert(valid_utf8(leaves[0]));
        valid_utf8_concat(leaves[0], rest.flatten());
    }
}

/// The boundaries of a text inside one of its leaves are those of the leaf.
pub proof fn lemma_leaf_boundary(leaves: Seq<Seq<u8>>, k: int, offset: int)
    requires
        forall|j: int| 0 <= j < leaves.len() ==> valid_utf8(#[trigger] leaves[j]),
        0 <= k < leaves.len(),
        0 <= offset <= leaves[k].len(),
    ensures
        is_boundary(leaves.flatten(), leaf_start(leaves, k) + offset) == is_boundary(
            leaves[k],
            offset,
        ),
{
    let before = leaves.take(k);
    let behind = leaves.skip(k + 1);
    lemma_leaf_parts(leaves, k);
    assert forall|j: int| 0 <= j < before.len() implies valid_utf8(#[trigger] before[j]) by {
        assert(before[j] == leaves[j]);
    }
    assert forall|j: int| 0 <= j < behind.len() implies valid_utf8(#[trigger] behind[j]) by {
        assert(behind[j] == leaves[k + 1 + j]);
    }
    lemma_flatten_valid(before);
    lemma_flatten_valid(behind);
    assert(valid_utf8(leaves[k]));
    valid_utf8_concat(before.flatten(), leaves[k]);
    lemma_boundary_concat(
        before.flatten() + leaves[k],
        behind.flatten(),
        leaf_start(leaves, k) + offset,
    );
    lemma_boundary_concat(before.flatten(), leaves[k], leaf_start(leaves, k) + offset);
}

// Joining

/// The leaves that two leaves are merged into: one, or two where one would be too long.
pub open spec fn merged_leaves(a: Seq<u8>, b: Seq<u8>) -> Seq<Seq<u8>> {
    let all = a + b;
    if all.len() <= MAX_LEAF {
        seq![all]
    } else {
        let at = leaf_split(all, merge_minsplit(all.len() as int));
        seq![all.take(at), all.skip(at)]
    }
}

/// The leaves of two ropes that are joined. They stay as they are, unless one of the two
/// that meet is short: then these two are merged.
pub open spec fn joined_leaves(a: Seq<Seq<u8>>, b: Seq<Seq<u8>>) -> Seq<Seq<u8>> {
    if a.last().len() >= MIN_LEAF && b[0].len() >= MIN_LEAF {
        a + b
    } else {
        a.drop_last() + merged_leaves(a.last(), b[0]) + b.drop_first()
    }
}

/// Only the leaf that meets the other rope counts.
pub proof fn lemma_joined_inner(a: Seq<Seq<u8>>, b: Seq<Seq<u8>>, c: Seq<Seq<u8>>)
    requires
        a.len() > 0,
        b.len() > 0,
    ensures
        joined_leaves(a, b + c) == joined_leaves(a, b) + c,
        joined_leaves(c + b, a) == c + joined_leaves(b, a),
{
    assert((b + c).drop_first() =~= b.drop_first() + c);
    assert((c + b).drop_last() =~= c + b.drop_last());
    assert(joined_leaves(a, b + c) =~= joined_leaves(a, b) + c);
    assert(joined_leaves(c + b, a) =~= c + joined_leaves(b, a));
}

// Pushing

/// The leaves of a builder after leaves were pushed, all at once.
pub open spec fn pushed_leaves(leaves: Seq<Seq<u8>>, more: Seq<Seq<u8>>) -> Seq<Seq<u8>> {
    if leaves.len() == 0 {
        more
    } else {
        joined_leaves(leaves, more)
    }
}

/// The leaves of a builder after pieces of text were pushed, one by one.
pub open spec fn pushed_pieces(leaves: Seq<Seq<u8>>, pieces: Seq<Seq<u8>>) -> Seq<Seq<u8>>
    decreases pieces.len(),
{
    if pieces.len() == 0 {
        leaves
    } else {
        pushed_leaves(pushed_pieces(leaves, pieces.drop_last()), seq![pieces.last()])
    }
}

/// The leaves of the rope that a builder makes: those of the builder, or an empty one.
pub open spec fn built_leaves(leaves: Seq<Seq<u8>>) -> Seq<Seq<u8>> {
    if leaves.len() == 0 {
        seq![Seq::empty()]
    } else {
        leaves
    }
}

/// Pushing pieces and then more pieces is pushing them all.
pub proof fn lemma_pushed_concat(leaves: Seq<Seq<u8>>, a: Seq<Seq<u8>>, b: Seq<Seq<u8>>)
    ensures
        pushed_pieces(leaves, a + b) == pushed_pieces(pushed_pieces(leaves, a), b),
    decreases b.len(),
{
    if b.len() == 0 {
        assert(a + b =~= a);
    } else {
        assert((a + b).drop_last() =~= a + b.drop_last());
        lemma_pushed_concat(leaves, a, b.drop_last());
    }
}

/// Pushing one piece.
pub proof fn lemma_pushed_one(leaves: Seq<Seq<u8>>, piece: Seq<u8>)
    ensures
        pushed_pieces(leaves, seq![piece]) == pushed_leaves(leaves, seq![piece]),
{
    assert(seq![piece].drop_last() =~= Seq::empty());
    assert(pushed_pieces(leaves, seq![piece].drop_last()) == leaves);
}

/// Pushing the leaves of a rope all at once is pushing them one by one.
pub proof fn lemma_pushed_rope(leaves: Seq<Seq<u8>>, more: Seq<Seq<u8>>)
    requires
        leaves.len() > 0 ==> valid_utf8(leaves.last()),
        leaves_wf(more),
    ensures
        pushed_leaves(leaves, more) == pushed_pieces(leaves, more),
    decreases more.len(),
{
    if more.len() == 1 {
        assert(more =~= seq![more[0]]);
        lemma_pushed_one(leaves, more[0]);
    } else {
        let front = more.drop_last();
        let last = more.last();
        assert(forall|k: int| 0 <= k < front.len() ==> #[trigger] front[k] == more[k]);
        assert(leaves_wf(front));
        lemma_pushed_rope(leaves, front);
        let before = pushed_leaves(leaves, front);
        assert(front.last() == more[more.len() - 2]);
        assert(more =~= front + seq![last]);
        if leaves.len() > 0 {
            lemma_joined_inner(leaves, front, seq![last]);
            lemma_joined_last(leaves, front);
        }
        assert(before.last().len() >= MIN_LEAF);
        assert(pushed_leaves(before, seq![last]) == before + seq![last]);
    }
}

proof fn lemma_joined_last(a: Seq<Seq<u8>>, b: Seq<Seq<u8>>)
    requires
        a.len() > 0,
        b.len() > 0,
        valid_utf8(a.last()),
        valid_utf8(b[0]),
        b[0].len() >= MIN_LEAF,
        b.last().len() >= MIN_LEAF,
    ensures
        joined_leaves(a, b).len() > 0,
        joined_leaves(a, b).last().len() >= MIN_LEAF,
{
    if a.last().len() < MIN_LEAF {
        let all = a.last() + b[0];
        if all.len() > MAX_LEAF {
            valid_utf8_concat(a.last(), b[0]);
            let minsplit = merge_minsplit(all.len() as int);
            lemma_leaf_split(all, minsplit);
            lemma_leaf_split_lengths(all, minsplit, leaf_split(all, minsplit));
        }
        if b.len() > 1 {
            assert(joined_leaves(a, b).last() == b.last());
        } else {
            assert(b.drop_first() =~= Seq::empty());
            assert(joined_leaves(a, b).last() == merged_leaves(a.last(), b[0]).last());
        }
    }
}

/// The leaves that a long text is cut into, each as long as the split allows.
pub open spec fn bulk_leaves(text: Seq<u8>) -> Seq<Seq<u8>>
    decreases text.len(),
    when valid_utf8(text)
{
    if text.len() <= MAX_LEAF {
        seq![text]
    } else {
        proof {
            lemma_leaf_split(text, MIN_LEAF as int);
            lemma_leaf_split_lengths(text, MIN_LEAF as int, leaf_split(text, MIN_LEAF as int));
        }
        let at = leaf_split(text, MIN_LEAF as int);
        seq![text.take(at)] + bulk_leaves(text.skip(at))
    }
}

/// The pieces in which a text is pushed: none for the empty text.
pub open spec fn bulk_pieces(text: Seq<u8>) -> Seq<Seq<u8>> {
    if text.len() == 0 {
        Seq::empty()
    } else {
        bulk_leaves(text)
    }
}

/// The first piece of a long text reaches to the split.
pub proof fn lemma_bulk_step(text: Seq<u8>, at: int)
    requires
        valid_utf8(text),
        text.len() > MAX_LEAF,
        is_leaf_split(text, MIN_LEAF as int, at),
    ensures
        0 < at < text.len(),
        is_boundary(text, at),
        at <= MAX_LEAF,
        bulk_pieces(text) == seq![text.take(at)] + bulk_pieces(text.skip(at)),
{
    lemma_leaf_split(text, MIN_LEAF as int);
    lemma_leaf_split_unique(text, MIN_LEAF as int, at, leaf_split(text, MIN_LEAF as int));
    lemma_leaf_split_lengths(text, MIN_LEAF as int, at);
    lemma_split_valid(text, at);
}

/// A text in bulk is cut into leaves that a rope may have, and that join to it.
pub proof fn lemma_bulk_leaves(text: Seq<u8>)
    requires
        valid_utf8(text),
    ensures
        leaves_wf(bulk_leaves(text)),
        bulk_leaves(text).flatten() == text,
        text.len() > MAX_LEAF ==> bulk_leaves(text).len() > 1,
    decreases text.len(),
{
    let leaves = bulk_leaves(text);
    if text.len() <= MAX_LEAF {
        leaves.lemma_flatten_one_element();
    } else {
        let at = leaf_split(text, MIN_LEAF as int);
        lemma_leaf_split(text, MIN_LEAF as int);
        lemma_leaf_split_lengths(text, MIN_LEAF as int, at);
        lemma_split_valid(text, at);
        let rest = text.skip(at);
        lemma_bulk_leaves(rest);
        let first = seq![text.take(at)];
        first.lemma_flatten_one_element();
        lemma_flatten_concat(first, bulk_leaves(rest));
        assert(text =~= text.take(at) + rest);
        assert forall|k: int| 0 <= k < leaves.len() implies {
            &&& valid_utf8(#[trigger] leaves[k])
            &&& MIN_LEAF <= leaves[k].len() <= MAX_LEAF
        } by {
            if k > 0 {
                assert(leaves[k] == bulk_leaves(rest)[k - 1]);
                if rest.len() <= MAX_LEAF {
                    assert(bulk_leaves(rest) == seq![rest]);
                }
            }
        }
    }
}

/// A text pushed in bulk into an empty builder gives its bulk leaves.
pub proof fn lemma_bulk_pushed(text: Seq<u8>)
    requires
        valid_utf8(text),
    ensures
        built_leaves(pushed_pieces(Seq::empty(), bulk_pieces(text))) == bulk_leaves(text),
{
    let none = Seq::<Seq<u8>>::empty();
    if text.len() == 0 {
        assert(text =~= Seq::empty());
    } else {
        lemma_bulk_leaves(text);
        lemma_pushed_rope(none, bulk_leaves(text));
    }
}

// Cutting

/// The part of `leaf`, which starts at `at`, that lies between `start` and `end`.
pub open spec fn leaf_part(leaf: Seq<u8>, at: int, start: int, end: int) -> Seq<u8> {
    let from = if start <= at {
        0
    } else {
        start - at
    };
    let to = if end - at >= leaf.len() {
        leaf.len() as int
    } else {
        end - at
    };
    if from < to {
        leaf.subrange(from, to)
    } else {
        Seq::empty()
    }
}

/// The parts of the leaves that lie between `start` and `end`, without the empty ones.
pub open spec fn cut_leaves(leaves: Seq<Seq<u8>>, start: int, end: int) -> Seq<Seq<u8>>
    decreases leaves.len(),
{
    if leaves.len() == 0 {
        Seq::empty()
    } else {
        let front = leaves.drop_last();
        let part = leaf_part(leaves.last(), front.flatten().len() as int, start, end);
        cut_leaves(front, start, end) + if part.len() > 0 {
            seq![part]
        } else {
            Seq::empty()
        }
    }
}

/// The parts of a row of leaves are those of its front and those of its back.
pub proof fn lemma_cut_concat(a: Seq<Seq<u8>>, b: Seq<Seq<u8>>, start: int, end: int)
    ensures
        cut_leaves(a + b, start, end) == cut_leaves(a, start, end) + cut_leaves(
            b,
            start - a.flatten().len(),
            end - a.flatten().len(),
        ),
    decreases b.len(),
{
    let n = a.flatten().len();
    if b.len() == 0 {
        assert(a + b =~= a);
        assert(cut_leaves(b, start - n, end - n) =~= Seq::empty());
        assert(cut_leaves(a, start, end) + cut_leaves(b, start - n, end - n) =~= cut_leaves(
            a,
            start,
            end,
        ));
    } else {
        let front = b.drop_last();
        assert((a + b).drop_last() =~= a + front);
        lemma_cut_concat(a, front, start, end);
        lemma_flatten_concat(a, front);
        assert(leaf_part(b.last(), (a + front).flatten().len() as int, start, end) == leaf_part(
            b.last(),
            front.flatten().len() as int,
            start - n,
            end - n,
        ));
        assert(cut_leaves(a + b, start, end) =~= cut_leaves(a, start, end) + cut_leaves(
            b,
            start - n,
            end - n,
        ));
    }
}

/// All of the leaves, where none of them is empty.
pub proof fn lemma_cut_all(leaves: Seq<Seq<u8>>, start: int, end: int)
    requires
        forall|k: int| 0 <= k < leaves.len() ==> (#[trigger] leaves[k]).len() > 0,
        start <= 0,
        leaves.flatten().len() <= end,
    ensures
        cut_leaves(leaves, start, end) == leaves,
    decreases leaves.len(),
{
    if leaves.len() > 0 {
        let front = leaves.drop_last();
        let last = leaves.last();
        assert(leaves =~= front.push(last));
        front.lemma_flatten_push(last);
        assert(forall|k: int| 0 <= k < front.len() ==> #[trigger] front[k] == leaves[k]);
        lemma_cut_all(front, start, end);
        assert(last.subrange(0, last.len() as int) =~= last);
        assert(cut_leaves(leaves, start, end) =~= leaves);
    } else {
        assert(leaves =~= Seq::empty());
    }
}

/// None of the leaves, where they lie outside.
pub proof fn lemma_cut_none(leaves: Seq<Seq<u8>>, start: int, end: int)
    requires
        end <= 0 || start >= leaves.flatten().len() || end <= start,
    ensures
        cut_leaves(leaves, start, end) == Seq::<Seq<u8>>::empty(),
    decreases leaves.len(),
{
    if leaves.len() > 0 {
        let front = leaves.drop_last();
        let last = leaves.last();
        assert(leaves =~= front.push(last));
        front.lemma_flatten_push(last);
        lemma_cut_none(front, start, end);
        assert(leaf_part(last, front.flatten().len() as int, start, end).len() == 0);
    }
}

/// The parts of one leaf.
pub proof fn lemma_cut_one(leaf: Seq<u8>, start: int, end: int)
    requires
        0 <= start < end <= leaf.len(),
    ensures
        cut_leaves(seq![leaf], start, end) == seq![leaf.subrange(start, end)],
{
    let leaves = seq![leaf];
    assert(leaves.drop_last() =~= Seq::empty());
    assert(cut_leaves(leaves.drop_last(), start, end) =~= Seq::empty());
    assert(cut_leaves(leaves, start, end) =~= seq![leaf.subrange(start, end)]);
}

/// Ends outside the leaves cut as the ends of the leaves do.
pub proof fn lemma_cut_clamp(leaves: Seq<Seq<u8>>, total: int, start: int, end: int)
    requires
        leaves.flatten().len() <= total,
    ensures
        cut_leaves(leaves, start, end) == cut_leaves(
            leaves,
            clamp(start, 0, total),
            clamp(end, 0, total),
        ),
    decreases leaves.len(),
{
    if leaves.len() > 0 {
        let front = leaves.drop_last();
        let last = leaves.last();
        assert(leaves =~= front.push(last));
        front.lemma_flatten_push(last);
        lemma_cut_clamp(front, total, start, end);
        let at = front.flatten().len() as int;
        assert(leaf_part(last, at, start, end) =~= leaf_part(
            last,
            at,
            clamp(start, 0, total),
            clamp(end, 0, total),
        ));
    }
}

/// `x`, held between `low` and `high`.
pub open spec fn clamp(x: int, low: int, high: int) -> int {
    if x < low {
        low
    } else if x > high {
        high
    } else {
        x
    }
}

/// The leaves of a rope after an edit: the parts before the range, the new text, and the
/// parts behind the range are pushed one by one.
pub open spec fn edited_leaves(
    leaves: Seq<Seq<u8>>,
    start: int,
    end: int,
    new: Seq<u8>,
) -> Seq<Seq<u8>> {
    let before = cut_leaves(leaves, 0, start);
    let behind = cut_leaves(leaves, end, leaves.flatten().len() as int);
    built_leaves(pushed_pieces(Seq::empty(), before + bulk_pieces(new) + behind))
}

} // verus!
