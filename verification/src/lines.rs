//! Walking over the chunks and the lines of a part of a rope.

use crate::cursor::Cursor;
use crate::leaf::{lemma_boundary_behind_ascii, str_slice, Leaf, MAX_LEAF};
use crate::leaves::{
    leaf_index, leaf_start, leaves_wf, lemma_leaf_boundary, lemma_leaf_ends, lemma_leaf_index,
    lemma_leaf_parts, lemma_leaf_start_monotone,
};
use crate::text::{
    first_line_len, is_boundary, lemma_encode_concat, lemma_encode_empty, lemma_first_line_at,
    lemma_first_line_prefix, lemma_start_is_boundary, strip_ending, CARRIAGE_RETURN, NEWLINE,
};
use crate::tree::{lemma_leaves_wf, Node};
use std::borrow::Cow;
use vstd::prelude::*;
use vstd::seq_lib::*;
use vstd::string::*;
use vstd::utf8::*;

verus! {

/// The parts of the leaves from number `k` on that lie between `start` and `end`.
pub open spec fn chunks_from(
    leaves: Seq<Seq<u8>>,
    k: int,
    start: int,
    end: int,
) -> Seq<Seq<u8>>
    decreases leaves.len() - k,
{
    if start >= end || k >= leaves.len() {
        Seq::empty()
    } else {
        let next = leaf_start(leaves, k + 1);
        let stop = if end < next {
            end
        } else {
            next
        };
        seq![leaves.flatten().subrange(start, stop)] + chunks_from(leaves, k + 1, stop, end)
    }
}

/// The chunks of a rope between `start` and `end`: the parts of its leaves that lie
/// there. The empty rope has one chunk, the empty one.
pub open spec fn chunks_of(leaves: Seq<Seq<u8>>, start: int, end: int) -> Seq<Seq<u8>> {
    if leaves.flatten().len() == 0 {
        seq![Seq::empty()]
    } else {
        chunks_from(leaves, leaf_index(leaves, start), start, end)
    }
}

/// The range from `start` to `end` is empty, or lies in the text between boundaries.
pub open spec fn is_range(text: Seq<u8>, start: int, end: int) -> bool {
    start < end ==> is_boundary(text, start) && is_boundary(text, end)
}

/// The bytes of `text` from `start` to `end`; none where the range is empty.
pub open spec fn range_of(text: Seq<u8>, start: int, end: int) -> Seq<u8> {
    if start < end {
        text.subrange(start, end)
    } else {
        Seq::empty()
    }
}

/// An iterator over chunks of a rope.
#[derive(Clone, Copy)]
pub struct ChunkIter<'a> {
    cursor: Cursor<'a>,
    end: usize,
    empty: bool,
}

impl<'a> ChunkIter<'a> {
    /// The chunks that are still to come.
    pub closed spec fn rest(self) -> Seq<Seq<u8>> {
        if self.empty {
            seq![Seq::empty()]
        } else {
            chunks_from(
                self.cursor.leaves(),
                self.cursor.index(),
                self.cursor.position(),
                self.end as int,
            )
        }
    }

    #[verifier::type_invariant]
    spec fn wf(self) -> bool {
        &&& leaves_wf(self.cursor.leaves())
        &&& self.cursor.bytes().len() <= usize::MAX
        &&& 0 <= self.cursor.position()
        &&& is_range(self.cursor.bytes(), self.cursor.position(), self.end as int)
        &&& self.empty || self.cursor.position() < self.end ==> self.cursor.at_leaf()
        &&& self.empty ==> self.cursor.bytes().len() == 0 && self.cursor.position() >= self.end
    }

    /// An iterator over the chunks of `rope` between `start` and `end`.
    pub fn new(rope: &'a Node, start: usize, end: usize) -> (it: ChunkIter<'a>)
        requires
            is_range(rope.bytes(), start as int, end as int),
        ensures
            it.rest() == chunks_of(rope.leaves(), start as int, end as int),
    {
        let cursor = Cursor::new(rope, start);
        proof {
            use_type_invariant(&cursor);
            cursor.lemma_wf();
        }
        ChunkIter { cursor, end, empty: rope.len() == 0 }
    }

    /// The next chunk.
    pub fn next(&mut self) -> (chunk: Option<&'a str>)
        ensures
            match chunk {
                Some(chunk) => {
                    &&& old(self).rest().len() > 0
                    &&& chunk.spec_bytes() == old(self).rest()[0]
                    &&& final(self).rest() == old(self).rest().drop_first()
                },
                None => old(self).rest().len() == 0 && final(self).rest().len() == 0,
            },
    {
        proof {
            use_type_invariant(&*self);
        }
        let ghost leaves = self.cursor.leaves();
        let ghost k = self.cursor.index();
        let ghost text = leaves.flatten();
        let pos: usize = self.cursor.pos();
        let end: usize = self.end;
        if pos >= end && !self.empty {
            return None;
        }
        match self.cursor.get_leaf() {
            None => {
                assert(false);
                None
            },
            Some((leaf, start_pos)) => {
                proof {
                    lemma_leaf_index(leaves, pos as int);
                    lemma_leaf_parts(leaves, k);
                    lemma_leaf_ends(leaves);
                }
                if self.empty {
                    *self = ChunkIter { cursor: self.cursor, end, empty: false };
                    proof {
                        lemma_leaf_start_monotone(leaves, k + 1, leaves.len() as int);
                        assert(leaf.utf8() =~= Seq::empty());
                        assert(chunks_from(leaves, k, pos as int, end as int) =~= Seq::empty());
                        assert(seq![Seq::<u8>::empty()].drop_first() =~= Seq::empty());
                    }
                    return Some(leaf.as_str());
                }
                let room: usize = Leaf::len(leaf) - start_pos;
                let len: usize = if end - pos < room {
                    end - pos
                } else {
                    room
                };
                let ghost stop = pos + len;
                proof {
                    lemma_leaf_boundary(leaves, k, start_pos as int);
                    lemma_leaf_boundary(leaves, k, start_pos + len);
                    if len == room {
                        assert(is_boundary(leaves[k], start_pos + len));
                    }
                    assert(leaf.utf8().subrange(start_pos as int, start_pos + len)
                        =~= text.subrange(pos as int, stop));
                }
                let mut cursor = self.cursor;
                let _next = cursor.next_leaf();
                proof {
                    let rest = chunks_from(leaves, k + 1, stop, end as int);
                    let old_rest = chunks_from(leaves, k, pos as int, end as int);
                    assert(old_rest.drop_first() =~= rest);
                    if stop < end {
                        assert(stop == leaf_start(leaves, k + 1));
                        lemma_leaf_boundary(leaves, k, leaves[k].len() as int);
                        assert(is_boundary(leaves[k], leaves[k].len() as int));
                    } else {
                        assert(rest =~= Seq::empty());
                    }
                }
                *self = ChunkIter { cursor, end, empty: false };
                Some(str_slice(leaf.as_str(), start_pos, start_pos + len))
            },
        }
    }
}

/// The chunks join to the text between the ends. None is empty, and none is longer
/// than a leaf.
pub proof fn lemma_chunks_from(leaves: Seq<Seq<u8>>, k: int, start: int, end: int)
    requires
        leaves_wf(leaves),
        0 <= k <= leaves.len(),
        leaf_start(leaves, k) <= start,
        end <= leaves.flatten().len(),
        k < leaves.len() && start < end ==> start < leaf_start(leaves, k + 1),
    ensures
        chunks_from(leaves, k, start, end).flatten() == range_of(leaves.flatten(), start, end),
        forall|i: int|
            0 <= i < chunks_from(leaves, k, start, end).len() ==> 0 < (#[trigger] chunks_from(
                leaves,
                k,
                start,
                end,
            )[i]).len() <= MAX_LEAF,
    decreases leaves.len() - k,
{
    let text = leaves.flatten();
    let all = chunks_from(leaves, k, start, end);
    lemma_leaf_ends(leaves);
    lemma_leaf_start_monotone(leaves, 0, k);
    if k < leaves.len() && start < end {
        lemma_leaf_parts(leaves, k);
        let next = leaf_start(leaves, k + 1);
        let stop = if end < next {
            end
        } else {
            next
        };
        if k + 1 < leaves.len() {
            lemma_leaf_parts(leaves, k + 1);
            assert(leaves[k + 1].len() > 0);
        }
        assert(leaves[k].len() <= MAX_LEAF);
        if end < next {
            let rest = chunks_from(leaves, k + 1, stop, end);
            assert(rest =~= Seq::empty());
            assert(all =~= seq![text.subrange(start, stop)]);
            all.lemma_flatten_one_element();
        } else {
            lemma_chunks_from(leaves, k + 1, stop, end);
            let rest = chunks_from(leaves, k + 1, stop, end);
            let first = seq![text.subrange(start, stop)];
            first.lemma_flatten_one_element();
            lemma_flatten_concat(first, rest);
            assert(all.flatten() =~= range_of(text, start, end));
            assert forall|i: int| 0 <= i < all.len() implies 0 < (#[trigger] all[i]).len()
                <= MAX_LEAF by {
                if i > 0 {
                    assert(all[i] == rest[i - 1]);
                }
            }
        }
    } else {
        assert(all =~= Seq::empty());
        assert(range_of(text, start, end) =~= Seq::empty());
    }
}

/// The chunks of a rope join to the text between the ends. Only the empty rope has an
/// empty chunk, and none is longer than a leaf.
pub proof fn lemma_chunks_of(leaves: Seq<Seq<u8>>, start: int, end: int)
    requires
        leaves_wf(leaves),
        0 <= start,
        is_range(leaves.flatten(), start, end),
    ensures
        chunks_of(leaves, start, end).flatten() == range_of(leaves.flatten(), start, end),
        leaves.flatten().len() > 0 ==> forall|i: int|
            0 <= i < chunks_of(leaves, start, end).len() ==> 0 < (#[trigger] chunks_of(
                leaves,
                start,
                end,
            )[i]).len() <= MAX_LEAF,
{
    if leaves.flatten().len() == 0 {
        seq![Seq::<u8>::empty()].lemma_flatten_one_element();
        assert(range_of(leaves.flatten(), start, end) =~= Seq::empty());
    } else if start < end {
        lemma_leaf_index(leaves, start);
        lemma_leaf_ends(leaves);
        lemma_chunks_from(leaves, leaf_index(leaves, start), start, end);
    } else {
        assert(chunks_of(leaves, start, end) =~= Seq::empty());
    }
}

// Lines

/// Appends to a text that is only copied where it has to be: the empty text becomes
/// `b` itself.
pub fn cow_append<'a>(a: Cow<'a, str>, b: &'a str) -> (joined: Cow<'a, str>)
    ensures
        joined@ == a@ + b@,
        joined is Borrowed <==> a@.len() == 0,
{
    match a {
        Cow::Borrowed(s) => {
            if s.is_empty() {
                assert(s@ + b@ =~= b@);
                Cow::Borrowed(b)
            } else {
                let mut owned = s.to_owned();
                owned.append(b);
                Cow::Owned(owned)
            }
        },
        Cow::Owned(s) => {
            if s.as_str().is_empty() {
                assert(s@ + b@ =~= b@);
                Cow::Borrowed(b)
            } else {
                let mut owned = s;
                owned.append(b);
                Cow::Owned(owned)
            }
        },
    }
}

/// An iterator over the lines of a rope with their endings.
pub struct LinesRaw<'a> {
    inner: ChunkIter<'a>,
    fragment: &'a str,
}

impl<'a> LinesRaw<'a> {
    /// The pieces in which the text that is still to come lies in the rope.
    pub closed spec fn pieces(self) -> Seq<Seq<u8>> {
        pieces_of(self.fragment.spec_bytes(), self.inner.rest())
    }

    /// The text that is still to come.
    pub open spec fn rest(self) -> Seq<u8> {
        self.pieces().flatten()
    }

    /// The chunks to come are not empty, but for the one chunk of an empty rope.
    #[verifier::type_invariant]
    pub closed spec fn wf(self) -> bool {
        ||| chunks_nonempty(self.inner.rest())
        ||| self.fragment.spec_bytes().len() == 0 && self.inner.rest() == seq![Seq::<u8>::empty()]
    }

    /// An iterator over the lines of `rope` between `start` and `end`.
    pub fn new(rope: &'a Node, start: usize, end: usize) -> (it: LinesRaw<'a>)
        requires
            is_range(rope.bytes(), start as int, end as int),
        ensures
            it.pieces() == chunks_of(rope.leaves(), start as int, end as int),
            it.rest() == range_of(rope.bytes(), start as int, end as int),
    {
        let inner = ChunkIter::new(rope, start, end);
        let fragment = "";
        proof {
            use_type_invariant(rope);
            lemma_leaves_wf(*rope);
            lemma_chunks_of(rope.leaves(), start as int, end as int);
            reveal_strlit("");
            assert(fragment.spec_bytes() =~= Seq::empty());
        }
        LinesRaw { inner, fragment }
    }

    /// The next line. It is borrowed from the rope if it lies in one piece.
    #[verifier::loop_isolation(false)]
    #[verifier::rlimit(60)]
    pub fn next(&mut self) -> (line: Option<Cow<'a, str>>)
        ensures
            match line {
                Some(line) => {
                    let rest = old(self).rest();
                    let n = first_line_len(rest) as int;
                    &&& rest.len() > 0
                    &&& encode_utf8(line@) == rest.take(n)
                    &&& final(self).rest() == rest.skip(n)
                    &&& final(self).pieces() == drop_bytes(old(self).pieces(), n)
                    &&& line is Borrowed <==> n <= old(self).pieces()[0].len()
                },
                None => old(self).rest().len() == 0 && final(self).rest().len() == 0,
            },
    {
        let ghost all = self.rest();
        let ghost pieces = self.pieces();
        proof {
            use_type_invariant(&*self);
            reveal_strlit("");
            lemma_pieces(self.fragment.spec_bytes(), self.inner.rest());
            lemma_drop_none(pieces);
        }
        let mut inner = self.inner;
        let mut fragment = self.fragment;
        let mut result: Cow<'a, str> = Cow::Borrowed("");
        assert(encode_utf8(result@) =~= Seq::empty());
        assert(encode_utf8(result@) + fragment.spec_bytes() + inner.rest().flatten() =~= all);
        loop
            invariant
                all == encode_utf8(result@) + fragment.spec_bytes() + inner.rest().flatten(),
                forall|i: int|
                    0 <= i < encode_utf8(result@).len() ==> encode_utf8(result@)[i] != NEWLINE,
                chunks_nonempty(inner.rest()) || result@.len() == 0 && fragment.spec_bytes().len()
                    == 0 && inner.rest() == seq![Seq::<u8>::empty()],
                chunks_nonempty(inner.rest()) ==> chunks_nonempty(pieces) && drop_bytes(
                    pieces,
                    encode_utf8(result@).len() as int,
                ) == pieces_of(fragment.spec_bytes(), inner.rest()),
                result@.len() > 0 ==> {
                    &&& fragment.spec_bytes().len() == 0
                    &&& pieces.len() > 0
                    &&& pieces[0].len() <= encode_utf8(result@).len()
                    &&& result is Borrowed <==> encode_utf8(result@).len() == pieces[0].len()
                },
            decreases
                2 * inner.rest().len() + if fragment.spec_bytes().len() > 0 {
                    1int
                } else {
                    0int
                },
        {
            let ghost before = inner.rest();
            let ghost done = encode_utf8(result@);
            proof {
                lemma_encode_empty(result@);
                lemma_encode_empty(fragment@);
            }
            if fragment.is_empty() {
                match inner.next() {
                    Some(chunk) => {
                        fragment = chunk;
                        proof {
                            lemma_take_chunk(before);
                            assert(all =~= done + fragment.spec_bytes() + inner.rest().flatten());
                            lemma_encode_empty(fragment@);
                        }
                    },
                    None => {
                        assert(inner.rest().flatten() =~= Seq::empty());
                        assert(all =~= done);
                        *self = LinesRaw { inner, fragment };
                        assert(self.pieces() =~= Seq::empty());
                        if cow_is_empty(&result) {
                            return None;
                        }
                        proof {
                            lemma_last_line(all);
                        }
                        return Some(result);
                    },
                }
                if fragment.is_empty() {
                    // Only the empty rope has an empty chunk.
                    proof {
                        assert(!chunks_nonempty(before)) by {
                            assert(before[0].len() == 0);
                        }
                        assert(inner.rest() =~= Seq::empty());
                        assert(all =~= Seq::empty());
                        assert(chunks_nonempty(inner.rest()));
                    }
                    *self = LinesRaw { inner, fragment };
                    assert(self.pieces() =~= Seq::empty());
                    return None;
                }
            }
            let ghost piece = fragment.spec_bytes();
            let ghost behind = inner.rest();
            proof {
                encode_utf8_valid_utf8(fragment@);
                lemma_start_is_boundary(piece);
                assert(chunks_nonempty(behind));
                assert(drop_bytes(pieces, done.len() as int) == pieces_of(piece, behind)) by {
                    assert(seq![piece] + before.drop_first() =~= before || before == behind);
                }
                if done.len() == 0 {
                    lemma_drop_none(pieces);
                    assert(pieces[0] == piece);
                }
            }
            match memchr::memchr(NEWLINE, fragment.as_bytes()) {
                Some(i) => {
                    let end: usize = fragment.as_bytes().len();
                    proof {
                        lemma_boundary_behind_ascii(piece, i as int);
                    }
                    let head = str_slice(fragment, 0, i + 1);
                    let tail = str_slice(fragment, i + 1, end);
                    proof {
                        lemma_encode_concat(result@, head@);
                        lemma_line_found(done, piece, behind.flatten(), i as int);
                        lemma_drop_from_piece(pieces, done.len() as int, piece, behind, i + 1);
                        lemma_pieces(tail.spec_bytes(), behind);
                        lemma_encode_empty(head@);
                    }
                    let line = cow_append(result, head);
                    *self = LinesRaw { inner, fragment: tail };
                    return Some(line);
                },
                None => {
                    proof {
                        lemma_encode_concat(result@, fragment@);
                        assert(encode_utf8(result@ + fragment@) =~= done + piece);
                        lemma_encode_empty(result@ + fragment@);
                        lemma_drop_from_piece(
                            pieces,
                            done.len() as int,
                            piece,
                            behind,
                            piece.len() as int,
                        );
                    }
                    result = cow_append(result, fragment);
                    fragment = "";
                    assert(fragment.spec_bytes() =~= Seq::empty());
                    assert(all =~= encode_utf8(result@) + fragment.spec_bytes()
                        + behind.flatten());
                    assert(piece.subrange(piece.len() as int, piece.len() as int)
                        =~= fragment.spec_bytes());
                },
            }
        }
    }
}

/// The pieces of a text that lies in a fragment and the chunks behind it.
spec fn pieces_of(fragment: Seq<u8>, chunks: Seq<Seq<u8>>) -> Seq<Seq<u8>> {
    if fragment.len() > 0 {
        seq![fragment] + chunks
    } else {
        chunks
    }
}

/// What is left of the pieces of a text without its first `n` bytes.
pub open spec fn drop_bytes(pieces: Seq<Seq<u8>>, n: int) -> Seq<Seq<u8>>
    decreases pieces.len(),
{
    if pieces.len() == 0 {
        Seq::empty()
    } else if n < pieces[0].len() {
        seq![pieces[0].skip(n)] + pieces.drop_first()
    } else {
        drop_bytes(pieces.drop_first(), n - pieces[0].len())
    }
}

proof fn lemma_pieces(fragment: Seq<u8>, chunks: Seq<Seq<u8>>)
    ensures
        pieces_of(fragment, chunks).flatten() == fragment + chunks.flatten(),
        chunks_nonempty(chunks) ==> chunks_nonempty(pieces_of(fragment, chunks)),
{
    if fragment.len() > 0 {
        seq![fragment].lemma_flatten_one_element();
        lemma_flatten_concat(seq![fragment], chunks);
    } else {
        assert(fragment + chunks.flatten() =~= chunks.flatten());
    }
}

proof fn lemma_drop_none(pieces: Seq<Seq<u8>>)
    ensures
        chunks_nonempty(pieces) ==> drop_bytes(pieces, 0) == pieces,
{
    if chunks_nonempty(pieces) && pieces.len() > 0 {
        assert(pieces[0].len() > 0);
        assert(pieces[0].skip(0) =~= pieces[0]);
        assert(seq![pieces[0]] + pieces.drop_first() =~= pieces);
    }
}

proof fn lemma_drop_from_piece(
    pieces: Seq<Seq<u8>>,
    done: int,
    piece: Seq<u8>,
    behind: Seq<Seq<u8>>,
    n: int,
)
    requires
        chunks_nonempty(pieces),
        chunks_nonempty(behind),
        0 <= done,
        0 <= n <= piece.len(),
        piece.len() > 0,
        drop_bytes(pieces, done) == pieces_of(piece, behind),
    ensures
        drop_bytes(pieces, done + n) == pieces_of(piece.subrange(n, piece.len() as int), behind),
    decreases pieces.len(),
{
    let left = piece.subrange(n, piece.len() as int);
    assert(pieces_of(piece, behind)[0] == piece);
    assert(pieces.len() > 0);
    if done < pieces[0].len() {
        assert(piece =~= pieces[0].skip(done));
        assert(pieces_of(piece, behind).drop_first() =~= behind);
        assert((seq![pieces[0].skip(done)] + pieces.drop_first()).drop_first()
            =~= pieces.drop_first());
        if done + n < pieces[0].len() {
            assert(pieces[0].skip(done + n) =~= left);
        } else {
            lemma_drop_none(behind);
        }
    } else {
        let rest = pieces.drop_first();
        assert(chunks_nonempty(rest)) by {
            lemma_take_chunk(pieces);
        }
        lemma_drop_from_piece(rest, done - pieces[0].len(), piece, behind, n);
    }
}

proof fn lemma_take_chunk(chunks: Seq<Seq<u8>>)
    requires
        chunks.len() > 0,
    ensures
        chunks.flatten() == chunks[0] + chunks.drop_first().flatten(),
        chunks_nonempty(chunks) ==> chunks_nonempty(chunks.drop_first()),
{
    let rest = chunks.drop_first();
    if chunks_nonempty(chunks) {
        assert forall|i: int| 0 <= i < rest.len() implies (#[trigger] rest[i]).len() > 0 by {
            assert(rest[i] == chunks[i + 1]);
        }
    }
}

proof fn lemma_last_line(text: Seq<u8>)
    requires
        forall|i: int| 0 <= i < text.len() ==> text[i] != NEWLINE,
    ensures
        first_line_len(text) == text.len(),
        text.take(text.len() as int) == text,
        text.skip(text.len() as int) == Seq::<u8>::empty(),
{
    assert(text + Seq::empty() =~= text);
    lemma_first_line_prefix(text, Seq::empty());
}

proof fn lemma_line_found(done: Seq<u8>, piece: Seq<u8>, behind: Seq<u8>, at: int)
    requires
        forall|i: int| 0 <= i < done.len() ==> done[i] != NEWLINE,
        0 <= at < piece.len(),
        piece[at] == NEWLINE,
        forall|i: int| 0 <= i < at ==> piece[i] != NEWLINE,
    ensures
        ({
            let all = done + piece + behind;
            let n = done.len() + at + 1;
            &&& first_line_len(all) == n
            &&& all.take(n) == done + piece.subrange(0, at + 1)
            &&& all.skip(n) == piece.subrange(at + 1, piece.len() as int) + behind
        }),
{
    let all = done + piece + behind;
    let n = done.len() + at + 1;
    lemma_first_line_at(piece + behind, at);
    assert(all =~= done + (piece + behind));
    lemma_first_line_prefix(done, piece + behind);
    assert(all.take(n) =~= done + piece.subrange(0, at + 1));
    assert(all.skip(n) =~= piece.subrange(at + 1, piece.len() as int) + behind);
}

/// Whether a text is empty.
fn cow_is_empty(a: &Cow<str>) -> (empty: bool)
    ensures
        empty == (a@.len() == 0),
{
    match a {
        Cow::Borrowed(s) => s.is_empty(),
        Cow::Owned(s) => s.as_str().is_empty(),
    }
}

/// An iterator over the lines of a rope without their endings.
pub struct Lines<'a> {
    inner: LinesRaw<'a>,
}

impl<'a> Lines<'a> {
    /// The pieces in which the text that is still to come lies in the rope.
    pub closed spec fn pieces(self) -> Seq<Seq<u8>> {
        self.inner.pieces()
    }

    /// The text that is still to come.
    pub open spec fn rest(self) -> Seq<u8> {
        self.pieces().flatten()
    }

    /// An iterator over the lines of `rope` between `start` and `end`.
    pub fn new(rope: &'a Node, start: usize, end: usize) -> (it: Lines<'a>)
        requires
            is_range(rope.bytes(), start as int, end as int),
        ensures
            it.pieces() == chunks_of(rope.leaves(), start as int, end as int),
            it.rest() == range_of(rope.bytes(), start as int, end as int),
    {
        Lines { inner: LinesRaw::new(rope, start, end) }
    }

    /// The next line. It is borrowed from the rope if, with its ending, it lies in one
    /// piece.
    pub fn next(&mut self) -> (line: Option<Cow<'a, str>>)
        ensures
            match line {
                Some(line) => {
                    let rest = old(self).rest();
                    let n = first_line_len(rest) as int;
                    &&& rest.len() > 0
                    &&& encode_utf8(line@) == strip_ending(rest.take(n))
                    &&& final(self).rest() == rest.skip(n)
                    &&& final(self).pieces() == drop_bytes(old(self).pieces(), n)
                    &&& line is Borrowed <==> n <= old(self).pieces()[0].len()
                },
                None => old(self).rest().len() == 0 && final(self).rest().len() == 0,
            },
    {
        match self.inner.next() {
            Some(Cow::Borrowed(s)) => Some(Cow::Borrowed(trim_ending(s))),
            Some(Cow::Owned(s)) => Some(Cow::Owned(trim_ending(s.as_str()).to_owned())),
            None => None,
        }
    }
}

/// A line without its ending.
pub fn trim_ending(s: &str) -> (body: &str)
    ensures
        body.spec_bytes() == strip_ending(s.spec_bytes()),
{
    let ghost text = s.spec_bytes();
    proof {
        encode_utf8_valid_utf8(s@);
        lemma_start_is_boundary(text);
    }
    let bytes = s.as_bytes();
    let len: usize = bytes.len();
    if len > 0 && bytes[len - 1] == NEWLINE {
        proof {
            lemma_boundary_behind_ascii(text, len - 1);
        }
        if len > 1 && bytes[len - 2] == CARRIAGE_RETURN {
            proof {
                lemma_boundary_behind_ascii(text, len - 2);
                assert(text.subrange(0, len - 2) =~= text.drop_last().drop_last());
            }
            return str_slice(s, 0, len - 2);
        }
        assert(text.subrange(0, len - 1) =~= text.drop_last());
        return str_slice(s, 0, len - 1);
    }
    s
}

/// No chunk is empty.
pub open spec fn chunks_nonempty(chunks: Seq<Seq<u8>>) -> bool {
    forall|i: int| 0 <= i < chunks.len() ==> (#[trigger] chunks[i]).len() > 0
}

} // verus!
