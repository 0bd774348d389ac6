//! The leaves of a rope: strings of bounded length, split at newlines or between
//! codepoints.

use crate::interval::Interval;
use crate::scan::last_newline;
use crate::text::{
    is_boundary, lemma_boundary_nearby, lemma_encode_concat, lemma_is_char_boundary,
    lemma_split_valid, lemma_start_is_boundary, lemma_width_reaches_next, NEWLINE,
};
use vstd::prelude::*;
use vstd::string::*;
use vstd::utf8::*;

verus! {

/// A leaf with siblings holds at least this many bytes.
pub const MIN_LEAF: usize = 511;

/// A leaf holds at most this many bytes.
pub const MAX_LEAF: usize = 1024;

/// The most bytes that a leaf can be split from when leaves are merged.
pub const MAX_MERGE: usize = 2049;

/// The last offset at which a text of `len` bytes may be split.
pub open spec fn split_limit(len: int) -> int {
    if MAX_LEAF <= len - MIN_LEAF {
        MAX_LEAF as int
    } else {
        len - MIN_LEAF
    }
}

/// `at` is where `text` is split: behind the last newline that leaves `minsplit`
/// bytes before the split and `split_limit` at most, or, with no such newline, at
/// the last codepoint boundary up to the limit.
pub open spec fn is_leaf_split(text: Seq<u8>, minsplit: int, at: int) -> bool {
    let limit = split_limit(text.len() as int);
    if exists|i: int| minsplit - 1 <= i < limit && #[trigger] text[i] == NEWLINE {
        &&& minsplit <= at <= limit
        &&& text[at - 1] == NEWLINE
        &&& forall|i: int| at <= i < limit ==> text[i] != NEWLINE
    } else {
        &&& 0 <= at <= limit
        &&& is_boundary(text, at)
        &&& forall|i: int| at < i <= limit ==> !#[trigger] is_boundary(text, i)
    }
}

/// The least number of bytes before the split when `len` bytes are merged.
pub open spec fn merge_minsplit(len: int) -> int {
    if MIN_LEAF <= len - MAX_LEAF {
        len - MAX_LEAF
    } else {
        MIN_LEAF as int
    }
}

/// Where `text` is split.
pub open spec fn leaf_split(text: Seq<u8>, minsplit: int) -> int {
    choose|at: int| is_leaf_split(text, minsplit, at)
}

/// A text is split in one place only.
pub proof fn lemma_leaf_split_unique(text: Seq<u8>, minsplit: int, a: int, b: int)
    requires
        is_leaf_split(text, minsplit, a),
        is_leaf_split(text, minsplit, b),
    ensures
        a == b,
{
    let limit = split_limit(text.len() as int);
    if exists|i: int| minsplit - 1 <= i < limit && #[trigger] text[i] == NEWLINE {
        if a < b {
            assert(text[b - 1] == NEWLINE);
        } else if b < a {
            assert(text[a - 1] == NEWLINE);
        }
    } else {
        if a < b {
            assert(is_boundary(text, b));
        } else if b < a {
            assert(is_boundary(text, a));
        }
    }
}

/// Every text that is long enough is split somewhere.
pub proof fn lemma_leaf_split(text: Seq<u8>, minsplit: int)
    requires
        valid_utf8(text),
        text.len() >= MIN_LEAF,
    ensures
        is_leaf_split(text, minsplit, leaf_split(text, minsplit)),
{
    let limit = split_limit(text.len() as int);
    let at = if exists|i: int| minsplit - 1 <= i < limit && #[trigger] text[i] == NEWLINE {
        lemma_last_newline(text, minsplit - 1, limit) + 1
    } else {
        lemma_start_is_boundary(text);
        lemma_last_boundary(text, limit)
    };
    assert(is_leaf_split(text, minsplit, at));
}

proof fn lemma_last_newline(text: Seq<u8>, from: int, to: int) -> (at: int)
    requires
        exists|i: int| from <= i < to && #[trigger] text[i] == NEWLINE,
    ensures
        from <= at < to,
        text[at] == NEWLINE,
        forall|i: int| at < i < to ==> text[i] != NEWLINE,
    decreases to - from,
{
    if text[to - 1] == NEWLINE {
        to - 1
    } else {
        lemma_last_newline(text, from, to - 1)
    }
}

proof fn lemma_last_boundary(text: Seq<u8>, limit: int) -> (at: int)
    requires
        is_boundary(text, 0),
        0 <= limit,
    ensures
        0 <= at <= limit,
        is_boundary(text, at),
        forall|i: int| at < i <= limit ==> !#[trigger] is_boundary(text, i),
    decreases limit,
{
    if is_boundary(text, limit) {
        limit
    } else {
        lemma_last_boundary(text, limit - 1)
    }
}

/// A split lies on a boundary, at most three bytes before the limit if no newline
/// decides, and leaves both parts a length that a leaf with siblings may have.
pub proof fn lemma_leaf_split_lengths(text: Seq<u8>, minsplit: int, at: int)
    requires
        valid_utf8(text),
        text.len() > MAX_LEAF,
        1 <= minsplit,
        is_leaf_split(text, minsplit, at),
    ensures
        0 < at < text.len(),
        is_boundary(text, at),
        at <= MAX_LEAF,
        MIN_LEAF <= text.len() - at,
        minsplit >= MIN_LEAF ==> MIN_LEAF <= at,
        minsplit == merge_minsplit(text.len() as int) && text.len() <= 2045 ==> text.len() - at
            <= MAX_LEAF,
{
    let limit = split_limit(text.len() as int);
    if exists|i: int| minsplit - 1 <= i < limit && #[trigger] text[i] == NEWLINE {
        lemma_boundary_behind_ascii(text, at - 1);
    } else {
        lemma_boundary_nearby(text, limit);
        let i = choose|i: int| 0 <= i && limit - 3 <= i <= limit && #[trigger] is_boundary(text, i);
        if at < i {
            assert(is_boundary(text, i));
        }
    }
}

/// Behind an ASCII byte lies a boundary.
pub proof fn lemma_boundary_behind_ascii(text: Seq<u8>, at: int)
    requires
        valid_utf8(text),
        0 <= at < text.len(),
        text[at] < 0x80,
    ensures
        is_boundary(text, at),
        is_boundary(text, at + 1),
{
    lemma_width_reaches_next(text, at);
}

/// Where to split a text that is pushed into a tree in bulk.
pub fn find_leaf_split_for_bulk(s: &str) -> (at: usize)
    requires
        s.spec_bytes().len() >= 2 * MIN_LEAF - 1,
    ensures
        is_leaf_split(s.spec_bytes(), MIN_LEAF as int, at as int),
{
    find_leaf_split(s, MIN_LEAF)
}

/// Where to split a text that was made by merging two leaves.
pub fn find_leaf_split_for_merge(s: &str) -> (at: usize)
    requires
        MAX_LEAF <= s.spec_bytes().len() <= MAX_MERGE,
    ensures
        is_leaf_split(s.spec_bytes(), merge_minsplit(s.spec_bytes().len() as int), at as int),
{
    let len: usize = s.as_bytes().len();
    let over: usize = len - MAX_LEAF;
    find_leaf_split(
        s,
        if over > MIN_LEAF {
            over
        } else {
            MIN_LEAF
        },
    )
}

/// Try to split at a newline boundary (leaning left), if not, then split at a codepoint.
pub fn find_leaf_split(s: &str, minsplit: usize) -> (at: usize)
    requires
        s.spec_bytes().len() >= MIN_LEAF,
        1 <= minsplit,
        minsplit - 1 <= split_limit(s.spec_bytes().len() as int),
    ensures
        is_leaf_split(s.spec_bytes(), minsplit as int, at as int),
{
    let ghost text = s.spec_bytes();
    proof {
        encode_utf8_valid_utf8(s@);
    }
    let bytes = s.as_bytes();
    let over: usize = bytes.len() - MIN_LEAF;
    let mut splitpoint: usize = if over < MAX_LEAF {
        over
    } else {
        MAX_LEAF
    };
    match last_newline(bytes, minsplit - 1, splitpoint) {
        Some(pos) => {
            assert(text[pos as int] == NEWLINE);
            pos + 1
        },
        None => {
            let ghost limit = splitpoint as int;
            proof {
                lemma_is_char_boundary(text, limit);
                lemma_start_is_boundary(text);
            }
            while !s.is_char_boundary(splitpoint)
                invariant
                    text == s.spec_bytes(),
                    valid_utf8(text),
                    is_boundary(text, 0),
                    0 <= splitpoint <= limit <= text.len(),
                    is_boundary(text, splitpoint as int) == is_char_boundary(
                        text,
                        splitpoint as int,
                    ),
                    forall|i: int| splitpoint < i <= limit ==> !#[trigger] is_boundary(text, i),
                decreases splitpoint,
            {
                splitpoint = splitpoint - 1;
                proof {
                    lemma_is_char_boundary(text, splitpoint as int);
                }
            }
            splitpoint
        },
    }
}

/// What a tree asks of its leaves.
pub trait Leaf: Sized {
    /// The bytes that the leaf holds.
    spec fn utf8(&self) -> Seq<u8>;

    /// The number of bytes.
    fn len(&self) -> (n: usize)
        ensures
            n == self.utf8().len(),
    ;

    /// Whether the leaf is long enough to have siblings.
    fn is_ok_child(&self) -> (ok: bool)
        ensures
            ok == (self.utf8().len() >= MIN_LEAF),
    ;

    /// Appends the part `iv` of `other`. If that makes the leaf too long, it is cut
    /// at the split for merging, and the part behind the cut is returned.
    fn push_maybe_split(&mut self, other: &Self, iv: Interval) -> (rest: Option<Self>)
        requires
            iv.start <= iv.end,
            is_boundary(other.utf8(), iv.start as int),
            is_boundary(other.utf8(), iv.end as int),
            old(self).utf8().len() + (iv.end - iv.start) <= MAX_MERGE,
        ensures
            ({
                let all = old(self).utf8() + other.utf8().subrange(iv.start as int, iv.end as int);
                match rest {
                    None => all.len() <= MAX_LEAF && final(self).utf8() == all,
                    Some(right) => {
                        let at = final(self).utf8().len() as int;
                        &&& all.len() > MAX_LEAF
                        &&& is_leaf_split(all, merge_minsplit(all.len() as int), at)
                        &&& final(self).utf8() == all.take(at)
                        &&& right.utf8() == all.skip(at)
                    },
                }
            }),
    ;
}

impl Leaf for String {
    open spec fn utf8(&self) -> Seq<u8> {
        encode_utf8(self@)
    }

    fn len(&self) -> (n: usize) {
        self.as_str().as_bytes().len()
    }

    fn is_ok_child(&self) -> (ok: bool) {
        self.as_str().as_bytes().len() >= MIN_LEAF
    }

    fn push_maybe_split(&mut self, other: &String, iv: Interval) -> (rest: Option<String>) {
        let ghost all = self.utf8() + other.utf8().subrange(iv.start as int, iv.end as int);
        let (start, end) = iv.start_end();
        let part = str_slice(other.as_str(), start, end);
        proof {
            lemma_encode_concat(self@, part@);
        }
        self.append(part);
        assert(self.utf8() == all);
        if Leaf::len(&*self) <= MAX_LEAF {
            None
        } else {
            proof {
                encode_utf8_valid_utf8(self@);
            }
            let splitpoint: usize = find_leaf_split_for_merge(self.as_str());
            proof {
                lemma_leaf_split_lengths(all, merge_minsplit(all.len() as int), splitpoint as int);
                lemma_is_char_boundary(all, splitpoint as int);
            }
            let (left, right) = self.as_str().split_at(splitpoint);
            let left_str = left.to_owned();
            let right_str = right.to_owned();
            *self = left_str;
            Some(right_str)
        }
    }
}

/// The part `start..end` of `s`.
pub fn str_slice(s: &str, start: usize, end: usize) -> (part: &str)
    requires
        start <= end,
        is_boundary(s.spec_bytes(), start as int),
        is_boundary(s.spec_bytes(), end as int),
    ensures
        part.spec_bytes() == s.spec_bytes().subrange(start as int, end as int),
{
    let ghost text = s.spec_bytes();
    proof {
        encode_utf8_valid_utf8(s@);
        lemma_is_char_boundary(text, end as int);
        lemma_split_valid(text, end as int);
        assert(is_boundary(text.take(end as int), start as int));
        lemma_is_char_boundary(text.take(end as int), start as int);
    }
    let (head, _) = s.split_at(end);
    let (_, part) = head.split_at(start);
    assert(part.spec_bytes() =~= text.subrange(start as int, end as int));
    part
}

} // verus!
