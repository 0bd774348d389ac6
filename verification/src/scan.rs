//! Searching and counting bytes.

use crate::text::{count_byte, newlines, NEWLINE};
use vstd::prelude::*;
use vstd::string::*;

verus! {

/// `bytecount::count` returns how many bytes of `haystack` equal `needle`.
pub assume_specification[ bytecount::count ](haystack: &[u8], needle: u8) -> (n: usize)
    ensures
        n == count_byte(haystack@, needle),
;

/// `memchr::memchr` returns the index of the first byte of `haystack` that equals
/// `needle`, and `None` if there is none.
pub assume_specification[ memchr::memchr ](needle: u8, haystack: &[u8]) -> (at: Option<usize>)
    ensures
        match at {
            Some(i) => {
                &&& i < haystack@.len()
                &&& haystack@[i as int] == needle
                &&& forall|j: int| 0 <= j < i ==> haystack@[j] != needle
            },
            None => forall|j: int| 0 <= j < haystack@.len() ==> haystack@[j] != needle,
        },
;

/// The number of newlines in `s`.
pub fn count_newlines(s: &str) -> (n: usize)
    ensures
        n == newlines(s.spec_bytes()),
{
    bytecount::count(s.as_bytes(), NEWLINE)
}

/// The index of the last newline of `bytes` in `from..to`.
pub fn last_newline(bytes: &[u8], from: usize, to: usize) -> (at: Option<usize>)
    requires
        from <= to <= bytes@.len(),
    ensures
        match at {
            Some(i) => {
                &&& from <= i < to
                &&& bytes@[i as int] == NEWLINE
                &&& forall|j: int| i < j < to ==> bytes@[j] != NEWLINE
            },
            None => forall|j: int| from <= j < to ==> bytes@[j] != NEWLINE,
        },
{
    let mut i: usize = to;
    while i > from
        invariant
            from <= i <= to <= bytes@.len(),
            forall|j: int| i <= j < to ==> bytes@[j] != NEWLINE,
        decreases i,
    {
        i = i - 1;
        if bytes[i] == NEWLINE {
            return Some(i);
        }
    }
    None
}

} // verus!
