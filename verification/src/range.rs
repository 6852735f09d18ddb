//! Physical byte ranges, and what makes a sequence of them an extent list.

use vstd::prelude::*;

verus! {

/// A half-open interval `[start, end)` of physical byte offsets.
#[derive(Clone, Copy, Debug, PartialEq, Eq, Structural)]
pub struct ByteRange {
    pub start: u64,
    pub end: u64,
}

impl ByteRange {
    /// Whether the byte at offset `x` lies in the range.
    pub open spec fn contains(self, x: int) -> bool {
        self.start <= x < self.end
    }

    /// The number of bytes in the range; none where `end` is not above `start`.
    pub open spec fn size(self) -> nat {
        if self.start < self.end {
            (self.end - self.start) as nat
        } else {
            0
        }
    }

    /// Whether the two ranges have a byte in common.
    pub open spec fn intersects(self, other: ByteRange) -> bool {
        &&& self.start < self.end
        &&& other.start < other.end
        &&& self.start < other.end
        &&& other.start < self.end
    }

    /// Strict order by `start`, then by `end`.
    pub open spec fn key_lt(self, other: ByteRange) -> bool {
        self.start < other.start || (self.start == other.start && self.end < other.end)
    }

    /// Order by `start`, then by `end`.
    pub open spec fn key_le(self, other: ByteRange) -> bool {
        self.start < other.start || (self.start == other.start && self.end <= other.end)
    }
}

/// Ranges that each hold at least one byte and of which no two have a byte in
/// common, in whatever order they stand.
pub open spec fn are_nonempty_and_disjoint(s: Seq<ByteRange>) -> bool {
    &&& forall|k: int| 0 <= k < s.len() ==> (#[trigger] s[k]).start < s[k].end
    &&& forall|i: int, j: int|
        0 <= i < j < s.len() ==> !(#[trigger] s[i]).intersects(#[trigger] s[j])
}

/// Ranges in ascending order of `(start, end)`; equal ranges may repeat.
pub open spec fn is_sorted(s: Seq<ByteRange>) -> bool {
    forall|i: int, j: int| 0 <= i < j < s.len() ==> (#[trigger] s[i]).key_le(#[trigger] s[j])
}

/// An extent list: every range holds at least one byte, no two ranges have a
/// byte in common, and the ranges stand in strictly ascending order of
/// `(start, end)`. Ranges that touch (the `end` of one equal to the `start` of
/// the next) are allowed.
pub open spec fn is_extent_list(s: Seq<ByteRange>) -> bool {
    &&& are_nonempty_and_disjoint(s)
    &&& forall|i: int, j: int| 0 <= i < j < s.len() ==> (#[trigger] s[i]).key_lt(#[trigger] s[j])
}

/// In an extent list each range ends where a later one starts, or before.
pub proof fn lemma_extent_list_ordered(s: Seq<ByteRange>)
    requires
        is_extent_list(s),
    ensures
        forall|i: int, j: int|
            0 <= i < j < s.len() ==> (#[trigger] s[i]).end <= (#[trigger] s[j]).start,
{
    assert forall|i: int, j: int| 0 <= i < j < s.len() implies (#[trigger] s[i]).end <= (
    #[trigger] s[j]).start by {
        assert(s[i].key_lt(s[j]));
        assert(!s[i].intersects(s[j]));
    }
}

} // verus!
