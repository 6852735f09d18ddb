//! The extent list of one file: what the extent mapping reports, turned into
//! sorted byte ranges and checked.

use crate::range::{
    are_nonempty_and_disjoint, is_extent_list, is_sorted, lemma_extent_list_ordered, ByteRange,
};
use vstd::prelude::*;

verus! {

/// One extent as the extent mapping of a file reports it: where its data
/// starts on the device and how many bytes it holds.
#[derive(Clone, Copy, Debug, PartialEq, Eq, Structural)]
pub struct Extent {
    pub physical: u64,
    pub length: u64,
}

impl Extent {
    /// Whether the end of the extent is an offset that a `u64` can hold.
    pub open spec fn fits(self) -> bool {
        self.physical + self.length <= u64::MAX
    }

    /// The byte range `[physical, physical + length)` of an extent that fits.
    pub open spec fn range(self) -> ByteRange {
        ByteRange { start: self.physical, end: (self.physical + self.length) as u64 }
    }

    /// The byte range that the extent occupies, unless its end is out of reach.
    pub fn to_range(&self) -> (r: Option<ByteRange>)
        ensures
            r == (if self.fits() {
                Some(self.range())
            } else {
                None
            }),
    {
        match self.physical.checked_add(self.length) {
            Some(end) => Some(ByteRange { start: self.physical, end }),
            None => None,
        }
    }
}

/// The byte ranges of a sequence of extents, in the same order.
pub open spec fn ranges_of(extents: Seq<Extent>) -> Seq<ByteRange> {
    extents.map_values(|e: Extent| e.range())
}

/// Sorts the ranges in place with `slice::sort_unstable_by_key`, the key of a
/// range being the pair `(start, end)`. Trusted: the sort keeps every range as
/// often as it occurred, and leaves the ranges in ascending order of the key,
/// pairs of integers being ordered by their first component and then by their
/// second.
#[verifier::external_body]
fn sort_by_start_and_end(ranges: &mut Vec<ByteRange>)
    ensures
        final(ranges)@.to_multiset() == old(ranges)@.to_multiset(),
        is_sorted(final(ranges)@),
{
    ranges.sort_unstable_by_key(|range| (range.start, range.end));
}

/// The byte ranges of the extents in ascending order of `(start, end)`, or
/// `None` where an extent ends beyond the last offset.
pub fn sorted_physical_ranges(extents: &Vec<Extent>) -> (r: Option<Vec<ByteRange>>)
    ensures
        r is Some <==> forall|k: int| 0 <= k < extents.len() ==> (#[trigger] extents[k]).fits(),
        r matches Some(ranges) ==> ({
            &&& is_sorted(ranges@)
            &&& ranges@.to_multiset() == ranges_of(extents@).to_multiset()
        }),
{
    let mut ranges: Vec<ByteRange> = Vec::new();
    let mut k: usize = 0;
    while k < extents.len()
        invariant
            k <= extents.len(),
            forall|n: int| 0 <= n < k ==> (#[trigger] extents[n]).fits(),
            ranges@ == ranges_of(extents@.take(k as int)),
        decreases extents.len() - k,
    {
        match extents[k].to_range() {
            Some(range) => {
                ranges.push(range);
            },
            None => {
                return None;
            },
        }
        k += 1;
        assert(ranges@ == ranges_of(extents@.take(k as int)));
    }
    assert(extents@.take(k as int) == extents@);
    sort_by_start_and_end(&mut ranges);
    Some(ranges)
}

/// Ranges that are nonempty and disjoint stay so in any other order, and none
/// of them occurs twice.
proof fn lemma_disjoint_permuted(s: Seq<ByteRange>, t: Seq<ByteRange>)
    requires
        are_nonempty_and_disjoint(s),
        s.to_multiset() == t.to_multiset(),
    ensures
        are_nonempty_and_disjoint(t),
        t.no_duplicates(),
{
    s.to_multiset_ensures();
    t.to_multiset_ensures();
    assert(s.no_duplicates()) by {
        assert forall|i: int, j: int| 0 <= i < s.len() && 0 <= j < s.len() && i != j implies s[i]
            != s[j] by {
            if i < j {
                assert(!s[i].intersects(s[j]));
            } else {
                assert(!s[j].intersects(s[i]));
            }
        }
    }
    s.lemma_multiset_has_no_duplicates();
    t.lemma_multiset_has_no_duplicates_conv();
    assert forall|k: int| 0 <= k < t.len() implies (#[trigger] t[k]).start < t[k].end by {
        assert(t.contains(t[k]));
        assert(t.to_multiset().count(t[k]) > 0);
        assert(s.contains(t[k]));
    }
    assert forall|i: int, j: int| 0 <= i < j < t.len() implies !(#[trigger] t[i]).intersects(
        #[trigger] t[j],
    ) by {
        assert(t.contains(t[i]));
        assert(t.contains(t[j]));
        assert(t.to_multiset().count(t[i]) > 0);
        assert(t.to_multiset().count(t[j]) > 0);
        assert(s.contains(t[i]));
        assert(s.contains(t[j]));
        let m = choose|m: int| 0 <= m < s.len() && s[m] == t[i];
        let n = choose|n: int| 0 <= n < s.len() && s[n] == t[j];
        if m < n {
            assert(!s[m].intersects(s[n]));
        } else {
            assert(!s[n].intersects(s[m]));
        }
    }
}

/// The physical byte ranges of one file: an extent list, kept valid by
/// construction.
#[derive(Debug)]
pub struct ExtentList {
    ranges: Vec<ByteRange>,
}

impl View for ExtentList {
    type V = Seq<ByteRange>;

    closed spec fn view(&self) -> Seq<ByteRange> {
        self.ranges@
    }
}

impl ExtentList {
    #[verifier::type_invariant]
    spec fn valid(&self) -> bool {
        is_extent_list(self.ranges@)
    }

    /// Takes the ranges as an extent list if they are one: each range holds a
    /// byte, no two overlap, and they ascend strictly by `(start, end)`.
    pub fn new(ranges: Vec<ByteRange>) -> (list: Option<ExtentList>)
        ensures
            list is Some <==> is_extent_list(ranges@),
            list matches Some(l) ==> l@ == ranges@,
    {
        let mut k: usize = 0;
        while k < ranges.len()
            invariant
                k <= ranges.len(),
                forall|n: int| 0 <= n < k ==> (#[trigger] ranges[n]).start < ranges[n].end,
                forall|i: int, j: int|
                    0 <= i < j < k ==> (#[trigger] ranges[i]).end <= (#[trigger] ranges[j]).start,
            decreases ranges.len() - k,
        {
            if ranges[k].start >= ranges[k].end {
                return None;
            }
            if k > 0 && ranges[k - 1].end > ranges[k].start {
                proof {
                    if is_extent_list(ranges@) {
                        lemma_extent_list_ordered(ranges@);
                    }
                }
                return None;
            }
            k += 1;
        }
        Some(ExtentList { ranges })
    }

    /// The extent list of a file from the extents that its extent mapping
    /// reports, in whatever order: their byte ranges, sorted by
    /// `(start, end)`. There is one if and only if every extent ends within
    /// reach of a `u64`, holds at least one byte, and shares no byte with
    /// another.
    pub fn from_extents(extents: &Vec<Extent>) -> (list: Option<ExtentList>)
        ensures
            list is Some <==> ({
                &&& forall|k: int| 0 <= k < extents.len() ==> (#[trigger] extents[k]).fits()
                &&& are_nonempty_and_disjoint(ranges_of(extents@))
            }),
            list matches Some(l) ==> ({
                &&& is_extent_list(l@)
                &&& l@.to_multiset() == ranges_of(extents@).to_multiset()
            }),
    {
        match sorted_physical_ranges(extents) {
            Some(ranges) => {
                proof {
                    let given = ranges_of(extents@);
                    if is_extent_list(ranges@) {
                        lemma_disjoint_permuted(ranges@, given);
                    }
                    if are_nonempty_and_disjoint(given) {
                        lemma_disjoint_permuted(given, ranges@);
                        assert forall|i: int, j: int| 0 <= i < j < ranges.len() implies (
                        #[trigger] ranges[i]).key_lt(#[trigger] ranges[j]) by {
                            assert(ranges[i].key_le(ranges[j]));
                            assert(ranges[i] != ranges[j]);
                        }
                    }
                }
                ExtentList::new(ranges)
            },
            None => None,
        }
    }

    /// The ranges of the list, which form an extent list.
    pub fn ranges(&self) -> (r: &Vec<ByteRange>)
        ensures
            r@ == self@,
            is_extent_list(r@),
    {
        proof {
            use_type_invariant(self);
        }
        &self.ranges
    }
}

} // verus!
