//! What holds of the overlap counts of any two lists.

use crate::coverage::{
    covered, covers, lemma_covered_finite, lemma_covered_size, total_size, union_bytes,
};
use crate::overlap::Overlap;
use crate::range::{is_extent_list, ByteRange};
use vstd::prelude::*;
use vstd::set_lib::lemma_set_difference_len;

verus! {

/// The three counts account for every byte that either list covers, each byte
/// once: their sum is the number of bytes in the union of all ranges of both
/// lists.
pub proof fn lemma_counts_partition_union(r: Overlap, a: Seq<ByteRange>, b: Seq<ByteRange>)
    requires
        r.is_overlap_of(a, b),
    ensures
        r.diff_bytes_1 + r.diff_bytes_2 + r.shared_bytes == union_bytes(a, b),
{
    lemma_covered_finite(a);
    lemma_covered_finite(b);
    lemma_set_difference_len(covered(a), covered(b));
}

/// The bytes of each extent list are either unique to it or shared: the
/// unique count and the shared count add up to the sizes of its ranges.
pub proof fn lemma_counts_split_each_list(r: Overlap, a: Seq<ByteRange>, b: Seq<ByteRange>)
    requires
        r.is_overlap_of(a, b),
        is_extent_list(a),
        is_extent_list(b),
    ensures
        r.diff_bytes_1 + r.shared_bytes == total_size(a),
        r.diff_bytes_2 + r.shared_bytes == total_size(b),
{
    lemma_covered_finite(a);
    lemma_covered_finite(b);
    lemma_covered_size(a);
    lemma_covered_size(b);
    lemma_set_difference_len(covered(a), covered(b));
    lemma_set_difference_len(covered(b), covered(a));
    assert(covered(a).intersect(covered(b)) =~= covered(b).intersect(covered(a)));
}

/// Comparing the lists in the other order exchanges the two unique counts and
/// keeps the shared count.
pub proof fn lemma_swapped_lists_swap_counts(
    forward: Overlap,
    backward: Overlap,
    a: Seq<ByteRange>,
    b: Seq<ByteRange>,
)
    requires
        forward.is_overlap_of(a, b),
        backward.is_overlap_of(b, a),
    ensures
        backward.diff_bytes_1 == forward.diff_bytes_2,
        backward.diff_bytes_2 == forward.diff_bytes_1,
        backward.shared_bytes == forward.shared_bytes,
{
    assert(covered(a).intersect(covered(b)) =~= covered(b).intersect(covered(a)));
}

/// Where one of the lists is empty, nothing is shared, nothing is unique to
/// the empty list, and what is unique to the other list is the sum of the
/// sizes of its ranges.
pub proof fn lemma_empty_list_shares_nothing(r: Overlap, a: Seq<ByteRange>, b: Seq<ByteRange>)
    requires
        r.is_overlap_of(a, b),
        is_extent_list(a),
        is_extent_list(b),
        a.len() == 0 || b.len() == 0,
    ensures
        r.shared_bytes == 0,
        a.len() == 0 ==> r.diff_bytes_1 == 0 && r.diff_bytes_2 == total_size(b),
        b.len() == 0 ==> r.diff_bytes_2 == 0 && r.diff_bytes_1 == total_size(a),
{
    lemma_covered_size(a);
    lemma_covered_size(b);
    if a.len() == 0 {
        assert(covered(a) =~= Set::empty());
        assert(covered(a).intersect(covered(b)) =~= Set::empty());
        assert(covered(a).difference(covered(b)) =~= Set::empty());
        assert(covered(b).difference(covered(a)) =~= covered(b));
    }
    if b.len() == 0 {
        assert(covered(b) =~= Set::empty());
        assert(covered(a).intersect(covered(b)) =~= Set::empty());
        assert(covered(b).difference(covered(a)) =~= Set::empty());
        assert(covered(a).difference(covered(b)) =~= covered(a));
    }
}

/// Where no range of the first list intersects a range of the second, nothing
/// is shared.
pub proof fn lemma_disjoint_lists_share_nothing(r: Overlap, a: Seq<ByteRange>, b: Seq<ByteRange>)
    requires
        r.is_overlap_of(a, b),
        forall|i: int, j: int|
            0 <= i < a.len() && 0 <= j < b.len() ==> !(#[trigger] a[i]).intersects(#[trigger] b[j]),
    ensures
        r.shared_bytes == 0,
{
    assert forall|x: int| !(covers(a, x) && covers(b, x)) by {
        if covers(a, x) && covers(b, x) {
            let i = choose|i: int| 0 <= i < a.len() && (#[trigger] a[i]).contains(x);
            let j = choose|j: int| 0 <= j < b.len() && (#[trigger] b[j]).contains(x);
            assert(a[i].intersects(b[j]));
        }
    }
    assert(covered(a).intersect(covered(b)) =~= Set::empty());
}

/// A list compared with itself has nothing unique on either side, and shares
/// the sum of the sizes of its ranges.
pub proof fn lemma_same_list_shares_all(r: Overlap, a: Seq<ByteRange>)
    requires
        r.is_overlap_of(a, a),
        is_extent_list(a),
    ensures
        r.diff_bytes_1 == 0,
        r.diff_bytes_2 == 0,
        r.shared_bytes == total_size(a),
{
    lemma_covered_size(a);
    assert(covered(a).difference(covered(a)) =~= Set::empty());
    assert(covered(a).intersect(covered(a)) =~= covered(a));
}

} // verus!
