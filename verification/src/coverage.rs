//! The bytes that a sequence of ranges covers, as a set of offsets, and the
//! counts that compare two such sets.

use crate::range::{is_extent_list, lemma_extent_list_ordered, ByteRange};
use vstd::prelude::*;
use vstd::set_lib::{lemma_int_range, lemma_len_subset, lemma_set_disjoint_lens, set_int_range};

verus! {

/// Whether some range of `s` holds the byte at offset `x`.
pub open spec fn covers(s: Seq<ByteRange>, x: int) -> bool {
    exists|k: int| 0 <= k < s.len() && (#[trigger] s[k]).contains(x)
}

/// The offsets of all bytes that the ranges of `s` hold.
pub open spec fn covered(s: Seq<ByteRange>) -> Set<int> {
    Set::new(|x: int| covers(s, x))
}

/// The number of bytes that `a` covers and `b` does not.
pub open spec fn unique_bytes(a: Seq<ByteRange>, b: Seq<ByteRange>) -> nat {
    covered(a).difference(covered(b)).len()
}

/// The number of bytes that both `a` and `b` cover.
pub open spec fn shared_bytes(a: Seq<ByteRange>, b: Seq<ByteRange>) -> nat {
    covered(a).intersect(covered(b)).len()
}

/// The number of bytes that `a` or `b` covers.
pub open spec fn union_bytes(a: Seq<ByteRange>, b: Seq<ByteRange>) -> nat {
    covered(a).union(covered(b)).len()
}

/// The sum of the sizes of the ranges of `s`.
pub open spec fn total_size(s: Seq<ByteRange>) -> nat
    decreases s.len(),
{
    if s.len() == 0 {
        0
    } else {
        total_size(s.drop_last()) + s.last().size()
    }
}

/// Every covered offset is a `u64` below `u64::MAX`, so the set is finite.
pub proof fn lemma_covered_finite(s: Seq<ByteRange>)
    ensures
        covered(s).finite(),
        covered(s).subset_of(set_int_range(0, u64::MAX as int)),
        covered(s).len() <= u64::MAX,
{
    lemma_int_range(0, u64::MAX as int);
    lemma_len_subset(covered(s), set_int_range(0, u64::MAX as int));
}

/// An extent list covers as many bytes as its ranges hold together.
pub proof fn lemma_covered_size(s: Seq<ByteRange>)
    requires
        is_extent_list(s),
    ensures
        covered(s).len() == total_size(s),
    decreases s.len(),
{
    if s.len() == 0 {
        assert(covered(s) =~= Set::empty());
    } else {
        let front = s.drop_last();
        let last = s.last();
        let tail = set_int_range(last.start as int, last.end as int);
        lemma_extent_list_ordered(s);
        assert(is_extent_list(front)) by {
            assert forall|k: int| 0 <= k < front.len() implies front[k] == s[k] by {}
        }
        lemma_covered_size(front);
        lemma_covered_finite(front);
        lemma_int_range(last.start as int, last.end as int);
        assert forall|x: int| covered(s).contains(x) <==> (covered(front) + tail).contains(x) by {
            if covers(s, x) {
                let k = choose|k: int| 0 <= k < s.len() && (#[trigger] s[k]).contains(x);
                if k < front.len() {
                    assert(front[k].contains(x));
                }
            }
            if covers(front, x) {
                let k = choose|k: int| 0 <= k < front.len() && (#[trigger] front[k]).contains(x);
                assert(s[k].contains(x));
            }
            if tail.contains(x) {
                assert(s[s.len() - 1].contains(x));
            }
        }
        assert(covered(s) =~= covered(front) + tail);
        assert(covered(front).disjoint(tail)) by {
            assert forall|x: int| !(covered(front).contains(x) && tail.contains(x)) by {
                if covers(front, x) {
                    let k = choose|k: int|
                        0 <= k < front.len() && (#[trigger] front[k]).contains(x);
                    assert(s[k].end <= s[s.len() - 1].start);
                }
            }
        }
        lemma_set_disjoint_lens(covered(front), tail);
    }
}

} // verus!
