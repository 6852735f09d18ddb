//! The overlap accumulator: one forward sweep over the extent lists of two
//! files that counts the bytes unique to each and the bytes shared by both.

use crate::coverage::{covered, covers, shared_bytes, unique_bytes};
use crate::extent_list::ExtentList;
use crate::range::{is_extent_list, lemma_extent_list_ordered, ByteRange};
use vstd::prelude::*;
use vstd::set_lib::{lemma_int_range, lemma_len_subset, lemma_set_disjoint_lens, set_int_range};

verus! {

/// The three byte counts that compare the storage of two files.
#[derive(Clone, Copy, Debug, PartialEq, Eq, Structural)]
pub struct Overlap {
    /// Bytes that only the first file occupies.
    pub diff_bytes_1: u64,
    /// Bytes that only the second file occupies.
    pub diff_bytes_2: u64,
    /// Bytes that both files occupy.
    pub shared_bytes: u64,
}

impl Overlap {
    /// Whether these are the counts for the lists `a` and `b`: the bytes that
    /// only `a` covers, the bytes that only `b` covers, and the bytes that
    /// both cover.
    pub open spec fn is_overlap_of(self, a: Seq<ByteRange>, b: Seq<ByteRange>) -> bool {
        &&& self.diff_bytes_1 == unique_bytes(a, b)
        &&& self.diff_bytes_2 == unique_bytes(b, a)
        &&& self.shared_bytes == shared_bytes(a, b)
    }
}

/// The number of offsets below `p` in `set`.
spec fn count_below(set: Set<int>, p: int) -> nat {
    set.intersect(set_int_range(0, p)).len()
}

/// How the cursor of one list stands when the sweep has accounted for every
/// byte below `p`: the ranges before index `i` end at or before `p`, and
/// `current` is what is left of range `i` from `p` on, or nothing at the end
/// of the list.
spec fn pending(s: Seq<ByteRange>, i: int, p: int, current: Option<ByteRange>) -> bool {
    &&& 0 <= i <= s.len()
    &&& forall|k: int| 0 <= k < i ==> (#[trigger] s[k]).end <= p
    &&& match current {
        Some(e) => {
            &&& i < s.len()
            &&& e.end == s[i].end
            &&& e.start == if s[i].start < p {
                p
            } else {
                s[i].start as int
            }
            &&& e.start < e.end
        },
        None => i == s.len(),
    }
}

/// Where the coverage of `s` starts within the window `[p, q)`, or `q` where
/// the window holds no covered byte, given that range `i` is the first that
/// ends above `p` and that it ends at or above `q`.
spec fn window_start(s: Seq<ByteRange>, i: int, p: int, q: int) -> int {
    if i < s.len() && s[i].start < q {
        if s[i].start < p {
            p
        } else {
            s[i].start as int
        }
    } else {
        q
    }
}

/// Within a window that ends no later than range `i` does, and before which
/// all earlier ranges end, only range `i` can cover a byte.
proof fn lemma_window(s: Seq<ByteRange>, i: int, p: int, q: int, x: int)
    requires
        is_extent_list(s),
        0 <= i <= s.len(),
        forall|k: int| 0 <= k < i ==> (#[trigger] s[k]).end <= p,
        i < s.len() ==> q <= s[i].end,
        p <= x < q,
    ensures
        covers(s, x) <==> window_start(s, i, p, q) <= x,
{
    lemma_extent_list_ordered(s);
    if covers(s, x) {
        let k = choose|k: int| 0 <= k < s.len() && (#[trigger] s[k]).contains(x);
        assert(k == i);
    }
    if i < s.len() && s[i].start <= x {
        assert(s[i].contains(x));
    }
}

/// Where the members of `set` within the window `[p, q)` are the offsets of
/// `[lo, hi)`, the count below `q` is the count below `p` and `hi - lo` more.
proof fn lemma_count_extend(set: Set<int>, p: int, q: int, lo: int, hi: int)
    requires
        0 <= p <= lo <= hi <= q,
        forall|x: int| p <= x < q ==> (set.contains(x) <==> lo <= x < hi),
    ensures
        count_below(set, q) == count_below(set, p) + (hi - lo),
        count_below(set, q) <= q,
{
    let before = set.intersect(set_int_range(0, p));
    let added = set_int_range(lo, hi);
    let after = set.intersect(set_int_range(0, q));
    lemma_int_range(0, p);
    lemma_int_range(0, q);
    lemma_int_range(lo, hi);
    lemma_len_subset(before, set_int_range(0, p));
    lemma_len_subset(after, set_int_range(0, q));
    assert(after =~= before + added);
    assert(before.disjoint(added));
    lemma_set_disjoint_lens(before, added);
}

/// One step of the sweep, from `p` to `q`: the bytes of the window `[p, q)`
/// fall to the three counts by where the coverage of each list starts in it.
proof fn lemma_advance(a: Seq<ByteRange>, b: Seq<ByteRange>, i: int, j: int, p: int, q: int)
    requires
        is_extent_list(a),
        is_extent_list(b),
        0 <= i <= a.len(),
        0 <= j <= b.len(),
        forall|k: int| 0 <= k < i ==> (#[trigger] a[k]).end <= p,
        forall|k: int| 0 <= k < j ==> (#[trigger] b[k]).end <= p,
        i < a.len() ==> q <= a[i].end,
        j < b.len() ==> q <= b[j].end,
        0 <= p <= q,
    ensures
        ({
            let sa = window_start(a, i, p, q);
            let sb = window_start(b, j, p, q);
            let both = if sa < sb {
                sb
            } else {
                sa
            };
            let only_a = covered(a).difference(covered(b));
            let only_b = covered(b).difference(covered(a));
            let shared = covered(a).intersect(covered(b));
            &&& count_below(only_a, q) == count_below(only_a, p) + (both - sa)
            &&& count_below(only_b, q) == count_below(only_b, p) + (both - sb)
            &&& count_below(shared, q) == count_below(shared, p) + (q - both)
            &&& count_below(only_a, q) <= q
            &&& count_below(only_b, q) <= q
            &&& count_below(shared, q) <= q
        }),
{
    let sa = window_start(a, i, p, q);
    let sb = window_start(b, j, p, q);
    let both = if sa < sb {
        sb
    } else {
        sa
    };
    let only_a = covered(a).difference(covered(b));
    let only_b = covered(b).difference(covered(a));
    let shared = covered(a).intersect(covered(b));
    assert forall|x: int| p <= x < q implies (covers(a, x) <==> sa <= x) && (covers(b, x) <==> sb
        <= x) by {
        lemma_window(a, i, p, q, x);
        lemma_window(b, j, p, q, x);
    }
    lemma_count_extend(only_a, p, q, sa, both);
    lemma_count_extend(only_b, p, q, sb, both);
    lemma_count_extend(shared, p, q, both, q);
}

/// Once the sweep has passed the end of every range, the counts are those of
/// the whole lists.
proof fn lemma_count_all(a: Seq<ByteRange>, b: Seq<ByteRange>, p: int)
    requires
        forall|k: int| 0 <= k < a.len() ==> (#[trigger] a[k]).end <= p,
        forall|k: int| 0 <= k < b.len() ==> (#[trigger] b[k]).end <= p,
    ensures
        count_below(covered(a).difference(covered(b)), p) == unique_bytes(a, b),
        count_below(covered(b).difference(covered(a)), p) == unique_bytes(b, a),
        count_below(covered(a).intersect(covered(b)), p) == shared_bytes(a, b),
{
    let below = set_int_range(0, p);
    assert(covered(a).difference(covered(b)).intersect(below) =~= covered(a).difference(
        covered(b),
    ));
    assert(covered(b).difference(covered(a)).intersect(below) =~= covered(b).difference(
        covered(a),
    ));
    assert(covered(a).intersect(covered(b)).intersect(below) =~= covered(a).intersect(
        covered(b),
    ));
}

/// The range at `index`, or `None` past the end of the list.
fn range_at(ranges: &Vec<ByteRange>, index: usize) -> (r: Option<ByteRange>)
    ensures
        r == (if index < ranges.len() {
            Some(ranges[index as int])
        } else {
            None
        }),
{
    if index < ranges.len() {
        Some(ranges[index])
    } else {
        None
    }
}

/// Counts the bytes that only `first` covers, the bytes that only `second`
/// covers, and the bytes that both cover, in one pass over the two lists.
pub fn measure_overlap(first: &ExtentList, second: &ExtentList) -> (r: Overlap)
    ensures
        r.is_overlap_of(first@, second@),
{
    let a = first.ranges();
    let b = second.ranges();
    let mut i: usize = 0;
    let mut j: usize = 0;
    let mut extent1 = range_at(a, 0);
    let mut extent2 = range_at(b, 0);
    let mut diff_bytes_1: u64 = 0;
    let mut diff_bytes_2: u64 = 0;
    let mut shared: u64 = 0;
    let ghost mut p: int = 0;
    proof {
        let only_a = covered(a@).difference(covered(b@));
        let only_b = covered(b@).difference(covered(a@));
        let both = covered(a@).intersect(covered(b@));
        assert(only_a.intersect(set_int_range(0, 0)) =~= Set::empty());
        assert(only_b.intersect(set_int_range(0, 0)) =~= Set::empty());
        assert(both.intersect(set_int_range(0, 0)) =~= Set::empty());
    }
    loop
        invariant
            is_extent_list(a@),
            is_extent_list(b@),
            pending(a@, i as int, p, extent1),
            pending(b@, j as int, p, extent2),
            0 <= p <= u64::MAX,
            diff_bytes_1 == count_below(covered(a@).difference(covered(b@)), p),
            diff_bytes_2 == count_below(covered(b@).difference(covered(a@)), p),
            shared == count_below(covered(a@).intersect(covered(b@)), p),
        ensures
            extent1 is None,
            extent2 is None,
        decreases a.len() - i + b.len() - j,
    {
        proof {
            lemma_extent_list_ordered(a@);
            lemma_extent_list_ordered(b@);
        }
        match (extent1, extent2) {
            (Some(e1), Some(e2)) => {
                if e1.end <= e2.start {
                    // The first range lies before the second one.
                    proof {
                        lemma_advance(a@, b@, i as int, j as int, p, e1.end as int);
                        p = e1.end as int;
                    }
                    diff_bytes_1 = diff_bytes_1 + (e1.end - e1.start);
                    i = i + 1;
                    extent1 = range_at(a, i);
                } else if e1.start >= e2.end {
                    // The first range lies after the second one.
                    proof {
                        lemma_advance(a@, b@, i as int, j as int, p, e2.end as int);
                        p = e2.end as int;
                    }
                    diff_bytes_2 = diff_bytes_2 + (e2.end - e2.start);
                    j = j + 1;
                    extent2 = range_at(b, j);
                } else {
                    // The two ranges intersect.
                    let mut rest1 = e1;
                    let mut rest2 = e2;
                    proof {
                        let q: int = if e1.end < e2.end {
                            e1.end as int
                        } else {
                            e2.end as int
                        };
                        lemma_advance(a@, b@, i as int, j as int, p, q);
                        p = q;
                    }
                    // Align the starts: what comes before the later start is
                    // unique to the range that starts first.
                    if rest1.start < rest2.start {
                        diff_bytes_1 = diff_bytes_1 + (rest2.start - rest1.start);
                        rest1.start = rest2.start;
                    } else if rest1.start > rest2.start {
                        diff_bytes_2 = diff_bytes_2 + (rest1.start - rest2.start);
                        rest2.start = rest1.start;
                    }
                    // Count the shared part, up to the end that comes first.
                    if rest1.end < rest2.end {
                        shared = shared + (rest1.end - rest1.start);
                        rest2.start = rest1.end;
                        i = i + 1;
                        extent1 = range_at(a, i);
                        extent2 = Some(rest2);
                    } else if rest1.end > rest2.end {
                        shared = shared + (rest2.end - rest2.start);
                        rest1.start = rest2.end;
                        j = j + 1;
                        extent1 = Some(rest1);
                        extent2 = range_at(b, j);
                    } else {
                        shared = shared + (rest1.end - rest1.start);
                        i = i + 1;
                        j = j + 1;
                        extent1 = range_at(a, i);
                        extent2 = range_at(b, j);
                    }
                }
            },
            (Some(e1), None) => {
                proof {
                    lemma_advance(a@, b@, i as int, j as int, p, e1.end as int);
                    p = e1.end as int;
                }
                diff_bytes_1 = diff_bytes_1 + (e1.end - e1.start);
                i = i + 1;
                extent1 = range_at(a, i);
            },
            (None, Some(e2)) => {
                proof {
                    lemma_advance(a@, b@, i as int, j as int, p, e2.end as int);
                    p = e2.end as int;
                }
                diff_bytes_2 = diff_bytes_2 + (e2.end - e2.start);
                j = j + 1;
                extent2 = range_at(b, j);
            },
            (None, None) => {
                break ;
            },
        }
    }
    proof {
        lemma_count_all(a@, b@, p);
    }
    Overlap { diff_bytes_1, diff_bytes_2, shared_bytes: shared }
}

} // verus!
