//! A stable merge sort that leaves its input untouched.

use crate::binary64::Binary64;
use crate::rank::{all_numbers, arranges, ascending, lemma_arrangement_ranks, precedes};
use vstd::prelude::*;

verus! {

/// Merges the sorted positions `lo..mid` and `mid..hi` of `s`.
fn merge(
    left: &Vec<Binary64>,
    right: &Vec<Binary64>,
    Ghost(s): Ghost<Seq<Binary64>>,
    Ghost(lo): Ghost<int>,
    Ghost(mid): Ghost<int>,
    Ghost(hi): Ghost<int>,
    Ghost(pl): Ghost<Seq<int>>,
    Ghost(pr): Ghost<Seq<int>>,
) -> (out: (Vec<Binary64>, Ghost<Seq<int>>))
    requires
        0 <= lo <= mid <= hi <= s.len(),
        hi - lo <= usize::MAX,
        arranges(s, lo, mid, left@, pl),
        arranges(s, mid, hi, right@, pr),
    ensures
        arranges(s, lo, hi, out.0@, out.1@),
{
    let mut merged: Vec<Binary64> = Vec::new();
    let ghost mut p: Seq<int> = Seq::empty();
    let mut i: usize = 0;
    let mut j: usize = 0;
    while i < left.len() || j < right.len()
        invariant
            0 <= lo <= mid <= hi <= s.len(),
            hi - lo <= usize::MAX,
            arranges(s, lo, mid, left@, pl),
            arranges(s, mid, hi, right@, pr),
            i <= left.len(),
            j <= right.len(),
            merged@.len() == i + j,
            p.len() == i + j,
            forall|k: int| 0 <= k < p.len() ==> lo <= #[trigger] p[k] < hi && merged@[k] == s[p[k]],
            forall|a: int, b: int|
                0 <= a < b < p.len() ==> precedes(s, #[trigger] p[a], #[trigger] p[b]),
            forall|k: int, a: int|
                0 <= k < p.len() && i <= a < pl.len() ==> precedes(
                    s,
                    #[trigger] p[k],
                    #[trigger] pl[a],
                ),
            forall|k: int, b: int|
                0 <= k < p.len() && j <= b < pr.len() ==> precedes(
                    s,
                    #[trigger] p[k],
                    #[trigger] pr[b],
                ),
        decreases left.len() - i + right.len() - j,
    {
        let from_left: bool = if i == left.len() {
            false
        } else if j == right.len() {
            true
        } else {
            left[i].key() <= right[j].key()
        };
        if from_left {
            let x: Binary64 = left[i];
            proof {
                let px = pl[i as int];
                assert(left@[i as int] == s[px]);
                assert forall|b: int| j <= b < pr.len() implies precedes(s, px, #[trigger] pr[b]) by {
                    assert(right@[j as int] == s[pr[j as int]]);
                    if b > j {
                        assert(precedes(s, pr[j as int], pr[b]));
                    }
                    assert(px < mid <= pr[b]);
                }
                assert forall|a: int| i < a < pl.len() implies precedes(s, px, #[trigger] pl[a]) by {
                    assert(precedes(s, pl[i as int], pl[a]));
                }
                p = p.push(px);
            }
            merged.push(x);
            i = i + 1;
        } else {
            let x: Binary64 = right[j];
            proof {
                let px = pr[j as int];
                assert(right@[j as int] == s[px]);
                assert forall|a: int| i <= a < pl.len() implies precedes(s, px, #[trigger] pl[a]) by {
                    assert(left@[i as int] == s[pl[i as int]]);
                    if a > i {
                        assert(precedes(s, pl[i as int], pl[a]));
                    }
                }
                assert forall|b: int| j < b < pr.len() implies precedes(s, px, #[trigger] pr[b]) by {
                    assert(precedes(s, pr[j as int], pr[b]));
                }
                p = p.push(px);
            }
            merged.push(x);
            j = j + 1;
        }
    }
    (merged, Ghost(p))
}

/// Sorts the positions `lo..hi` of `nums` into a new vector.
fn sort_range(nums: &[Binary64], lo: usize, hi: usize) -> (out: (Vec<Binary64>, Ghost<Seq<int>>))
    requires
        lo <= hi <= nums@.len(),
    ensures
        arranges(nums@, lo as int, hi as int, out.0@, out.1@),
    decreases hi - lo,
{
    if hi - lo == 0 {
        (Vec::new(), Ghost(Seq::empty()))
    } else if hi - lo == 1 {
        let mut single: Vec<Binary64> = Vec::new();
        single.push(nums[lo]);
        let ghost p: Seq<int> = Seq::empty().push(lo as int);
        (single, Ghost(p))
    } else {
        let mid: usize = lo + (hi - lo) / 2;
        let (left, Ghost(pl)) = sort_range(nums, lo, mid);
        let (right, Ghost(pr)) = sort_range(nums, mid, hi);
        merge(
            &left,
            &right,
            Ghost(nums@),
            Ghost(lo as int),
            Ghost(mid as int),
            Ghost(hi as int),
            Ghost(pl),
            Ghost(pr),
        )
    }
}

/// Returns the elements of `nums` in ascending order, equal values in the
/// order in which `nums` holds them. `nums` itself is left as it is.
pub fn sorted_copy(nums: &[Binary64]) -> (sorted: Vec<Binary64>)
    requires
        all_numbers(nums@),
    ensures
        sorted@ == ascending(nums@),
{
    let (sorted, Ghost(p)) = sort_range(nums, 0, nums.len());
    proof {
        lemma_arrangement_ranks(nums@, sorted@, p);
    }
    sorted
}

} // verus!
