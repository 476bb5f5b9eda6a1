//! The median: the middle element of the ascending order, the lower of the
//! two central elements where the length is even.

use crate::binary64::Binary64;
use crate::rank::{all_numbers, ascending, lemma_ascending_holds_elements, lemma_ascending_places, rank};
use crate::sort::sorted_copy;
use vstd::prelude::*;

verus! {

/// The index of the median in the ascending order of `n` elements: the
/// middle index where `n` is odd, the lower of the two central indices where
/// `n` is even.
pub open spec fn median_index(n: nat) -> int {
    let middle = n as int / 2;
    if n % 2 == 0 {
        middle - 1
    } else {
        middle
    }
}

/// The median of `s`: none for the empty sequence, else the element at the
/// median index of the ascending order. No average is taken.
pub open spec fn median_of(s: Seq<Binary64>) -> Option<Binary64> {
    if s.len() == 0 {
        None
    } else {
        Some(ascending(s)[median_index(s.len())])
    }
}

/// The median of a sequence that is not empty is one of its elements.
pub proof fn lemma_median_is_element(s: Seq<Binary64>)
    requires
        s.len() > 0,
    ensures
        median_of(s) is Some,
        s.contains(median_of(s)->0),
{
    lemma_ascending_holds_elements(s, median_index(s.len()));
}

/// The element whose position has the median index for its rank is the
/// median.
pub proof fn lemma_median_at(s: Seq<Binary64>, i: int)
    requires
        0 <= i < s.len(),
        rank(s, i) == median_index(s.len()),
    ensures
        median_of(s) == Some(s[i]),
{
    lemma_ascending_places(s, i);
}

/// Whether some element of `nums` is a NaN.
pub fn contains_nan(nums: &[Binary64]) -> (found: bool)
    ensures
        found == !all_numbers(nums@),
{
    let mut i: usize = 0;
    while i < nums.len()
        invariant
            i <= nums@.len(),
            forall|k: int| 0 <= k < i ==> !(#[trigger] nums@[k]).spec_is_nan(),
        decreases nums@.len() - i,
    {
        if nums[i].is_nan() {
            return true;
        }
        i = i + 1;
    }
    false
}

/// The median of `nums`, which is left as it is: the order is taken on a
/// sorted copy.
pub fn median(nums: &[Binary64]) -> (r: Option<Binary64>)
    requires
        all_numbers(nums@),
    ensures
        r == median_of(nums@),
        r is Some <==> nums@.len() > 0,
        r matches Some(v) ==> nums@.contains(v),
{
    let sorted: Vec<Binary64> = sorted_copy(nums);
    let n: usize = sorted.len();
    if n < 1 {
        None
    } else {
        proof {
            lemma_median_is_element(nums@);
        }
        let middle: usize = n / 2;
        if n % 2 == 0 {
            Some(sorted[middle - 1])
        } else {
            Some(sorted[middle])
        }
    }
}

} // verus!
