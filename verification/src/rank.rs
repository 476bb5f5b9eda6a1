//! The ascending stable order of a sequence of doubles, stated by ranks.
//!
//! Position `i` of a sequence comes before position `j` when its value is
//! smaller, or equal and found earlier. The rank of a position is the number
//! of positions that come before it: the index at which its value stands once
//! the sequence is sorted in ascending order without reordering equal values.

use crate::binary64::Binary64;
use vstd::prelude::*;
use vstd::seq_lib::group_to_multiset_ensures;
use vstd::set_lib::*;

verus! {

/// No element of `s` is a NaN.
pub open spec fn all_numbers(s: Seq<Binary64>) -> bool {
    forall|i: int| 0 <= i < s.len() ==> !(#[trigger] s[i]).spec_is_nan()
}

/// Position `i` comes before position `j` in the ascending stable order.
pub open spec fn precedes(s: Seq<Binary64>, i: int, j: int) -> bool {
    s[i].order_key() < s[j].order_key() || (s[i].order_key() == s[j].order_key() && i < j)
}

/// The positions below `m` that come before position `i`.
pub open spec fn predecessors_below(s: Seq<Binary64>, i: int, m: int) -> Set<int> {
    Set::new(|j: int| 0 <= j < m && precedes(s, j, i))
}

/// The number of positions of `s` that come before position `i`.
pub open spec fn rank(s: Seq<Binary64>, i: int) -> nat {
    predecessors_below(s, i, s.len() as int).len()
}

/// The number of positions below `m` that come before position `i`, counted
/// one position at a time.
pub open spec fn count_preceding(s: Seq<Binary64>, i: int, m: int) -> nat
    decreases m,
{
    if m <= 0 {
        0
    } else {
        count_preceding(s, i, m - 1) + if precedes(s, m - 1, i) {
            1nat
        } else {
            0nat
        }
    }
}

/// The position of `s` that has rank `k`.
pub open spec fn position_of_rank(s: Seq<Binary64>, k: int) -> int {
    choose|i: int| 0 <= i < s.len() && rank(s, i) == k
}

/// The elements of `s` in ascending stable order: index `k` holds the element
/// whose position has rank `k`.
pub open spec fn ascending(s: Seq<Binary64>) -> Seq<Binary64> {
    Seq::new(s.len(), |k: int| s[position_of_rank(s, k)])
}

/// `p` lists the positions `lo..hi` of `s` in ascending stable order, and `t`
/// holds the values found at them.
pub open spec fn arranges(s: Seq<Binary64>, lo: int, hi: int, t: Seq<Binary64>, p: Seq<int>) -> bool {
    &&& p.len() == hi - lo
    &&& t.len() == hi - lo
    &&& forall|k: int| 0 <= k < p.len() ==> lo <= #[trigger] p[k] < hi && t[k] == s[p[k]]
    &&& forall|a: int, b: int|
        0 <= a < b < p.len() ==> precedes(s, #[trigger] p[a], #[trigger] p[b])
}

/// The predecessors below `m` are finitely many, and counting them one
/// position at a time gives their number.
pub proof fn lemma_count_preceding(s: Seq<Binary64>, i: int, m: int)
    requires
        0 <= m,
    ensures
        predecessors_below(s, i, m).finite(),
        predecessors_below(s, i, m).len() == count_preceding(s, i, m),
    decreases m,
{
    if m == 0 {
        assert(predecessors_below(s, i, m) =~= Set::empty());
    } else {
        lemma_count_preceding(s, i, m - 1);
        let before = predecessors_below(s, i, m - 1);
        if precedes(s, m - 1, i) {
            assert(predecessors_below(s, i, m) =~= before.insert(m - 1));
        } else {
            assert(predecessors_below(s, i, m) =~= before);
        }
    }
}

/// The rank of a position is the count of its predecessors.
pub proof fn lemma_rank_counts(s: Seq<Binary64>, i: int)
    ensures
        rank(s, i) == count_preceding(s, i, s.len() as int),
{
    lemma_count_preceding(s, i, s.len() as int);
}

/// A rank is an index of the sequence.
pub proof fn lemma_rank_in_bounds(s: Seq<Binary64>, i: int)
    requires
        0 <= i < s.len(),
    ensures
        rank(s, i) < s.len(),
{
    let n = s.len() as int;
    let all = set_int_range(0, n);
    lemma_int_range(0, n);
    assert(predecessors_below(s, i, n).subset_of(all.remove(i)));
    lemma_len_subset(predecessors_below(s, i, n), all.remove(i));
}

/// The position that comes first has the smaller rank.
pub proof fn lemma_rank_follows_order(s: Seq<Binary64>, i: int, j: int)
    requires
        0 <= i < s.len(),
        0 <= j < s.len(),
        precedes(s, i, j),
    ensures
        rank(s, i) < rank(s, j),
{
    let n = s.len() as int;
    lemma_count_preceding(s, j, n);
    let before_j = predecessors_below(s, j, n);
    assert(before_j.contains(i));
    assert(predecessors_below(s, i, n).subset_of(before_j.remove(i)));
    lemma_len_subset(predecessors_below(s, i, n), before_j.remove(i));
}

/// No two positions share a rank.
pub proof fn lemma_rank_injective(s: Seq<Binary64>, i: int, j: int)
    requires
        0 <= i < s.len(),
        0 <= j < s.len(),
        rank(s, i) == rank(s, j),
    ensures
        i == j,
{
    if precedes(s, i, j) {
        lemma_rank_follows_order(s, i, j);
    } else if precedes(s, j, i) {
        lemma_rank_follows_order(s, j, i);
    }
}

/// A sequence of `n` different indices below `n` holds every index below `n`.
pub proof fn lemma_distinct_indices_cover(p: Seq<int>, n: int)
    requires
        p.len() == n,
        p.no_duplicates(),
        forall|k: int| 0 <= k < n ==> 0 <= #[trigger] p[k] < n,
    ensures
        forall|i: int| 0 <= i < n ==> p.contains(i),
{
    let all = set_int_range(0, n);
    lemma_int_range(0, n);
    p.unique_seq_to_set();
    assert(p.to_set().subset_of(all));
    lemma_len_subset(p.to_set(), all);
    lemma_subset_equality(p.to_set(), all);
    assert forall|i: int| 0 <= i < n implies p.contains(i) by {
        assert(all.contains(i));
    }
}

/// In an arrangement of the whole sequence, the position listed at index `k`
/// has rank `k`, and every position is listed.
pub proof fn lemma_arrangement_ranks(s: Seq<Binary64>, t: Seq<Binary64>, p: Seq<int>)
    requires
        arranges(s, 0, s.len() as int, t, p),
    ensures
        forall|k: int| 0 <= k < s.len() ==> rank(s, #[trigger] p[k]) == k,
        forall|i: int| 0 <= i < s.len() ==> p.contains(i),
        t == ascending(s),
{
    let n = s.len() as int;
    assert(p.no_duplicates()) by {
        assert forall|a: int, b: int| 0 <= a < n && 0 <= b < n && a != b implies p[a] != p[b] by {
            if a < b {
                assert(precedes(s, p[a], p[b]));
            } else {
                assert(precedes(s, p[b], p[a]));
            }
        }
    }
    lemma_distinct_indices_cover(p, n);
    assert forall|k: int| 0 <= k < n implies rank(s, #[trigger] p[k]) == k by {
        let head = p.subrange(0, k);
        assert(head.no_duplicates());
        head.unique_seq_to_set();
        assert(predecessors_below(s, p[k], n) =~= head.to_set()) by {
            assert forall|j: int| predecessors_below(s, p[k], n).contains(j) implies head.to_set().contains(j) by {
                assert(p.contains(j));
                let a = choose|a: int| 0 <= a < n && p[a] == j;
                if a > k {
                    assert(precedes(s, p[k], p[a]));
                }
                assert(a < k);
                assert(head[a] == j);
            }
            assert forall|j: int| head.to_set().contains(j) implies predecessors_below(s, p[k], n).contains(j) by {
                let a = choose|a: int| 0 <= a < head.len() && head[a] == j;
                assert(p[a] == j);
                assert(precedes(s, p[a], p[k]));
            }
        }
    }
    assert forall|k: int| 0 <= k < n implies t[k] == #[trigger] ascending(s)[k] by {
        assert(rank(s, p[k]) == k);
        lemma_rank_injective(s, p[k], position_of_rank(s, k));
    }
    assert(t =~= ascending(s));
}

/// Every index of the sequence is the rank of exactly one position.
pub proof fn lemma_position_of_rank(s: Seq<Binary64>, k: int)
    requires
        0 <= k < s.len(),
    ensures
        0 <= position_of_rank(s, k) < s.len(),
        rank(s, position_of_rank(s, k)) == k,
        forall|i: int| 0 <= i < s.len() && rank(s, i) == k ==> i == position_of_rank(s, k),
{
    let n = s.len() as int;
    let ranks = Seq::new(s.len(), |i: int| rank(s, i) as int);
    assert forall|i: int| 0 <= i < n implies 0 <= #[trigger] ranks[i] < n by {
        lemma_rank_in_bounds(s, i);
    }
    assert forall|i: int, j: int| 0 <= i < n && 0 <= j < n && i != j implies ranks[i] != ranks[j] by {
        if ranks[i] == ranks[j] {
            lemma_rank_injective(s, i, j);
        }
    }
    lemma_distinct_indices_cover(ranks, n);
    assert(ranks.contains(k));
    let i = choose|i: int| 0 <= i < n && ranks[i] == k;
    assert(rank(s, i) == k);
    assert forall|j: int| 0 <= j < s.len() && rank(s, j) == k implies j == position_of_rank(s, k) by {
        lemma_rank_injective(s, j, position_of_rank(s, k));
    }
}

/// Each element stands in the ascending order at the index that is the rank
/// of its position.
pub proof fn lemma_ascending_places(s: Seq<Binary64>, i: int)
    requires
        0 <= i < s.len(),
    ensures
        rank(s, i) < s.len(),
        ascending(s)[rank(s, i) as int] == s[i],
{
    lemma_rank_in_bounds(s, i);
    lemma_position_of_rank(s, rank(s, i) as int);
}

/// The ascending order holds only elements of the sequence.
pub proof fn lemma_ascending_holds_elements(s: Seq<Binary64>, k: int)
    requires
        0 <= k < s.len(),
    ensures
        s.contains(ascending(s)[k]),
{
    lemma_position_of_rank(s, k);
}

/// The keys of the ascending order never decrease, and where two of them are
/// equal, the element found earlier in the sequence comes first.
pub proof fn lemma_ascending_is_sorted(s: Seq<Binary64>, a: int, b: int)
    requires
        0 <= a < b < s.len(),
    ensures
        ascending(s)[a].order_key() <= ascending(s)[b].order_key(),
        precedes(s, position_of_rank(s, a), position_of_rank(s, b)),
{
    lemma_position_of_rank(s, a);
    lemma_position_of_rank(s, b);
    let i = position_of_rank(s, a);
    let j = position_of_rank(s, b);
    if precedes(s, j, i) {
        lemma_rank_follows_order(s, j, i);
    }
}

/// A sequence read through a list of all its positions, each taken once,
/// holds the same elements as often.
proof fn lemma_rearranged_multiset(s: Seq<Binary64>, t: Seq<Binary64>, q: Seq<int>)
    requires
        q.len() == s.len(),
        t.len() == s.len(),
        q.no_duplicates(),
        forall|k: int| 0 <= k < q.len() ==> 0 <= #[trigger] q[k] < s.len() && t[k] == s[q[k]],
    ensures
        t.to_multiset() == s.to_multiset(),
    decreases s.len(),
{
    broadcast use group_to_multiset_ensures;

    if s.len() == 0 {
        assert(t =~= s);
    } else {
        let n = s.len() as int;
        let i = q[n - 1];
        let rest = s.remove(i);
        let shifted = Seq::new(
            (n - 1) as nat,
            |k: int|
                if q[k] > i {
                    q[k] - 1
                } else {
                    q[k]
                },
        );
        assert forall|k: int| 0 <= k < n - 1 implies 0 <= #[trigger] shifted[k] < rest.len()
            && t.drop_last()[k] == rest[shifted[k]] by {
            assert(q[k] != q[n - 1]);
        }
        assert forall|a: int, b: int| 0 <= a < n - 1 && 0 <= b < n - 1 && a != b implies shifted[a]
            != shifted[b] by {
            assert(q[a] != q[b]);
            assert(q[a] != q[n - 1]);
            assert(q[b] != q[n - 1]);
        }
        lemma_rearranged_multiset(rest, t.drop_last(), shifted);
        assert(t =~= t.drop_last().push(s[i]));
        assert(s.contains(s[i]));
        assert(t.to_multiset() =~= s.to_multiset());
    }
}

/// The ascending order holds each element as often as the sequence does.
pub proof fn lemma_ascending_is_permutation(s: Seq<Binary64>)
    ensures
        ascending(s).len() == s.len(),
        ascending(s).to_multiset() == s.to_multiset(),
{
    let q = Seq::new(s.len(), |k: int| position_of_rank(s, k));
    assert forall|k: int| 0 <= k < q.len() implies 0 <= #[trigger] q[k] < s.len() && ascending(s)[k]
        == s[q[k]] by {
        lemma_position_of_rank(s, k);
    }
    assert forall|a: int, b: int| 0 <= a < q.len() && 0 <= b < q.len() && a != b implies q[a]
        != q[b] by {
        lemma_position_of_rank(s, a);
        lemma_position_of_rank(s, b);
    }
    lemma_rearranged_multiset(s, ascending(s), q);
}

} // verus!
