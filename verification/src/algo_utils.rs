//! Sorting by index, ranks, medians, and the two orders of an edge list.

use vstd::prelude::*;
use crate::abscissa::Abscissa;
use crate::ranking::{
    all_valid, arranged, are_inverse, comes_before, is_ascending, is_rank_array, is_sorted_order,
    lemma_comes_before_is_total_order, lemma_inverse_of_sorted_order, lemma_rank_array_unique,
    lemma_sorted_order_unique, rank_order, sorted_order,
};
use crate::sort_key::SortKey;

verus! {

/// Tests whether index `i` stands before index `j` in the ascending order.
fn index_comes_before<T: SortKey>(array: &[T], i: usize, j: usize) -> (b: bool)
    requires
        all_valid(array@),
        i < array.len(),
        j < array.len(),
    ensures
        b == comes_before(array@, i as int, j as int),
{
    if array[i].is_before(&array[j]) {
        true
    } else if array[j].is_before(&array[i]) {
        false
    } else {
        i < j
    }
}

/// Merges two ascending lists of indices that share no index into one.
fn merge_orders<T: SortKey>(array: &[T], left: &Vec<usize>, right: &Vec<usize>) -> (merged: Vec<usize>)
    requires
        all_valid(array@),
        is_ascending(array@, left@),
        is_ascending(array@, right@),
        forall|a: int, b: int| 0 <= a < left.len() && 0 <= b < right.len() ==> left[a] != right[b],
    ensures
        is_ascending(array@, merged@),
        merged.len() == left.len() + right.len(),
        forall|x: usize| merged@.contains(x) <==> left@.contains(x) || right@.contains(x),
{
    let mut merged: Vec<usize> = Vec::new();
    let mut i: usize = 0;
    let mut j: usize = 0;
    while i < left.len() || j < right.len()
        invariant
            all_valid(array@),
            is_ascending(array@, left@),
            is_ascending(array@, right@),
            forall|a: int, b: int| 0 <= a < left.len() && 0 <= b < right.len() ==> left[a] != right[b],
            i <= left.len(),
            j <= right.len(),
            merged.len() == i + j,
            is_ascending(array@, merged@),
            forall|a: int, b: int|
                0 <= a < merged.len() && i <= b < left.len() ==> comes_before(
                    array@,
                    #[trigger] merged[a] as int,
                    #[trigger] left[b] as int,
                ),
            forall|a: int, b: int|
                0 <= a < merged.len() && j <= b < right.len() ==> comes_before(
                    array@,
                    #[trigger] merged[a] as int,
                    #[trigger] right[b] as int,
                ),
            forall|x: usize|
                merged@.contains(x) <==> left@.take(i as int).contains(x) || right@.take(j as int).contains(x),
        decreases left.len() - i + (right.len() - j),
    {
        let take_left = if i == left.len() {
            false
        } else if j == right.len() {
            true
        } else {
            !index_comes_before(array, right[j], left[i])
        };
        let ghost before = merged@;
        if take_left {
            let x = left[i];
            proof {
                assert forall|b: int| j <= b < right.len() implies comes_before(
                    array@,
                    x as int,
                    #[trigger] right[b] as int,
                ) by {
                    lemma_comes_before_is_total_order(array@, x as int, right[j as int] as int, right[b] as int);
                }
                assert(left@.take(i + 1) == left@.take(i as int).push(x));
            }
            merged.push(x);
            i += 1;
        } else {
            let x = right[j];
            proof {
                assert forall|b: int| i <= b < left.len() implies comes_before(
                    array@,
                    x as int,
                    #[trigger] left[b] as int,
                ) by {
                    lemma_comes_before_is_total_order(array@, x as int, left[i as int] as int, left[b] as int);
                }
                assert(right@.take(j + 1) == right@.take(j as int).push(x));
            }
            merged.push(x);
            j += 1;
        }
        proof {
            let x = merged@.last();
            assert(merged@ == before.push(x));
            assert forall|y: usize| #[trigger] before.push(x).contains(y) <==> before.contains(y) || y == x by {
                lemma_push_contains(before, x, y);
            }
            if take_left {
                assert forall|y: usize| #[trigger]
                    left@.take(i as int).contains(y) <==> left@.take(i - 1).contains(y) || y == x by {
                    lemma_push_contains(left@.take(i - 1), x, y);
                }
            } else {
                assert forall|y: usize| #[trigger]
                    right@.take(j as int).contains(y) <==> right@.take(j - 1).contains(y) || y == x by {
                    lemma_push_contains(right@.take(j - 1), x, y);
                }
            }
        }
    }
    proof {
        assert(left@.take(i as int) == left@);
        assert(right@.take(j as int) == right@);
    }
    merged
}

/// What a sequence contains after one more element is appended.
proof fn lemma_push_contains(s: Seq<usize>, x: usize, y: usize)
    ensures
        s.push(x).contains(y) <==> s.contains(y) || y == x,
{
    let t = s.push(x);
    if s.contains(y) {
        let k = choose|k: int| 0 <= k < s.len() && s[k] == y;
        assert(t[k] == y);
    }
    if y == x {
        assert(t[s.len() as int] == y);
    }
    if t.contains(y) {
        let k = choose|k: int| 0 <= k < t.len() && t[k] == y;
        if k < s.len() {
            assert(s[k] == y);
        }
    }
}

/// The indices from `lo` up to `hi`, in the ascending order of `array`.
fn sort_range<T: SortKey>(array: &[T], lo: usize, hi: usize) -> (order: Vec<usize>)
    requires
        all_valid(array@),
        lo <= hi <= array.len(),
    ensures
        is_ascending(array@, order@),
        order.len() == hi - lo,
        forall|x: usize| order@.contains(x) <==> lo <= x < hi,
    decreases hi - lo,
{
    if hi - lo == 0 {
        Vec::new()
    } else if hi - lo == 1 {
        let mut order: Vec<usize> = Vec::new();
        order.push(lo);
        proof {
            assert(order@ == Seq::<usize>::empty().push(lo));
            assert forall|x: usize| order@.contains(x) <==> lo <= x < hi by {
                lemma_push_contains(Seq::<usize>::empty(), lo, x);
            }
        }
        order
    } else {
        let mid = lo + (hi - lo) / 2;
        let left = sort_range(array, lo, mid);
        let right = sort_range(array, mid, hi);
        proof {
            assert forall|a: int, b: int| 0 <= a < left.len() && 0 <= b < right.len() implies left[a]
                != right[b] by {
                assert(left@.contains(left[a]));
                assert(right@.contains(right[b]));
            }
        }
        merge_orders(array, &left, &right)
    }
}

/// The indices of `array` by ascending value: the first points to the smallest
/// element, the second to the second smallest, and so on. Equal elements keep
/// the order of their indices.
pub fn sorted_index_array<T: SortKey>(array: &[T]) -> (indices: Vec<usize>)
    requires
        all_valid(array@),
    ensures
        is_sorted_order(array@, indices@),
        indices@ == sorted_order(array@),
{
    let indices = sort_range(array, 0, array.len());
    proof {
        lemma_sorted_order_unique(array@, indices@);
    }
    indices
}

/// The rank of every element of `array`: `ranks[i]` is the place of the
/// element at index `i` in ascending order, the smallest having rank 0.
pub fn rank_index_array<T: SortKey>(array: &[T]) -> (ranks: Vec<usize>)
    requires
        all_valid(array@),
    ensures
        is_rank_array(array@, ranks@),
        ranks@ == rank_order(array@),
        are_inverse(sorted_order(array@), ranks@),
{
    let indices = sorted_index_array(array);
    let n = array.len();
    let mut ranks: Vec<usize> = Vec::new();
    while ranks.len() < n
        invariant
            ranks.len() <= n,
        decreases n - ranks.len(),
    {
        ranks.push(0);
    }
    let mut rank: usize = 0;
    while rank < n
        invariant
            n == array.len(),
            ranks.len() == n,
            rank <= n,
            all_valid(array@),
            is_sorted_order(array@, indices@),
            forall|k: int| 0 <= k < rank ==> ranks[#[trigger] indices[k] as int] == k,
        decreases n - rank,
    {
        proof {
            assert forall|k: int| 0 <= k < rank implies #[trigger] indices[k] != indices[rank as int] by {
                lemma_comes_before_is_total_order(
                    array@,
                    indices[k] as int,
                    indices[rank as int] as int,
                    indices[k] as int,
                );
                assert(comes_before(array@, indices[k] as int, indices[rank as int] as int));
            }
        }
        ranks.set(indices[rank], rank);
        rank += 1;
    }
    proof {
        lemma_inverse_of_sorted_order(array@, indices@, ranks@);
        lemma_rank_array_unique(array@, ranks@);
        lemma_sorted_order_unique(array@, indices@);
    }
    ranks
}

/// The median of a sorted sequence: nothing for an empty one, the middle
/// element for an odd length, the midpoint of the two middle elements for an
/// even length.
pub open spec fn median_of(s: Seq<Abscissa>) -> Option<Abscissa> {
    let half = s.len() as int / 2;
    if s.len() == 0 {
        None
    } else if s.len() % 2 == 1 {
        Some(s[half])
    } else {
        Some(s[half - 1].midpoint(&s[half]))
    }
}

/// The median of a sorted array, if it has one: `None` for an empty array,
/// the middle element for an odd length, and `(mid1 + mid2) / 2` for an even
/// length.
pub fn sorted_array_median(array: &[Abscissa]) -> (median: Option<Abscissa>)
    requires
        forall|i: int| 0 <= i < array@.len() ==> (#[trigger] array@[i]).within_limit(),
    ensures
        median == median_of(array@),
        median matches Some(middle) ==> middle.wf(),
{
    let len = array.len();
    if len == 0 {
        None
    } else if len % 2 == 1 {
        Some(array[len / 2])
    } else {
        let mid1 = array[len / 2 - 1];
        let mid2 = array[len / 2];
        Some(mid1.average_with(&mid2))
    }
}

/// The elements of `items` in the order in which `order` lists their indices.
pub fn arrange<T: Copy>(items: &Vec<T>, order: &Vec<usize>) -> (result: Vec<T>)
    requires
        forall|k: int| 0 <= k < order.len() ==> (#[trigger] order[k]) < items.len(),
    ensures
        result@ == arranged(items@, order@),
{
    let mut result: Vec<T> = Vec::new();
    let mut k: usize = 0;
    while k < order.len()
        invariant
            k <= order.len(),
            result.len() == k,
            forall|k: int| 0 <= k < order.len() ==> (#[trigger] order[k]) < items.len(),
            forall|l: int| 0 <= l < k ==> result[l] == items[order[l] as int],
        decreases order.len() - k,
    {
        result.push(items[order[k]]);
        k += 1;
    }
    assert(result@ =~= arranged(items@, order@));
    result
}

/// The smaller endpoint of an edge: where a line swept across the layers
/// first meets it.
pub open spec fn appearance(edge: (u64, u64)) -> u64 {
    if edge.0 <= edge.1 {
        edge.0
    } else {
        edge.1
    }
}

/// The appearance of every edge of a list.
pub open spec fn appearances(edges: Seq<(u64, u64)>) -> Seq<u64> {
    Seq::new(edges.len(), |k: int| appearance(edges[k]))
}

/// Sorts edges in lexicographic order: by the first node index, then by the
/// second.
pub fn edges_lexicographic_sort(edges: &mut Vec<(u64, u64)>)
    ensures
        final(edges)@ == arranged(old(edges)@, sorted_order(old(edges)@)),
        is_sorted_order(old(edges)@, sorted_order(old(edges)@)),
        forall|k: int, l: int|
            #![trigger final(edges)@[k], final(edges)@[l]]
            0 <= k <= l < final(edges)@.len() ==> !final(edges)@[l].precedes(&final(edges)@[k]),
{
    let order = sorted_index_array(edges.as_slice());
    let sorted = arrange(edges, &order);
    proof {
        assert forall|k: int, l: int|
            #![trigger sorted@[k], sorted@[l]]
            0 <= k <= l < sorted@.len() implies !sorted@[l].precedes(&sorted@[k]) by {
            if k < l {
                assert(comes_before(edges@, order@[k] as int, order@[l] as int));
            }
        }
    }
    *edges = sorted;
}

/// Sorts edges by their smaller endpoint; edges with the same smaller
/// endpoint keep their order.
///
/// This is the order in which a line swept across the two layers meets the
/// edges.
pub fn edges_min_index_sort(edges: &mut Vec<(u64, u64)>)
    ensures
        final(edges)@ == arranged(old(edges)@, sorted_order(appearances(old(edges)@))),
        is_sorted_order(appearances(old(edges)@), sorted_order(appearances(old(edges)@))),
        forall|k: int, l: int|
            0 <= k <= l < final(edges)@.len() ==> appearance(#[trigger] final(edges)@[k]) <= appearance(
                #[trigger] final(edges)@[l],
            ),
{
    let mut keys: Vec<u64> = Vec::new();
    let mut k: usize = 0;
    while k < edges.len()
        invariant
            k <= edges.len(),
            keys.len() == k,
            forall|l: int| 0 <= l < k ==> keys[l] == appearance(edges[l]),
        decreases edges.len() - k,
    {
        let edge = edges[k];
        keys.push(if edge.0 <= edge.1 { edge.0 } else { edge.1 });
        k += 1;
    }
    assert(keys@ =~= appearances(edges@));
    let order = sorted_index_array(keys.as_slice());
    let sorted = arrange(edges, &order);
    proof {
        assert forall|k: int, l: int| 0 <= k <= l < sorted@.len() implies appearance(#[trigger] sorted@[k])
            <= appearance(#[trigger] sorted@[l]) by {
            if k < l {
                assert(comes_before(keys@, order@[k] as int, order@[l] as int));
            }
        }
    }
    *edges = sorted;
}

} // verus!
