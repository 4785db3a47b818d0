//! The ascending order of a sequence of keys: its sorted index array and its
//! rank array, and why each sequence has exactly one of either.

use vstd::prelude::*;
use crate::sort_key::SortKey;

verus! {

/// Every element of `s` is a valid key.
pub open spec fn all_valid<T: SortKey>(s: Seq<T>) -> bool {
    forall|i: int| 0 <= i < s.len() ==> (#[trigger] s[i]).valid()
}

/// In the ascending order of `s`, the element at index `i` stands before the
/// one at index `j`: its key precedes, or the keys tie and `i` is the smaller
/// index.
pub open spec fn comes_before<T: SortKey>(s: Seq<T>, i: int, j: int) -> bool {
    s[i].precedes(&s[j]) || (!s[j].precedes(&s[i]) && i < j)
}

/// `order` lists indices of `s`, each before all that follow it.
pub open spec fn is_ascending<T: SortKey>(s: Seq<T>, order: Seq<usize>) -> bool {
    &&& forall|k: int| 0 <= k < order.len() ==> (#[trigger] order[k]) < s.len()
    &&& forall|k: int, l: int|
        0 <= k < l < order.len() ==> comes_before(s, #[trigger] order[k] as int, #[trigger] order[l] as int)
}

/// `order` is the sorted index array of `s`: it lists every index of `s` once,
/// by ascending key, and indices of equal keys by ascending index.
pub open spec fn is_sorted_order<T: SortKey>(s: Seq<T>, order: Seq<usize>) -> bool {
    &&& order.len() == s.len() <= usize::MAX
    &&& is_ascending(s, order)
    &&& forall|x: usize| x < s.len() ==> #[trigger] order.contains(x)
}

/// `ranks` is the rank array of `s`: `ranks[i]` is the place of index `i` in
/// the ascending order of `s`, the smallest element having rank 0.
pub open spec fn is_rank_array<T: SortKey>(s: Seq<T>, ranks: Seq<usize>) -> bool {
    &&& ranks.len() == s.len() <= usize::MAX
    &&& forall|i: int| 0 <= i < ranks.len() ==> (#[trigger] ranks[i]) < s.len()
    &&& forall|i: int, j: int|
        0 <= i < ranks.len() && 0 <= j < ranks.len() ==> (#[trigger] ranks[i] < #[trigger] ranks[j]
            <==> comes_before(s, i, j))
    &&& forall|k: usize| k < s.len() ==> #[trigger] ranks.contains(k)
}

/// `ranks` lists every index below its length once.
pub open spec fn is_permutation(ranks: Seq<usize>) -> bool {
    &&& ranks.len() <= usize::MAX
    &&& forall|i: int| 0 <= i < ranks.len() ==> (#[trigger] ranks[i]) < ranks.len()
    &&& forall|i: int, j: int| 0 <= i < j < ranks.len() ==> #[trigger] ranks[i] != #[trigger] ranks[j]
    &&& forall|k: usize| k < ranks.len() ==> #[trigger] ranks.contains(k)
}

/// The sorted index array of `s`.
pub open spec fn sorted_order<T: SortKey>(s: Seq<T>) -> Seq<usize> {
    choose|order: Seq<usize>| is_sorted_order(s, order)
}

/// The rank array of `s`.
pub open spec fn rank_order<T: SortKey>(s: Seq<T>) -> Seq<usize> {
    choose|ranks: Seq<usize>| is_rank_array(s, ranks)
}

/// The elements of `s` in the order in which `order` lists their indices.
pub open spec fn arranged<T>(s: Seq<T>, order: Seq<usize>) -> Seq<T> {
    Seq::new(order.len(), |k: int| s[order[k] as int])
}

/// `order` and `ranks` are permutations of the indices below their length,
/// each the inverse of the other.
pub open spec fn are_inverse(order: Seq<usize>, ranks: Seq<usize>) -> bool {
    &&& order.len() == ranks.len()
    &&& forall|k: int| 0 <= k < order.len() ==> (#[trigger] order[k]) < ranks.len() && ranks[order[k] as int] == k
    &&& forall|i: int| 0 <= i < ranks.len() ==> (#[trigger] ranks[i]) < order.len() && order[ranks[i] as int] == i
}

/// `comes_before` is a strict total order on the indices of `s`.
pub proof fn lemma_comes_before_is_total_order<T: SortKey>(s: Seq<T>, i: int, j: int, k: int)
    requires
        all_valid(s),
        0 <= i < s.len(),
        0 <= j < s.len(),
        0 <= k < s.len(),
    ensures
        !comes_before(s, i, i),
        i != j ==> (comes_before(s, i, j) <==> !comes_before(s, j, i)),
        comes_before(s, i, j) && comes_before(s, j, k) ==> comes_before(s, i, k),
{
    T::lemma_strict_weak_order(&s[i], &s[j], &s[k]);
    T::lemma_strict_weak_order(&s[j], &s[i], &s[k]);
    T::lemma_strict_weak_order(&s[i], &s[j], &s[i]);
    T::lemma_strict_weak_order(&s[i], &s[k], &s[j]);
    T::lemma_strict_weak_order(&s[k], &s[j], &s[i]);
    T::lemma_strict_weak_order(&s[j], &s[k], &s[i]);
    T::lemma_strict_weak_order(&s[k], &s[i], &s[j]);
}

/// Two sorted index arrays of one sequence agree on their first `n` entries.
proof fn lemma_sorted_orders_agree<T: SortKey>(s: Seq<T>, a: Seq<usize>, b: Seq<usize>, n: int)
    requires
        all_valid(s),
        is_sorted_order(s, a),
        is_sorted_order(s, b),
        0 <= n <= s.len(),
    ensures
        forall|k: int| 0 <= k < n ==> a[k] == b[k],
    decreases n,
{
    if n > 0 {
        lemma_sorted_orders_agree(s, a, b, n - 1);
        let k = n - 1;
        let x = a[k];
        let y = b[k];
        assert(b.contains(x));
        let m = choose|m: int| 0 <= m < b.len() && b[m] == x;
        assert(a.contains(y));
        let w = choose|w: int| 0 <= w < a.len() && a[w] == y;
        lemma_comes_before_is_total_order(s, x as int, y as int, x as int);
        lemma_comes_before_is_total_order(s, y as int, x as int, y as int);
        if m < k {
            assert(comes_before(s, a[m] as int, a[k] as int));
        } else if m > k {
            assert(comes_before(s, b[k] as int, b[m] as int));
            if w < k {
                assert(comes_before(s, b[w] as int, b[k] as int));
            } else if w > k {
                assert(comes_before(s, a[k] as int, a[w] as int));
            }
        }
    }
}

/// A sequence has one sorted index array.
pub proof fn lemma_sorted_order_unique<T: SortKey>(s: Seq<T>, order: Seq<usize>)
    requires
        all_valid(s),
        is_sorted_order(s, order),
    ensures
        order == sorted_order(s),
{
    lemma_sorted_orders_agree(s, order, sorted_order(s), s.len() as int);
    assert(order =~= sorted_order(s));
}

/// The inverse of the sorted index array is the rank array.
pub proof fn lemma_inverse_of_sorted_order<T: SortKey>(s: Seq<T>, order: Seq<usize>, ranks: Seq<usize>)
    requires
        all_valid(s),
        is_sorted_order(s, order),
        ranks.len() == s.len(),
        forall|k: int| 0 <= k < order.len() ==> ranks[#[trigger] order[k] as int] == k,
    ensures
        is_rank_array(s, ranks),
        are_inverse(order, ranks),
{
    assert forall|i: int| 0 <= i < ranks.len() implies (#[trigger] ranks[i]) < order.len() && order[ranks[i] as int]
        == i by {
        assert(order.contains(i as usize));
        let k = choose|k: int| 0 <= k < order.len() && order[k] == i as usize;
        assert(ranks[order[k] as int] == k);
    }
    assert forall|i: int, j: int| 0 <= i < ranks.len() && 0 <= j < ranks.len() implies (#[trigger] ranks[i]
        < #[trigger] ranks[j] <==> comes_before(s, i, j)) by {
        let k = ranks[i] as int;
        let l = ranks[j] as int;
        assert(order[k] == i && order[l] == j);
        lemma_comes_before_is_total_order(s, i, j, i);
        if k < l {
            assert(comes_before(s, order[k] as int, order[l] as int));
        } else if l < k {
            assert(comes_before(s, order[l] as int, order[k] as int));
        }
    }
    assert forall|k: usize| k < s.len() implies #[trigger] ranks.contains(k) by {
        assert(ranks[order[k as int] as int] == k);
    }
}

/// Two rank arrays of one sequence agree wherever one of them is below `n`.
proof fn lemma_rank_arrays_agree<T: SortKey>(s: Seq<T>, a: Seq<usize>, b: Seq<usize>, n: int)
    requires
        all_valid(s),
        is_rank_array(s, a),
        is_rank_array(s, b),
        0 <= n <= s.len(),
    ensures
        forall|i: int| 0 <= i < s.len() && a[i] < n ==> b[i] == a[i],
    decreases n,
{
    if n > 0 {
        lemma_rank_arrays_agree(s, a, b, n - 1);
        let k = (n - 1) as usize;
        assert forall|i: int| 0 <= i < s.len() && a[i] == k implies b[i] == k by {
            if b[i] < k {
                assert(a.contains(b[i]));
                let j = choose|j: int| 0 <= j < a.len() && a[j] == b[i];
                assert(b[j] == a[j]);
                lemma_comes_before_is_total_order(s, i, j, i);
                assert(!(b[i] < b[j]) && !(b[j] < b[i]));
            } else if b[i] > k {
                assert(b.contains(k));
                let j = choose|j: int| 0 <= j < b.len() && b[j] == k;
                assert(b[j] < b[i]);
                assert(comes_before(s, j, i));
                assert(a[j] < a[i]);
            }
        }
    }
}

/// A sequence has one rank array.
pub proof fn lemma_rank_array_unique<T: SortKey>(s: Seq<T>, ranks: Seq<usize>)
    requires
        all_valid(s),
        is_rank_array(s, ranks),
    ensures
        ranks == rank_order(s),
{
    lemma_rank_arrays_agree(s, ranks, rank_order(s), s.len() as int);
    assert(ranks =~= rank_order(s));
}

/// A rank array lists every rank once.
pub proof fn lemma_rank_array_is_permutation<T: SortKey>(s: Seq<T>, ranks: Seq<usize>)
    requires
        all_valid(s),
        is_rank_array(s, ranks),
    ensures
        is_permutation(ranks),
{
    assert forall|i: int, j: int| 0 <= i < j < ranks.len() implies #[trigger] ranks[i] != #[trigger] ranks[j] by {
        lemma_comes_before_is_total_order(s, i, j, i);
    }
}

/// Where the index `x` belongs among the first `m` entries of an ascending
/// list that does not hold it.
proof fn lemma_insertion_point<T: SortKey>(s: Seq<T>, order: Seq<usize>, x: usize, m: nat) -> (p: nat)
    requires
        all_valid(s),
        is_ascending(s, order),
        x < s.len(),
        !order.contains(x),
        m <= order.len(),
    ensures
        p <= m,
        forall|k: int| 0 <= k < p ==> comes_before(s, #[trigger] order[k] as int, x as int),
        forall|k: int| p <= k < m ==> comes_before(s, x as int, #[trigger] order[k] as int),
    decreases m,
{
    if m == 0 {
        0
    } else if comes_before(s, order[m - 1] as int, x as int) {
        assert forall|k: int| 0 <= k < m implies comes_before(s, #[trigger] order[k] as int, x as int) by {
            if k < m - 1 {
                assert(comes_before(s, order[k] as int, order[m - 1] as int));
                lemma_comes_before_is_total_order(s, order[k] as int, order[m - 1] as int, x as int);
            }
        }
        m
    } else {
        assert(order.contains(order[m - 1]));
        lemma_comes_before_is_total_order(s, order[m - 1] as int, x as int, x as int);
        lemma_insertion_point(s, order, x, (m - 1) as nat)
    }
}

/// The first `n` indices of `s` in ascending order.
proof fn lemma_order_of_prefix<T: SortKey>(s: Seq<T>, n: nat) -> (order: Seq<usize>)
    requires
        all_valid(s),
        n <= s.len() <= usize::MAX,
    ensures
        order.len() == n,
        is_ascending(s, order),
        forall|x: usize| order.contains(x) <==> x < n,
    decreases n,
{
    if n == 0 {
        Seq::empty()
    } else {
        let before = lemma_order_of_prefix(s, (n - 1) as nat);
        let x = (n - 1) as usize;
        let p = lemma_insertion_point(s, before, x, before.len());
        let order = before.insert(p as int, x);
        assert forall|k: int, l: int| 0 <= k < l < order.len() implies comes_before(
            s,
            #[trigger] order[k] as int,
            #[trigger] order[l] as int,
        ) by {
            if l < p {
                assert(order[k] == before[k] && order[l] == before[l]);
            } else if l == p {
                assert(order[k] == before[k]);
            } else if k < p {
                assert(order[k] == before[k] && order[l] == before[l - 1]);
                if k < l - 1 {
                } else {
                    lemma_comes_before_is_total_order(s, before[k] as int, x as int, before[l - 1] as int);
                }
            } else if k == p {
                assert(order[l] == before[l - 1]);
            } else {
                assert(order[k] == before[k - 1] && order[l] == before[l - 1]);
            }
        }
        assert forall|y: usize| order.contains(y) <==> y < n by {
            if y < n - 1 {
                assert(before.contains(y));
                let k = choose|k: int| 0 <= k < before.len() && before[k] == y;
                if k < p {
                    assert(order[k] == y);
                } else {
                    assert(order[k + 1] == y);
                }
            } else if y == x {
                assert(order[p as int] == y);
            }
            if order.contains(y) {
                let k = choose|k: int| 0 <= k < order.len() && order[k] == y;
                if k < p {
                    assert(before[k] == y);
                    assert(before.contains(y));
                } else if k > p {
                    assert(before[k - 1] == y);
                    assert(before.contains(y));
                }
            }
        }
        assert forall|k: int| 0 <= k < order.len() implies (#[trigger] order[k]) < s.len() by {
            assert(order.contains(order[k]));
        }
        order
    }
}

/// Every sequence of valid keys has a sorted index array and a rank array,
/// each the inverse of the other.
pub proof fn lemma_orders_exist<T: SortKey>(s: Seq<T>)
    requires
        all_valid(s),
        s.len() <= usize::MAX,
    ensures
        is_sorted_order(s, sorted_order(s)),
        is_rank_array(s, rank_order(s)),
        are_inverse(sorted_order(s), rank_order(s)),
{
    let order = lemma_order_of_prefix(s, s.len());
    assert(is_sorted_order(s, order));
    lemma_sorted_order_unique(s, order);
    let ranks = Seq::new(s.len(), |i: int| order.index_of(i as usize) as usize);
    assert forall|k: int| 0 <= k < order.len() implies ranks[#[trigger] order[k] as int] == k by {
        let i = order[k];
        assert(order.contains(i));
        let found = order.index_of(i);
        assert(0 <= found < order.len() && order[found] == i);
        if found < k {
            assert(comes_before(s, order[found] as int, order[k] as int));
        } else if k < found {
            assert(comes_before(s, order[k] as int, order[found] as int));
        }
        lemma_comes_before_is_total_order(s, i as int, i as int, i as int);
    }
    lemma_inverse_of_sorted_order(s, order, ranks);
    lemma_rank_array_unique(s, ranks);
}

/// Arranging a sequence by a sorted index array keeps its elements: the
/// arranged sequence holds what the sequence holds, and no element twice if
/// the sequence holds none twice.
pub proof fn lemma_arranged_keeps_elements<T: SortKey, E>(keys: Seq<T>, items: Seq<E>, order: Seq<usize>)
    requires
        all_valid(keys),
        is_sorted_order(keys, order),
        items.len() == keys.len(),
    ensures
        arranged(items, order).len() == items.len(),
        arranged(items, order).to_set() == items.to_set(),
        items.no_duplicates() ==> arranged(items, order).no_duplicates(),
{
    let moved = arranged(items, order);
    assert forall|item: E| moved.to_set().contains(item) <==> items.to_set().contains(item) by {
        if moved.to_set().contains(item) {
            let k = choose|k: int| 0 <= k < moved.len() && moved[k] == item;
            assert(items[order[k] as int] == item);
        }
        if items.to_set().contains(item) {
            let i = choose|i: int| 0 <= i < items.len() && items[i] == item;
            assert(order.contains(i as usize));
            let k = choose|k: int| 0 <= k < order.len() && order[k] == i as usize;
            assert(moved[k] == item);
        }
    }
    assert(moved.to_set() =~= items.to_set());
    if items.no_duplicates() {
        assert forall|k: int, l: int| 0 <= k < moved.len() && 0 <= l < moved.len() && k != l implies moved[k]
            != moved[l] by {
            lemma_comes_before_is_total_order(keys, order[k] as int, order[l] as int, order[k] as int);
            if k < l {
                assert(comes_before(keys, order[k] as int, order[l] as int));
            } else {
                assert(comes_before(keys, order[l] as int, order[k] as int));
            }
        }
    }
}

} // verus!
