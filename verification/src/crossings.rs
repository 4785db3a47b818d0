//! Counting the edge crossings of a two-layer drawing with a line sweep.
//!
//! The edges that the sweep line currently meets are kept in an `AHashSet`:
//! the hashes need no cryptographic strength, only speed. The verifier does
//! not look into the set. What it holds is named `active_set`, and the four
//! functions that touch it, `new_active_edges`, `insert_active_edge`,
//! `remove_dead_edges` and `list_active_edges`, state over that name what the
//! set operations they call are documented to do; these four contracts are
//! believed, not proved.

use vstd::prelude::*;
use vstd::set_lib::*;
use vstd::seq_lib::*;
use vstd::relations::injective_on;
use crate::algo_utils::{appearance, appearances, edges_lexicographic_sort, edges_min_index_sort};
use crate::ranking::{
    arranged, is_sorted_order, lemma_arranged_keeps_elements, lemma_orders_exist, sorted_order,
};
use crate::sort_key::SortKey;
use crate::graph_base::{Edge, OrderedGraph};

verus! {

/// `ahash::AHashSet`, a `std::collections::HashSet` with a faster hasher.
/// Its content is known to the verifier only through `active_set`.
#[verifier::external_type_specification]
#[verifier::external_body]
#[verifier::reject_recursive_types(T)]
#[verifier::reject_recursive_types(S)]
pub struct ExAHashSet<T, S>(ahash::AHashSet<T, S>);

/// `ahash::RandomState`, the hasher of an `AHashSet`.
#[verifier::external_type_specification]
#[verifier::external_body]
pub struct ExRandomState(ahash::RandomState);

/// The edges that an `AHashSet` of edges holds.
pub uninterp spec fn active_set(edges: ahash::AHashSet<(u64, u64), ahash::RandomState>) -> Set<(u64, u64)>;

/// Two edges cross when their endpoints stand in opposite orders in the two
/// layers. Edges that share an endpoint do not cross.
pub open spec fn crosses(a: Edge, b: Edge) -> bool {
    (a.0 - b.0) * (a.1 - b.1) < 0
}

/// An edge is still met by a sweep line at `line_position` or beyond when one
/// of its endpoints lies beyond that position.
pub open spec fn is_alive(edge: Edge, line_position: u64) -> bool {
    edge.0 > line_position || edge.1 > line_position
}

/// A sweep line at `line_position` has met the edge: the edge appears at or
/// before that position.
pub open spec fn has_appeared(edge: Edge, line_position: u64) -> bool {
    appearance(edge) <= line_position
}

/// An edge is active at `line_position` when a sweep line there has met it
/// and not left it behind.
pub open spec fn is_active(edge: Edge, line_position: u64) -> bool {
    has_appeared(edge, line_position) && is_alive(edge, line_position)
}

/// The number of edges among `seen` that cross `edge`.
pub open spec fn crossings_with(seen: Set<Edge>, edge: Edge) -> nat {
    seen.filter(|other: Edge| crosses(other, edge)).len()
}

/// The crossings that a sweep over `edges` in the given order counts: for
/// every edge, the distinct edges before it that cross it.
pub open spec fn sweep_crossings(edges: Seq<Edge>) -> nat
    decreases edges.len(),
{
    if edges.len() == 0 {
        0
    } else {
        sweep_crossings(edges.drop_last()) + crossings_with(edges.drop_last().to_set(), edges.last())
    }
}

/// The crossings of a drawing whose edges are given by rank: those that a
/// sweep counts when it takes the edges by their smaller endpoint, edges with
/// the same smaller endpoint in the order of the list.
pub open spec fn crossing_count(edges: Seq<Edge>) -> nat {
    sweep_crossings(arranged(edges, sorted_order(appearances(edges))))
}

/// The pairs of edges among `edges` that cross, each pair once: the edge whose
/// top endpoint is further left comes first, and its bottom endpoint is
/// further right.
pub open spec fn inversions(edges: Set<Edge>) -> Set<(Edge, Edge)> {
    Set::new(
        |pair: (Edge, Edge)|
            edges.contains(pair.0) && edges.contains(pair.1) && pair.0.0 < pair.1.0 && pair.0.1 > pair.1.1,
    )
}

/// One more edge adds to the crossing pairs of a set the edges of the set
/// that cross it.
proof fn lemma_inversions_insert(seen: Set<Edge>, edge: Edge)
    requires
        seen.finite(),
        !seen.contains(edge),
        inversions(seen).finite(),
    ensures
        inversions(seen.insert(edge)).finite(),
        inversions(seen.insert(edge)).len() == inversions(seen).len() + crossings_with(seen, edge),
{
    let crossing = |other: Edge| crosses(other, edge);
    let found = seen.filter(crossing);
    seen.lemma_len_filter(crossing);
    let paired = |other: Edge|
        if other.0 < edge.0 {
            (other, edge)
        } else {
            (edge, other)
        };
    let pairs = found.map(paired);
    assert(injective_on(paired, found));
    lemma_map_size(found, pairs, paired);
    assert forall|pair: (Edge, Edge)| #[trigger]
        inversions(seen.insert(edge)).contains(pair) <==> inversions(seen).contains(pair) || pairs.contains(
            pair,
        ) by {
        if inversions(seen.insert(edge)).contains(pair) && !inversions(seen).contains(pair) {
            if pair.1 == edge {
                lemma_crosses_by_order(pair.0, edge);
                assert(found.contains(pair.0));
                assert(paired(pair.0) == pair);
            } else {
                lemma_crosses_by_order(pair.1, edge);
                assert(found.contains(pair.1));
                assert(paired(pair.1) == pair);
            }
        }
        if pairs.contains(pair) {
            let other = choose|other: Edge| found.contains(other) && paired(other) == pair;
            lemma_crosses_by_order(other, edge);
        }
    }
    assert(inversions(seen.insert(edge)) =~= inversions(seen).union(pairs));
    assert(inversions(seen).disjoint(pairs)) by {
        assert forall|pair: (Edge, Edge)| !(inversions(seen).contains(pair) && pairs.contains(pair)) by {
            if pairs.contains(pair) {
                let other = choose|other: Edge| found.contains(other) && paired(other) == pair;
            }
        }
    }
    lemma_set_disjoint_lens(inversions(seen), pairs);
}

/// A sweep over edges that are all different counts every crossing pair
/// once.
proof fn lemma_sweep_counts_inversions(edges: Seq<Edge>)
    requires
        edges.no_duplicates(),
    ensures
        inversions(edges.to_set()).finite(),
        sweep_crossings(edges) == inversions(edges.to_set()).len(),
    decreases edges.len(),
{
    if edges.len() == 0 {
        assert(inversions(edges.to_set()) =~= Set::<(Edge, Edge)>::empty());
    } else {
        let before = edges.drop_last();
        let edge = edges.last();
        assert(edges == before.push(edge));
        assert(before.no_duplicates()) by {
            assert forall|i: int, j: int| 0 <= i < before.len() && 0 <= j < before.len() && i != j implies before[i]
                != before[j] by {
                assert(before[i] == edges[i] && before[j] == edges[j]);
            }
        }
        lemma_sweep_counts_inversions(before);
        seq_to_set_is_finite(before);
        if before.to_set().contains(edge) {
            let k = choose|k: int| 0 <= k < before.len() && before[k] == edge;
            assert(edges[k] == edges[edges.len() - 1]);
        }
        before.lemma_push_to_set_commute(edge);
        lemma_inversions_insert(before.to_set(), edge);
    }
}

/// The crossings of a drawing in which no edge occurs twice are its crossing
/// pairs: the pairs of edges whose endpoints stand in opposite orders in the
/// two layers. The order of the edge list does not matter.
pub proof fn lemma_crossing_count_counts_pairs(edges: Seq<Edge>)
    requires
        edges.no_duplicates(),
        edges.len() <= usize::MAX,
    ensures
        inversions(edges.to_set()).finite(),
        crossing_count(edges) == inversions(edges.to_set()).len(),
{
    let keys = appearances(edges);
    lemma_orders_exist(keys);
    let order = sorted_order(keys);
    let swept = arranged(edges, order);
    lemma_arranged_keeps_elements(keys, edges, order);
    lemma_sweep_counts_inversions(swept);
}

/// A graph without edges has no crossings.
pub proof fn lemma_no_edges_no_crossings(edges: Seq<Edge>)
    requires
        edges.len() == 0,
    ensures
        crossing_count(edges) == 0,
{
    assert(is_sorted_order(appearances(edges), Seq::<usize>::empty()));
    assert(arranged(edges, sorted_order(appearances(edges))).len() == 0);
}

/// Two edges cross when one starts left of the other and ends right of it.
pub proof fn lemma_crosses_by_order(a: Edge, b: Edge)
    ensures
        crosses(a, b) <==> (a.0 < b.0 && a.1 > b.1) || (a.0 > b.0 && a.1 < b.1),
        crosses(a, b) <==> crosses(b, a),
{
    let (a0, a1, b0, b1) = (a.0 as int, a.1 as int, b.0 as int, b.1 as int);
    assert(((a0 < b0 && a1 > b1) || (a0 > b0 && a1 < b1)) <==> (a0 - b0) * (a1 - b1) < 0) by (nonlinear_arith);
    assert(((a0 < b0 && a1 > b1) || (a0 > b0 && a1 < b1)) <==> (b0 - a0) * (b1 - a1) < 0) by (nonlinear_arith);
}

/// Tests whether two edges cross.
pub fn edges_cross(a: Edge, b: Edge) -> (crossing: bool)
    ensures
        crossing == crosses(a, b),
{
    proof {
        lemma_crosses_by_order(a, b);
    }
    (a.0 < b.0 && a.1 > b.1) || (a.0 > b.0 && a.1 < b.1)
}

/// Tests whether an edge is still met by a sweep line at `line_position` or
/// beyond.
pub fn edge_is_alive(edge: Edge, line_position: u64) -> (alive: bool)
    ensures
        alive == is_alive(edge, line_position),
{
    edge.0 > line_position || edge.1 > line_position
}

/// Calls `AHashSet::new`, which makes a `HashSet` with a new hasher: the set
/// holds no edge.
#[verifier::external_body]
fn new_active_edges() -> (active_edges: ahash::AHashSet<Edge>)
    ensures
        active_set(active_edges) == Set::<Edge>::empty(),
{
    ahash::AHashSet::new()
}

/// Calls `HashSet::insert` on the set that the `AHashSet` wraps: afterwards
/// the set holds `edge` besides what it held; an edge that it held already is
/// held once.
#[verifier::external_body]
fn insert_active_edge(active_edges: &mut ahash::AHashSet<Edge>, edge: Edge)
    ensures
        active_set(*final(active_edges)) == active_set(*old(active_edges)).insert(edge),
{
    active_edges.insert(edge);
}

/// Given a sweep line position, removes all dead edges from a set of active
/// edges. A dead edge is an edge whose larger endpoint is less than or equal to
/// the line position.
///
/// Calls `HashSet::retain` on the set that the `AHashSet` wraps, with
/// `edge_is_alive` as the test: afterwards the set holds the edges it held for
/// which the test holds, and no other.
#[verifier::external_body]
fn remove_dead_edges(active_edges: &mut ahash::AHashSet<Edge>, line_position: u64)
    ensures
        active_set(*final(active_edges)) == active_set(*old(active_edges)).filter(
            |edge: Edge| is_alive(edge, line_position),
        ),
{
    active_edges.retain(|edge| edge_is_alive(*edge, line_position));
}

/// Calls `HashSet::iter` on the set that the `AHashSet` wraps and collects
/// what it visits: the edges that the set holds, each once, in an order that
/// nothing is said about.
#[verifier::external_body]
fn list_active_edges(active_edges: &ahash::AHashSet<Edge>) -> (list: Vec<Edge>)
    ensures
        list@.no_duplicates(),
        list@.to_set() == active_set(*active_edges),
{
    active_edges.iter().copied().collect()
}

/// What one more edge among those seen adds to the crossings with `edge`.
proof fn lemma_crossings_with_insert(seen: Set<Edge>, other: Edge, edge: Edge)
    requires
        seen.finite(),
        !seen.contains(other),
    ensures
        crossings_with(seen.insert(other), edge) == crossings_with(seen, edge) + if crosses(other, edge) {
            1nat
        } else {
            0nat
        },
        crossings_with(seen, edge) <= seen.len(),
{
    let crossing = |e: Edge| crosses(e, edge);
    seen.lemma_len_filter(crossing);
    if crosses(other, edge) {
        assert(seen.insert(other).filter(crossing) =~= seen.filter(crossing).insert(other));
    } else {
        assert(seen.insert(other).filter(crossing) =~= seen.filter(crossing));
    }
}

/// Given a set of active edges and a new edge, counts the active edges that
/// cross the new edge.
fn scan_edges_for_crossings(active_edges: &ahash::AHashSet<Edge>, edge: &Edge) -> (crossings: u64)
    ensures
        crossings == crossings_with(active_set(*active_edges), *edge),
{
    let list = list_active_edges(active_edges);
    let mut crossings: u64 = 0;
    let mut k: usize = 0;
    proof {
        assert(list@.take(0).to_set() =~= Set::<Edge>::empty());
        assert(Set::<Edge>::empty().filter(|e: Edge| crosses(e, *edge)) =~= Set::<Edge>::empty());
    }
    while k < list.len()
        invariant
            k <= list.len(),
            list@.no_duplicates(),
            crossings == crossings_with(list@.take(k as int).to_set(), *edge),
            crossings <= k,
        decreases list.len() - k,
    {
        proof {
            let before = list@.take(k as int);
            seq_to_set_is_finite(before);
            assert(list@.take(k + 1) == before.push(list@[k as int]));
            before.lemma_push_to_set_commute(list@[k as int]);
            if before.to_set().contains(list@[k as int]) {
                let l = choose|l: int| 0 <= l < before.len() && before[l] == list@[k as int];
                assert(list@[l] == list@[k as int]);
            }
            lemma_crossings_with_insert(before.to_set(), list@[k as int], *edge);
        }
        if edges_cross(list[k], *edge) {
            crossings += 1;
        }
        k += 1;
    }
    assert(list@.take(k as int) == list@);
    crossings
}

/// Counts the crossings of a graph with a line sweep.
///
/// The edges are taken by their smaller endpoint, which is where a line
/// swept across the two layers first meets them. Every edge is compared with
/// the active edges, those met before it that the line has not left behind,
/// and then joins them. Dead edges are removed only when the line has moved:
/// a dead edge crosses no later edge, so the count is the same, and edges that
/// appear at one position are not scanned again for each other.
pub fn line_sweep_crossings<T: OrderedGraph>(graph: &T) -> (crossings: u64)
    requires
        graph.is_ordered(),
        graph.ordered_edges().len() <= u32::MAX,
    ensures
        crossings == crossing_count(graph.ordered_edges()),
{
    let mut edges = graph.get_ordered_edges();
    edges_min_index_sort(&mut edges);
    let mut active_edges = new_active_edges();
    let mut line_position: u64 = 0;
    let mut crossings: u64 = 0;
    let mut j: usize = 0;
    proof {
        assert(edges@.take(0).to_set() =~= Set::<Edge>::empty());
    }
    while j < edges.len()
        invariant
            j <= edges.len() <= u32::MAX,
            forall|k: int, l: int|
                0 <= k <= l < edges@.len() ==> appearance(#[trigger] edges@[k]) <= appearance(#[trigger] edges@[l]),
            active_set(active_edges).finite(),
            active_set(active_edges).subset_of(edges@.take(j as int).to_set()),
            forall|e: Edge|
                edges@.take(j as int).to_set().contains(e) && !active_set(active_edges).contains(e) ==> !is_alive(
                    e,
                    line_position,
                ),
            j < edges.len() ==> line_position <= appearance(edges@[j as int]),
            crossings == sweep_crossings(edges@.take(j as int)),
            crossings <= j * 0xFFFF_FFFF,
        decreases edges.len() - j,
    {
        let edge = edges[j];
        let new_line_position = if edge.0 <= edge.1 {
            edge.0
        } else {
            edge.1
        };
        let mut line_position_changed = false;
        let ghost old_position = line_position;
        let ghost old_active = active_set(active_edges);
        if new_line_position != line_position {
            line_position = new_line_position;
            line_position_changed = true;
        }
        let found = scan_edges_for_crossings(&active_edges, &edge);
        proof {
            let seen = edges@.take(j as int).to_set();
            let active = active_set(active_edges);
            let crossing = |e: Edge| crosses(e, edge);
            assert forall|e: Edge| seen.contains(e) && crosses(e, edge) implies active.contains(e) by {
                lemma_crosses_by_order(e, edge);
                if !active.contains(e) {
                    assert(!is_alive(e, old_position));
                }
            }
            assert(active.filter(crossing) =~= seen.filter(crossing));
            seq_to_set_is_finite(edges@.take(j as int));
            seen.lemma_len_filter(crossing);
            edges@.take(j as int).lemma_cardinality_of_set();
            assert(edges@.take(j + 1).drop_last() == edges@.take(j as int));
            assert(edges@.take(j + 1) == edges@.take(j as int).push(edge));
            edges@.take(j as int).lemma_push_to_set_commute(edge);
        }
        crossings += found;
        insert_active_edge(&mut active_edges, edge);
        if line_position_changed {
            remove_dead_edges(&mut active_edges, line_position);
            proof {
                let kept = |e: Edge| is_alive(e, line_position);
                assert(active_set(active_edges).finite()) by {
                    edges@.take(j + 1).to_set().lemma_len_filter(kept);
                    seq_to_set_is_finite(edges@.take(j + 1));
                    lemma_len_subset(active_set(active_edges), edges@.take(j + 1).to_set());
                }
            }
        }
        proof {
            assert forall|e: Edge|
                edges@.take(j + 1).to_set().contains(e) && !active_set(active_edges).contains(e) implies !is_alive(
                e,
                line_position,
            ) by {
                if e != edge && !old_active.contains(e) {
                    assert(edges@.take(j as int).to_set().contains(e));
                    assert(!is_alive(e, old_position));
                }
            }
            if j + 1 < edges.len() {
                assert(appearance(edges@[j as int]) <= appearance(edges@[j + 1]));
            }
        }
        j += 1;
    }
    assert(edges@.take(j as int) == edges@);
    crossings
}

/// The active edges of a graph at a position of the sweep line: the edges
/// that start at or before the position and end beyond it, each once, in
/// lexicographic order.
pub fn active_edges_at<T: OrderedGraph>(graph: &T, line_position: u64) -> (active: Vec<Edge>)
    requires
        graph.is_ordered(),
    ensures
        active@.to_set() == graph.ordered_edges().to_set().filter(|edge: Edge| is_active(edge, line_position)),
        forall|k: int, l: int|
            #![trigger active@[k], active@[l]]
            0 <= k < l < active@.len() ==> active@[k].precedes(&active@[l]),
{
    let edges = graph.get_ordered_edges();
    let mut active_edges = new_active_edges();
    let mut j: usize = 0;
    proof {
        assert(edges@.take(0).to_set().filter(|edge: Edge| has_appeared(edge, line_position)) =~= Set::<
            Edge,
        >::empty());
    }
    while j < edges.len()
        invariant
            j <= edges.len(),
            active_set(active_edges) == edges@.take(j as int).to_set().filter(
                |edge: Edge| has_appeared(edge, line_position),
            ),
        decreases edges.len() - j,
    {
        let edge = edges[j];
        proof {
            assert(edges@.take(j + 1) == edges@.take(j as int).push(edge));
            edges@.take(j as int).lemma_push_to_set_commute(edge);
        }
        if edge.0 <= line_position || edge.1 <= line_position {
            insert_active_edge(&mut active_edges, edge);
        }
        assert(active_set(active_edges) =~= edges@.take(j + 1).to_set().filter(
            |edge: Edge| has_appeared(edge, line_position),
        ));
        j += 1;
    }
    remove_dead_edges(&mut active_edges, line_position);
    let mut active = list_active_edges(&active_edges);
    let ghost listed = active@;
    edges_lexicographic_sort(&mut active);
    proof {
        assert(edges@.take(j as int) == edges@);
        lemma_arranged_keeps_elements(listed, listed, sorted_order(listed));
        assert(active@.to_set() =~= graph.ordered_edges().to_set().filter(
            |edge: Edge| is_active(edge, line_position),
        ));
        assert forall|k: int, l: int|
            #![trigger active@[k], active@[l]]
            0 <= k < l < active@.len() implies active@[k].precedes(&active@[l]) by {
            assert(!active@[l].precedes(&active@[k]));
            assert(active@[k] != active@[l]);
        }
    }
    active
}

} // verus!
