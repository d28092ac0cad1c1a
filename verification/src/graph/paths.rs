//! What it means for a vertex to be reached, and at what cost.

use super::Edge;
use vstd::prelude::*;

verus! {

/// `walk` leads from `source` to `target` along edges of `edges`, each
/// starting where the one before it ends. The empty walk leads from a
/// vertex to itself.
pub open spec fn is_walk(edges: Seq<Edge>, source: usize, walk: Seq<Edge>, target: usize) -> bool
    decreases walk.len(),
{
    if walk.len() == 0 {
        source == target
    } else {
        &&& edges.contains(walk.last())
        &&& walk.last().out_vertex == target
        &&& is_walk(edges, source, walk.drop_last(), walk.last().in_vertex)
    }
}

/// The sum of the weights along `walk`.
pub open spec fn walk_weight(walk: Seq<Edge>) -> int
    decreases walk.len(),
{
    if walk.len() == 0 {
        0
    } else {
        walk_weight(walk.drop_last()) + walk.last().weight
    }
}

/// Some walk leads from `source` to `target`.
pub open spec fn reachable(edges: Seq<Edge>, source: usize, target: usize) -> bool {
    exists|walk: Seq<Edge>| is_walk(edges, source, walk, target)
}

/// Some walk from `source` to `target` has weight `distance`.
pub open spec fn attained(edges: Seq<Edge>, source: usize, target: usize, distance: int) -> bool {
    exists|walk: Seq<Edge>| #[trigger]
        is_walk(edges, source, walk, target) && walk_weight(walk) == distance
}

/// No walk from `source` to `target` has a weight below `distance`.
pub open spec fn no_walk_is_shorter(
    edges: Seq<Edge>,
    source: usize,
    target: usize,
    distance: int,
) -> bool {
    forall|walk: Seq<Edge>| #[trigger]
        is_walk(edges, source, walk, target) ==> distance <= walk_weight(walk)
}

/// No edge has a negative weight.
pub open spec fn weights_nonnegative(edges: Seq<Edge>) -> bool {
    forall|e: Edge| #[trigger] edges.contains(e) ==> e.weight >= 0
}

/// A walk can be continued by an edge that starts at its end.
pub proof fn lemma_walk_extend(
    edges: Seq<Edge>,
    source: usize,
    walk: Seq<Edge>,
    target: usize,
    edge: Edge,
)
    requires
        is_walk(edges, source, walk, target),
        edges.contains(edge),
        edge.in_vertex == target,
    ensures
        is_walk(edges, source, walk.push(edge), edge.out_vertex),
        walk_weight(walk.push(edge)) == walk_weight(walk) + edge.weight,
{
    assert(walk.push(edge).drop_last() =~= walk);
}

/// A distance attained at the start of an edge gives one attained at its end.
pub proof fn lemma_attained_extend(
    edges: Seq<Edge>,
    source: usize,
    target: usize,
    distance: int,
    edge: Edge,
)
    requires
        attained(edges, source, target, distance),
        edges.contains(edge),
        edge.in_vertex == target,
    ensures
        attained(edges, source, edge.out_vertex, distance + edge.weight),
{
    let walk = choose|walk: Seq<Edge>| #[trigger]
        is_walk(edges, source, walk, target) && walk_weight(walk) == distance;
    lemma_walk_extend(edges, source, walk, target, edge);
}

/// Every vertex is at distance zero from itself, by the empty walk.
pub proof fn lemma_attained_at_source(edges: Seq<Edge>, source: usize)
    ensures
        attained(edges, source, source, 0),
{
    assert(is_walk(edges, source, Seq::<Edge>::empty(), source));
}

/// Without negative weights no walk has a negative weight.
pub proof fn lemma_walk_weight_nonnegative(
    edges: Seq<Edge>,
    source: usize,
    walk: Seq<Edge>,
    target: usize,
)
    requires
        weights_nonnegative(edges),
        is_walk(edges, source, walk, target),
    ensures
        walk_weight(walk) >= 0,
    decreases walk.len(),
{
    if walk.len() > 0 {
        lemma_walk_weight_nonnegative(edges, source, walk.drop_last(), walk.last().in_vertex);
    }
}

/// A set of vertices that holds the source and is closed under the edges
/// holds every vertex that a walk reaches.
pub proof fn lemma_closed_set_holds_reached(
    edges: Seq<Edge>,
    source: usize,
    marked: Seq<bool>,
    walk: Seq<Edge>,
    target: usize,
)
    requires
        source < marked.len(),
        marked[source as int],
        forall|e: Edge| #[trigger]
            edges.contains(e) ==> e.in_vertex < marked.len() && e.out_vertex < marked.len() && (
            marked[e.in_vertex as int] ==> marked[e.out_vertex as int]),
        is_walk(edges, source, walk, target),
    ensures
        target < marked.len(),
        marked[target as int],
    decreases walk.len(),
{
    if walk.len() > 0 {
        lemma_closed_set_holds_reached(
            edges,
            source,
            marked,
            walk.drop_last(),
            walk.last().in_vertex,
        );
    }
}

/// The number of entries of `marks` that are `false`.
pub open spec fn count_false(marks: Seq<bool>) -> nat
    decreases marks.len(),
{
    if marks.len() == 0 {
        0
    } else {
        count_false(marks.drop_last()) + if marks.last() {
            0nat
        } else {
            1nat
        }
    }
}

/// There are no more unset marks than marks.
pub proof fn lemma_count_false_bound(marks: Seq<bool>)
    ensures
        count_false(marks) <= marks.len(),
    decreases marks.len(),
{
    if marks.len() > 0 {
        lemma_count_false_bound(marks.drop_last());
    }
}

/// Setting one unset mark lowers the count of unset marks by one.
pub proof fn lemma_count_false_set(marks: Seq<bool>, i: int)
    requires
        0 <= i < marks.len(),
        !marks[i],
    ensures
        count_false(marks.update(i, true)) == count_false(marks) - 1,
    decreases marks.len(),
{
    let after = marks.update(i, true);
    if i == marks.len() - 1 {
        assert(after.drop_last() =~= marks.drop_last());
    } else {
        assert(after.drop_last() =~= marks.drop_last().update(i, true));
        lemma_count_false_set(marks.drop_last(), i);
    }
}

/// In a sequence of unset marks every mark counts.
pub proof fn lemma_count_false_all(marks: Seq<bool>)
    requires
        forall|i: int| 0 <= i < marks.len() ==> !marks[i],
    ensures
        count_false(marks) == marks.len(),
    decreases marks.len(),
{
    if marks.len() > 0 {
        lemma_count_false_all(marks.drop_last());
    }
}

} // verus!
