//! The state of a shortest-path search, and what holds of it from the first
//! relaxation to the last.

use super::paths::{
    attained, count_false, is_walk, lemma_attained_at_source, lemma_attained_extend,
    lemma_closed_set_holds_reached, lemma_count_false_all, lemma_count_false_set,
    lemma_walk_weight_nonnegative, no_walk_is_shorter, reachable, walk_weight, weights_nonnegative,
};
use super::{edges_with_source, Edge};
use vstd::prelude::*;

verus! {

/// The search state as the proofs see it.
pub struct Tentative {
    /// Per vertex, whether its distance is final.
    pub settled: Seq<bool>,
    /// Per vertex, the distance known so far.
    pub distance: Seq<Option<i64>>,
    /// The vertices waiting in the heap, each with its key.
    pub keys: Map<usize, i64>,
}

/// Every edge joins two vertices of `1..=n`.
pub open spec fn edges_within(edges: Seq<Edge>, n: usize) -> bool {
    forall|e: Edge| #[trigger]
        edges.contains(e) ==> 1 <= e.in_vertex <= n && 1 <= e.out_vertex <= n
}

/// A bound on the size of every distance found so far: each settled vertex
/// adds at most one weight to the longest sum.
pub open spec fn span(settled: Seq<bool>) -> int {
    (settled.len() - count_false(settled)) * 0x8000_0000
}

/// The distance from which the edges that leave a settled vertex are relaxed.
pub open spec fn settled_distance(st: Tentative, source: usize, vertex: usize) -> int {
    if vertex == source {
        0
    } else {
        match st.distance[vertex as int] {
            Some(d) => d as int,
            None => 0,
        }
    }
}

/// The marks and the distances cover the vertices `0..=n`, and the source
/// is settled.
pub open spec fn shape(n: usize, source: usize, st: Tentative) -> bool {
    &&& n <= 0x7fff_ffff
    &&& source <= n
    &&& st.settled.len() == n + 1
    &&& st.distance.len() == n + 1
    &&& st.settled[source as int]
}

/// Every known distance and every key is the weight of a walk from the
/// source; a settled vertex has a distance, and an unsettled vertex with a
/// distance waits in the heap under a key that is no larger.
pub open spec fn known(edges: Seq<Edge>, n: usize, source: usize, st: Tentative) -> bool {
    &&& forall|x: usize| x <= n && #[trigger] st.settled[x as int] ==> st.distance[x as int] is Some
    &&& forall|x: usize|
        x <= n ==> (#[trigger] st.distance[x as int] matches Some(d) ==> attained(
            edges,
            source,
            x,
            d as int,
        ) && -span(st.settled) <= d <= span(st.settled))
    &&& forall|u: usize| #[trigger]
        st.keys.contains_key(u) ==> {
            &&& u <= n
            &&& st.distance[u as int] matches Some(d) && st.keys[u] <= d
            &&& attained(edges, source, u, st.keys[u] as int)
            &&& -span(st.settled) <= st.keys[u] <= span(st.settled)
        }
    &&& forall|x: usize|
        x <= n && !st.settled[x as int] && (#[trigger] st.distance[x as int]) is Some
            ==> st.keys.contains_key(x)
}

/// Every edge from a settled vertex to an unsettled one has been relaxed,
/// but for the edges in `pending`.
pub open spec fn frontier(edges: Seq<Edge>, source: usize, st: Tentative, pending: Seq<Edge>) -> bool {
    forall|e: Edge| #[trigger]
        edges.contains(e) && st.settled[e.in_vertex as int] && !st.settled[e.out_vertex as int]
            && !pending.contains(e) ==> st.keys.contains_key(e.out_vertex) && st.keys[e.out_vertex]
            <= settled_distance(st, source, e.in_vertex) + e.weight
}

/// Without negative weights, no walk to a settled vertex is shorter than
/// the distance it was settled with.
pub open spec fn optimal(edges: Seq<Edge>, n: usize, source: usize, st: Tentative) -> bool {
    weights_nonnegative(edges) ==> forall|x: usize|
        x <= n && x != source && #[trigger] st.settled[x as int] ==> no_walk_is_shorter(
            edges,
            source,
            x,
            settled_distance(st, source, x),
        )
}

/// What holds of a search from its start to its end, with `pending` the
/// edges of the vertex settled last that are yet to be relaxed.
pub open spec fn search_invariant(
    edges: Seq<Edge>,
    n: usize,
    source: usize,
    st: Tentative,
    pending: Seq<Edge>,
) -> bool {
    &&& edges_within(edges, n)
    &&& shape(n, source, st)
    &&& known(edges, n, source, st)
    &&& frontier(edges, source, st, pending)
    &&& optimal(edges, n, source, st)
}

/// An edge that is not among the rest of `pending` is either its first
/// edge or not in `pending` at all.
proof fn lemma_rest_of_pending(pending: Seq<Edge>, e: Edge)
    requires
        pending.len() > 0,
        !pending.drop_first().contains(e),
    ensures
        e == pending[0] || !pending.contains(e),
{
    if pending.contains(e) {
        let i = choose|i: int| 0 <= i < pending.len() && pending[i] == e;
        if i > 0 {
            assert(pending.drop_first()[i - 1] == e);
        }
    }
}

/// The state in which the search starts: only the source is settled, at
/// distance zero, and all its edges are yet to be relaxed.
pub proof fn lemma_search_starts(edges: Seq<Edge>, n: usize, source: usize, st: Tentative)
    requires
        edges_within(edges, n),
        n <= 0x7fff_ffff,
        source <= n,
        st.settled == Seq::new((n + 1) as nat, |i: int| false).update(source as int, true),
        st.distance == Seq::new((n + 1) as nat, |i: int| None::<i64>).update(
            source as int,
            Some(0i64),
        ),
        st.keys == Map::<usize, i64>::empty(),
    ensures
        search_invariant(edges, n, source, st, edges_with_source(edges, source)),
        span(st.settled) == 0x8000_0000,
{
    let blank = Seq::new((n + 1) as nat, |i: int| false);
    lemma_count_false_all(blank);
    lemma_count_false_set(blank, source as int);
    lemma_attained_at_source(edges, source);
    assert forall|e: Edge| #[trigger]
        edges.contains(e) && st.settled[e.in_vertex as int] && !st.settled[e.out_vertex as int]
            && !edges_with_source(edges, source).contains(e) implies st.keys.contains_key(
        e.out_vertex,
    ) by {
        lemma_edges_with_source_complete(edges, source, e);
    }
}

/// Every edge that leaves `vertex` is among `edges_with_source(edges, vertex)`.
pub proof fn lemma_edges_with_source_complete(edges: Seq<Edge>, vertex: usize, e: Edge)
    requires
        edges.contains(e),
        e.in_vertex == vertex,
    ensures
        edges_with_source(edges, vertex).contains(e),
{
    broadcast use vstd::seq_lib::group_filter_ensures;

    let pred = |e: Edge| e.in_vertex == vertex;
    let kept = edges.filter(pred);
    let i = choose|i: int| 0 <= i < edges.len() && edges[i] == e;
    edges.lemma_filter_contains(pred, i);
    assert(kept.contains(e));
    let k = choose|k: int| 0 <= k < kept.len() && kept[k] == e;
    assert(kept.reverse()[kept.len() - 1 - k] == e);
}

/// Relaxing the first pending edge to a better distance keeps the invariant.
///
/// `key` is the key under which the edge's target waits afterwards: the
/// candidate, or a key it had before that is no larger.
pub proof fn lemma_relaxed(
    edges: Seq<Edge>,
    n: usize,
    source: usize,
    st: Tentative,
    pending: Seq<Edge>,
    candidate: i64,
    key: i64,
    after: Tentative,
)
    requires
        search_invariant(edges, n, source, st, pending),
        pending.len() > 0,
        edges.contains(pending[0]),
        st.settled[pending[0].in_vertex as int],
        st.settled[pending[0].out_vertex as int] ==> pending[0].out_vertex == source,
        candidate == settled_distance(st, source, pending[0].in_vertex) + pending[0].weight,
        attained(edges, source, pending[0].in_vertex, candidate - pending[0].weight),
        -span(st.settled) <= candidate <= span(st.settled),
        key == candidate || (st.keys.contains_key(pending[0].out_vertex) && key
            == st.keys[pending[0].out_vertex] && key <= candidate),
        after.settled == st.settled,
        after.distance == st.distance.update(pending[0].out_vertex as int, Some(candidate)),
        after.keys == st.keys.insert(pending[0].out_vertex, key),
        st.keys.contains_key(pending[0].out_vertex) ==> key <= st.keys[pending[0].out_vertex],
    ensures
        search_invariant(edges, n, source, after, pending.drop_first()),
{
    let edge = pending[0];
    let u = edge.out_vertex;
    lemma_attained_extend(edges, source, edge.in_vertex, candidate - edge.weight, edge);
    assert forall|x: usize| x <= n implies (#[trigger] after.distance[x as int] matches Some(d)
        ==> attained(edges, source, x, d as int) && -span(after.settled) <= d <= span(
        after.settled,
    )) by {
        if x != u {
            assert(after.distance[x as int] == st.distance[x as int]);
        }
    }
    assert forall|v: usize| #[trigger] after.keys.contains_key(v) implies {
        &&& v <= n
        &&& after.distance[v as int] matches Some(d) && after.keys[v] <= d
        &&& attained(edges, source, v, after.keys[v] as int)
        &&& -span(after.settled) <= after.keys[v] <= span(after.settled)
    } by {
        if v != u {
            assert(st.keys.contains_key(v));
        } else if key != candidate {
            assert(st.keys.contains_key(u));
        }
    }
    assert forall|x: usize|
        x <= n && !after.settled[x as int] && (#[trigger] after.distance[x as int]) is Some implies after.keys.contains_key(
        x,
    ) by {
        if x != u {
            assert(st.distance[x as int] is Some);
        }
    }
    assert forall|e: Edge| #[trigger]
        edges.contains(e) && after.settled[e.in_vertex as int] && !after.settled[e.out_vertex as int]
            && !pending.drop_first().contains(e) implies after.keys.contains_key(e.out_vertex)
        && after.keys[e.out_vertex] <= settled_distance(after, source, e.in_vertex) + e.weight by {
        lemma_rest_of_pending(pending, e);
        assert(settled_distance(after, source, e.in_vertex) == settled_distance(
            st,
            source,
            e.in_vertex,
        ));
    }
    if weights_nonnegative(edges) {
        assert forall|x: usize|
            x <= n && x != source && #[trigger] after.settled[x as int] implies no_walk_is_shorter(
            edges,
            source,
            x,
            settled_distance(after, source, x),
        ) by {
            assert(st.settled[x as int]);
            assert(settled_distance(after, source, x) == settled_distance(st, source, x));
        }
    }
}

/// Passing over the first pending edge keeps the invariant when its target
/// is settled, or known at a distance that the edge does not improve.
pub proof fn lemma_passed_over(
    edges: Seq<Edge>,
    n: usize,
    source: usize,
    st: Tentative,
    pending: Seq<Edge>,
)
    requires
        search_invariant(edges, n, source, st, pending),
        pending.len() > 0,
        edges.contains(pending[0]),
        st.settled[pending[0].out_vertex as int] || (st.distance[pending[0].out_vertex as int] matches Some(
            d,
        ) && d <= settled_distance(st, source, pending[0].in_vertex) + pending[0].weight),
    ensures
        search_invariant(edges, n, source, st, pending.drop_first()),
{
    assert forall|e: Edge| #[trigger]
        edges.contains(e) && st.settled[e.in_vertex as int] && !st.settled[e.out_vertex as int]
            && !pending.drop_first().contains(e) implies st.keys.contains_key(e.out_vertex)
        && st.keys[e.out_vertex] <= settled_distance(st, source, e.in_vertex) + e.weight by {
        lemma_rest_of_pending(pending, e);
        if e == pending[0] {
            assert(st.distance[e.out_vertex as int] is Some);
            assert(st.keys.contains_key(e.out_vertex));
        }
    }
}

/// Without negative weights, every walk that ends at an unsettled vertex
/// weighs at least as much as the least key in the heap.
pub proof fn lemma_walk_crosses_frontier(
    edges: Seq<Edge>,
    n: usize,
    source: usize,
    st: Tentative,
    least: int,
    walk: Seq<Edge>,
    target: usize,
)
    requires
        search_invariant(edges, n, source, st, Seq::<Edge>::empty()),
        weights_nonnegative(edges),
        forall|u: usize| st.keys.contains_key(u) ==> least <= #[trigger] st.keys[u],
        is_walk(edges, source, walk, target),
        target <= n,
        !st.settled[target as int],
    ensures
        least <= walk_weight(walk),
    decreases walk.len(),
{
    let edge = walk.last();
    let before = walk.drop_last();
    let x = edge.in_vertex;
    assert(walk.len() > 0);
    assert(edges.contains(edge));
    if st.settled[x as int] {
        assert(!Seq::<Edge>::empty().contains(edge));
        assert(st.keys.contains_key(target));
        assert(least <= st.keys[target]);
        if x == source {
            lemma_walk_weight_nonnegative(edges, source, before, x);
        } else {
            assert(no_walk_is_shorter(edges, source, x, settled_distance(st, source, x)));
        }
    } else {
        lemma_walk_crosses_frontier(edges, n, source, st, least, before, x);
    }
}

/// Settling the vertex with the least key keeps the invariant; the edges
/// that leave it are then the ones yet to be relaxed.
pub proof fn lemma_settled(
    edges: Seq<Edge>,
    n: usize,
    source: usize,
    st: Tentative,
    vertex: usize,
    key: i64,
    after: Tentative,
)
    requires
        search_invariant(edges, n, source, st, Seq::<Edge>::empty()),
        st.keys.contains_key(vertex),
        st.keys[vertex] == key,
        forall|u: usize| st.keys.contains_key(u) ==> key <= #[trigger] st.keys[u],
        !st.settled[vertex as int],
        after.settled == st.settled.update(vertex as int, true),
        after.distance == st.distance.update(vertex as int, Some(key)),
        after.keys == st.keys.remove(vertex),
    ensures
        search_invariant(edges, n, source, after, edges_with_source(edges, vertex)),
        span(after.settled) == span(st.settled) + 0x8000_0000,
        count_false(after.settled) == count_false(st.settled) - 1,
        -span(st.settled) <= key <= span(st.settled),
        settled_distance(after, source, vertex) == key,
        attained(edges, source, vertex, key as int),
{
    lemma_count_false_set(st.settled, vertex as int);
    assert(span(after.settled) == span(st.settled) + 0x8000_0000);
    assert forall|x: usize| x <= n implies (#[trigger] after.distance[x as int] matches Some(d)
        ==> attained(edges, source, x, d as int) && -span(after.settled) <= d <= span(
        after.settled,
    )) by {
        if x != vertex {
            assert(after.distance[x as int] == st.distance[x as int]);
        }
    }
    assert forall|u: usize| #[trigger] after.keys.contains_key(u) implies {
        &&& u <= n
        &&& after.distance[u as int] matches Some(d) && after.keys[u] <= d
        &&& attained(edges, source, u, after.keys[u] as int)
        &&& -span(after.settled) <= after.keys[u] <= span(after.settled)
    } by {
        assert(st.keys.contains_key(u));
    }
    assert forall|x: usize|
        x <= n && !after.settled[x as int] && (#[trigger] after.distance[x as int]) is Some implies after.keys.contains_key(
        x,
    ) by {
        assert(st.distance[x as int] is Some);
    }
    assert forall|e: Edge| #[trigger]
        edges.contains(e) && after.settled[e.in_vertex as int] && !after.settled[e.out_vertex as int]
            && !edges_with_source(edges, vertex).contains(e) implies after.keys.contains_key(
        e.out_vertex,
    ) && after.keys[e.out_vertex] <= settled_distance(after, source, e.in_vertex) + e.weight by {
        if e.in_vertex == vertex {
            lemma_edges_with_source_complete(edges, vertex, e);
        } else {
            assert(!Seq::<Edge>::empty().contains(e));
            assert(settled_distance(after, source, e.in_vertex) == settled_distance(
                st,
                source,
                e.in_vertex,
            ));
        }
    }
    if weights_nonnegative(edges) {
        assert forall|x: usize|
            x <= n && x != source && #[trigger] after.settled[x as int] implies no_walk_is_shorter(
            edges,
            source,
            x,
            settled_distance(after, source, x),
        ) by {
            if x == vertex {
                assert forall|walk: Seq<Edge>| #[trigger]
                    is_walk(edges, source, walk, vertex) implies key <= walk_weight(walk) by {
                    lemma_walk_crosses_frontier(edges, n, source, st, key as int, walk, vertex);
                }
            } else {
                assert(st.settled[x as int]);
                assert(settled_distance(after, source, x) == settled_distance(st, source, x));
            }
        }
    }
}

/// Dropping a settled vertex from the heap keeps the invariant.
pub proof fn lemma_discarded(
    edges: Seq<Edge>,
    n: usize,
    source: usize,
    st: Tentative,
    vertex: usize,
    after: Tentative,
)
    requires
        search_invariant(edges, n, source, st, Seq::<Edge>::empty()),
        vertex <= n,
        st.settled[vertex as int],
        after.settled == st.settled,
        after.distance == st.distance,
        after.keys == st.keys.remove(vertex),
    ensures
        search_invariant(edges, n, source, after, Seq::<Edge>::empty()),
{
    assert forall|u: usize| #[trigger] after.keys.contains_key(u) implies {
        &&& u <= n
        &&& after.distance[u as int] matches Some(d) && after.keys[u] <= d
        &&& attained(edges, source, u, after.keys[u] as int)
        &&& -span(after.settled) <= after.keys[u] <= span(after.settled)
    } by {
        assert(st.keys.contains_key(u));
    }
    assert forall|e: Edge| #[trigger]
        edges.contains(e) && after.settled[e.in_vertex as int] && !after.settled[e.out_vertex as int]
            && !Seq::<Edge>::empty().contains(e) implies after.keys.contains_key(e.out_vertex)
        && after.keys[e.out_vertex] <= settled_distance(after, source, e.in_vertex) + e.weight by {
        assert(settled_distance(after, source, e.in_vertex) == settled_distance(
            st,
            source,
            e.in_vertex,
        ));
    }
    if weights_nonnegative(edges) {
        assert forall|x: usize|
            x <= n && x != source && #[trigger] after.settled[x as int] implies no_walk_is_shorter(
            edges,
            source,
            x,
            settled_distance(after, source, x),
        ) by {
            assert(settled_distance(after, source, x) == settled_distance(st, source, x));
        }
    }
}

/// Once the heap is empty, the settled vertices are exactly the ones that
/// a walk from the source reaches, and so are the vertices with a distance.
pub proof fn lemma_search_ends(edges: Seq<Edge>, n: usize, source: usize, st: Tentative)
    requires
        search_invariant(edges, n, source, st, Seq::<Edge>::empty()),
        st.keys == Map::<usize, i64>::empty(),
    ensures
        forall|v: usize|
            v <= n ==> (#[trigger] st.settled[v as int] <==> reachable(edges, source, v)),
        forall|v: usize|
            v <= n ==> ((#[trigger] st.distance[v as int]) is Some <==> reachable(edges, source, v)),
{
    assert forall|e: Edge| #[trigger] edges.contains(e) implies e.in_vertex < st.settled.len()
        && e.out_vertex < st.settled.len() && (st.settled[e.in_vertex as int]
        ==> st.settled[e.out_vertex as int]) by {
        assert(!Seq::<Edge>::empty().contains(e));
    }
    assert forall|v: usize| v <= n implies (#[trigger] st.settled[v as int] <==> reachable(
        edges,
        source,
        v,
    )) by {
        if reachable(edges, source, v) {
            let walk = choose|walk: Seq<Edge>| is_walk(edges, source, walk, v);
            lemma_closed_set_holds_reached(edges, source, st.settled, walk, v);
        }
        if st.settled[v as int] {
            assert(st.distance[v as int] is Some);
        }
    }
    assert forall|v: usize| v <= n implies ((#[trigger] st.distance[v as int]) is Some
        <==> reachable(edges, source, v)) by {
        if st.distance[v as int] is Some {
            assert(st.settled[v as int] || st.keys.contains_key(v));
        }
        if reachable(edges, source, v) {
            assert(st.settled[v as int]);
        }
    }
}

} // verus!
