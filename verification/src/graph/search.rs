//! The course of a shortest-path search, step by step.
//!
//! The search starts with the source settled at distance zero and relaxes
//! the edges that leave it. Then, for as long as the heap holds a vertex, it
//! pops the one in the root slot; a vertex that is not settled yet is
//! settled at its key, and the edges that leave it are relaxed.

use super::paths::{count_false, lemma_count_false_set};
use super::{edges_with_source, Edge};
use crate::heap::binary_heap::{
    exchanged, least_child, lowered, popped, positions_of, pushed, sifted_down,
};
use crate::heap::HeapElement;
use vstd::prelude::*;

verus! {

/// The state of a search.
pub struct Search {
    /// Per vertex, whether its distance is final.
    pub settled: Seq<bool>,
    /// Per vertex, the distance known so far.
    pub distance: Seq<Option<i64>>,
    /// The slots of the heap, root first; each holds a vertex under its key.
    pub slots: Seq<HeapElement<i64, usize>>,
}

/// The state in which a search from `source` begins.
pub open spec fn begun(n: usize, source: usize) -> Search {
    Search {
        settled: Seq::new((n + 1) as nat, |i: int| false).update(source as int, true),
        distance: Seq::new((n + 1) as nat, |i: int| None::<i64>).update(source as int, Some(0i64)),
        slots: Seq::empty(),
    }
}

/// The state after the edges that leave the source have been relaxed: each
/// sets the distance of its target to its weight and pushes the target
/// under that weight.
pub open spec fn seeded(state: Search, edges: Seq<Edge>) -> Search
    decreases edges.len(),
{
    if edges.len() == 0 {
        state
    } else {
        seeded(seeded_by(state, edges[0]), edges.drop_first())
    }
}

/// The state after one edge that leaves the source has been relaxed.
pub open spec fn seeded_by(state: Search, edge: Edge) -> Search {
    Search {
        settled: state.settled,
        distance: state.distance.update(edge.out_vertex as int, Some(edge.weight as i64)),
        slots: pushed(
            state.slots,
            positions_of(state.slots),
            HeapElement { key: edge.weight as i64, track_id: edge.out_vertex },
        ),
    }
}

/// The state after one edge that leaves a vertex settled at `base` has
/// been relaxed. A settled target is passed over. A target without a
/// distance gets one and is pushed; one with a greater distance gets the
/// lesser one, and its key is lowered.
pub open spec fn relaxed_by(state: Search, base: i64, edge: Edge) -> Search {
    let target = edge.out_vertex;
    let candidate = (base + edge.weight) as i64;
    if state.settled[target as int] {
        state
    } else {
        match state.distance[target as int] {
            None => Search {
                settled: state.settled,
                distance: state.distance.update(target as int, Some(candidate)),
                slots: pushed(
                    state.slots,
                    positions_of(state.slots),
                    HeapElement { key: candidate, track_id: target },
                ),
            },
            Some(known) => if candidate < known {
                Search {
                    settled: state.settled,
                    distance: state.distance.update(target as int, Some(candidate)),
                    slots: lowered(state.slots, positions_of(state.slots), candidate, target),
                }
            } else {
                state
            },
        }
    }
}

/// The state after the edges that leave a vertex settled at `base` have
/// been relaxed in order.
pub open spec fn relaxed(state: Search, base: i64, edges: Seq<Edge>) -> Search
    decreases edges.len(),
{
    if edges.len() == 0 {
        state
    } else {
        relaxed(relaxed_by(state, base, edges[0]), base, edges.drop_first())
    }
}

/// Relaxing edges settles no vertex.
pub proof fn lemma_relaxed_keeps_settled(state: Search, base: i64, edges: Seq<Edge>)
    ensures
        relaxed(state, base, edges).settled == state.settled,
    decreases edges.len(),
{
    if edges.len() > 0 {
        lemma_relaxed_keeps_settled(relaxed_by(state, base, edges[0]), base, edges.drop_first());
    }
}

/// Moving an element down the heap keeps the number of slots.
pub proof fn lemma_sifted_down_len(slots: Seq<HeapElement<i64, usize>>, index: int)
    ensures
        sifted_down(slots, index).len() == slots.len(),
    decreases slots.len() - index,
{
    if 0 <= index && 2 * index + 1 < slots.len() && crate::order::lt(
        slots[least_child(slots, index)].key,
        slots[index].key,
    ) {
        lemma_sifted_down_len(
            exchanged(slots, index, least_child(slots, index)),
            least_child(slots, index),
        );
    }
}

/// The state with the vertex in the root slot popped and settled at its key.
pub open spec fn settled_at_root(state: Search) -> Search {
    Search {
        settled: state.settled.update(state.slots[0].track_id as int, true),
        distance: state.distance.update(state.slots[0].track_id as int, Some(state.slots[0].key)),
        slots: popped(state.slots),
    }
}

/// The state in which a search ends when it goes on from `state`.
pub open spec fn searched(edges: Seq<Edge>, state: Search) -> Search
    decreases count_false(state.settled), state.slots.len(),
{
    if state.slots.len() == 0 {
        state
    } else {
        let vertex = state.slots[0].track_id;
        proof {
            lemma_sifted_down_len(state.slots.update(0, state.slots.last()).drop_last(), 0);
        }
        if vertex < state.settled.len() && !state.settled[vertex as int] {
            proof {
                lemma_relaxed_keeps_settled(
                    settled_at_root(state),
                    state.slots[0].key,
                    edges_with_source(edges, vertex),
                );
                lemma_count_false_set(state.settled, vertex as int);
            }
            searched(
                edges,
                relaxed(settled_at_root(state), state.slots[0].key, edges_with_source(edges, vertex)),
            )
        } else {
            searched(
                edges,
                Search {
                    settled: state.settled,
                    distance: state.distance,
                    slots: popped(state.slots),
                },
            )
        }
    }
}

/// The state in which a search from `source` ends, in a graph with the
/// vertices `1..=n` and the given edges.
pub open spec fn search_from(edges: Seq<Edge>, n: usize, source: usize) -> Search {
    searched(edges, seeded(begun(n, source), edges_with_source(edges, source)))
}

} // verus!
