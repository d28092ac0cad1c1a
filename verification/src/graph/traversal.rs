//! The order in which a traversal visits the vertices of a graph.
//!
//! A traversal scans the vertices in increasing order. A vertex that it
//! finds unvisited is marked and put into the waiting line, and the line is
//! then drained: a vertex is taken from it and visited, and each of its
//! unvisited neighbours, in the order of its chain, is marked and put into
//! the line. Depth-first takes the vertex that entered the line last,
//! breadth-first the one that entered it first.

use super::paths::{count_false, lemma_count_false_set};
use super::{edges_with_source, Edge};
use vstd::prelude::*;

verus! {

/// The marks and the waiting line after the targets of `edges` have been
/// looked at in order, each unvisited one being marked and put into the line.
pub open spec fn discover(visited: Seq<bool>, waiting: Seq<usize>, edges: Seq<Edge>) -> (
    Seq<bool>,
    Seq<usize>,
)
    decreases edges.len(),
{
    if edges.len() == 0 {
        (visited, waiting)
    } else {
        let target = edges[0].out_vertex;
        if target < visited.len() && !visited[target as int] {
            discover(visited.update(target as int, true), waiting.push(target), edges.drop_first())
        } else {
            discover(visited, waiting, edges.drop_first())
        }
    }
}

/// Discovery moves vertices from the unvisited ones into the waiting line
/// and changes nothing else.
pub proof fn lemma_discover_measure(visited: Seq<bool>, waiting: Seq<usize>, edges: Seq<Edge>)
    ensures
        discover(visited, waiting, edges).0.len() == visited.len(),
        count_false(discover(visited, waiting, edges).0) + discover(visited, waiting, edges).1.len()
            == count_false(visited) + waiting.len(),
    decreases edges.len(),
{
    if edges.len() > 0 {
        let target = edges[0].out_vertex;
        if target < visited.len() && !visited[target as int] {
            lemma_count_false_set(visited, target as int);
            lemma_discover_measure(
                visited.update(target as int, true),
                waiting.push(target),
                edges.drop_first(),
            );
        } else {
            lemma_discover_measure(visited, waiting, edges.drop_first());
        }
    }
}

/// The marks and the visiting order after the waiting line has been drained.
pub open spec fn drain(
    edges: Seq<Edge>,
    depth_first: bool,
    visited: Seq<bool>,
    waiting: Seq<usize>,
    order: Seq<usize>,
) -> (Seq<bool>, Seq<usize>)
    decreases count_false(visited) + waiting.len(),
{
    if waiting.len() == 0 {
        (visited, order)
    } else {
        let vertex = if depth_first {
            waiting.last()
        } else {
            waiting.first()
        };
        let rest = if depth_first {
            waiting.drop_last()
        } else {
            waiting.drop_first()
        };
        let found = discover(visited, rest, edges_with_source(edges, vertex));
        proof {
            lemma_discover_measure(visited, rest, edges_with_source(edges, vertex));
        }
        drain(edges, depth_first, found.0, found.1, order.push(vertex))
    }
}

/// The visiting order once the scan has gone from `vertex` up to `n`.
pub open spec fn scan(
    edges: Seq<Edge>,
    n: usize,
    depth_first: bool,
    visited: Seq<bool>,
    order: Seq<usize>,
    vertex: nat,
) -> Seq<usize>
    decreases n + 1 - vertex,
{
    if vertex > n {
        order
    } else {
        let drained = if vertex < visited.len() && !visited[vertex as int] {
            drain(
                edges,
                depth_first,
                visited.update(vertex as int, true),
                seq![vertex as usize],
                order,
            )
        } else {
            drain(edges, depth_first, visited, Seq::<usize>::empty(), order)
        };
        scan(edges, n, depth_first, drained.0, drained.1, vertex + 1)
    }
}

/// The order in which a traversal of a graph with the vertices `1..=n`
/// visits them.
pub open spec fn traversal_order(edges: Seq<Edge>, n: usize, depth_first: bool) -> Seq<usize> {
    scan(edges, n, depth_first, Seq::new((n + 1) as nat, |i: int| false), Seq::<usize>::empty(), 1)
}

/// `order` holds every vertex of `1..=n` exactly once, and nothing else.
pub open spec fn visits_each_once(order: Seq<usize>, n: usize) -> bool {
    &&& order.len() == n
    &&& order.no_duplicates()
    &&& forall|k: int| 0 <= k < order.len() ==> 1 <= #[trigger] order[k] <= n
    &&& forall|v: usize| 1 <= v <= n ==> order.contains(v)
}

/// What holds of a traversal at every moment: the visited vertices are
/// exactly those that were visited in order or wait in the line, and none
/// of them occurs twice.
pub open spec fn progress(visited: Seq<bool>, waiting: Seq<usize>, order: Seq<usize>, n: usize) -> bool {
    &&& visited.len() == n + 1
    &&& !visited[0]
    &&& order.len() + waiting.len() + count_false(visited) == n + 1
    &&& forall|k: int| 0 <= k < order.len() ==> 1 <= #[trigger] order[k] <= n && visited[order[k] as int]
    &&& forall|k: int|
        0 <= k < waiting.len() ==> 1 <= #[trigger] waiting[k] <= n && visited[waiting[k] as int]
    &&& order.no_duplicates()
    &&& waiting.no_duplicates()
    &&& forall|a: int, b: int|
        0 <= a < order.len() && 0 <= b < waiting.len() ==> #[trigger] order[a] != #[trigger] waiting[b]
    &&& forall|v: usize|
        1 <= v <= n && #[trigger] visited[v as int] ==> order.contains(v) || waiting.contains(v)
}

/// Marking an unvisited vertex and putting it into the line keeps `progress`.
pub proof fn lemma_progress_mark(
    visited: Seq<bool>,
    waiting: Seq<usize>,
    order: Seq<usize>,
    n: usize,
    vertex: usize,
)
    requires
        progress(visited, waiting, order, n),
        1 <= vertex <= n,
        !visited[vertex as int],
    ensures
        progress(visited.update(vertex as int, true), waiting.push(vertex), order, n),
{
    let marked = visited.update(vertex as int, true);
    let longer = waiting.push(vertex);
    lemma_count_false_set(visited, vertex as int);
    assert forall|v: usize| 1 <= v <= n && #[trigger] marked[v as int] implies order.contains(v)
        || longer.contains(v) by {
        if v == vertex {
            assert(longer[waiting.len() as int] == vertex);
        } else {
            assert(visited[v as int]);
            if waiting.contains(v) {
                let k = choose|k: int| 0 <= k < waiting.len() && waiting[k] == v;
                assert(longer[k] == v);
            }
        }
    }
}

/// Taking a vertex from the line and visiting it keeps `progress`.
pub proof fn lemma_progress_take(
    visited: Seq<bool>,
    waiting: Seq<usize>,
    order: Seq<usize>,
    n: usize,
    depth_first: bool,
)
    requires
        progress(visited, waiting, order, n),
        waiting.len() > 0,
    ensures
        progress(
            visited,
            if depth_first {
                waiting.drop_last()
            } else {
                waiting.drop_first()
            },
            order.push(
                if depth_first {
                    waiting.last()
                } else {
                    waiting.first()
                },
            ),
            n,
        ),
{
    let vertex = if depth_first {
        waiting.last()
    } else {
        waiting.first()
    };
    let at: int = if depth_first {
        waiting.len() - 1
    } else {
        0
    };
    let shift: int = if depth_first {
        0
    } else {
        1
    };
    let rest = if depth_first {
        waiting.drop_last()
    } else {
        waiting.drop_first()
    };
    let longer = order.push(vertex);
    assert(waiting[at] == vertex);
    assert forall|k: int| 0 <= k < rest.len() implies rest[k] == waiting[k + shift] by {}
    assert forall|v: usize| 1 <= v <= n && #[trigger] visited[v as int] implies longer.contains(v)
        || rest.contains(v) by {
        if v == vertex {
            assert(longer[order.len() as int] == v);
        } else if order.contains(v) {
            let k = choose|k: int| 0 <= k < order.len() && order[k] == v;
            assert(longer[k] == v);
        } else {
            let k = choose|k: int| 0 <= k < waiting.len() && waiting[k] == v;
            assert(rest[k - shift] == v);
        }
    }
    assert forall|k: int| 0 <= k < longer.len() implies 1 <= #[trigger] longer[k] <= n
        && visited[longer[k] as int] by {
        if k < order.len() {
            assert(longer[k] == order[k]);
        }
    }
    assert forall|a: int, b: int| 0 <= a < longer.len() && 0 <= b < rest.len() implies #[trigger] longer[a]
        != #[trigger] rest[b] by {
        assert(rest[b] == waiting[b + shift]);
        if a < order.len() {
            assert(longer[a] == order[a]);
        }
    }
    assert forall|a: int, b: int| 0 <= a < longer.len() && 0 <= b < longer.len() && a != b implies longer[a]
        != longer[b] by {
        if a < order.len() {
            assert(longer[a] == order[a]);
        }
        if b < order.len() {
            assert(longer[b] == order[b]);
        }
    }
    assert forall|a: int, b: int| 0 <= a < rest.len() && 0 <= b < rest.len() && a != b implies rest[a]
        != rest[b] by {
        assert(rest[a] == waiting[a + shift]);
        assert(rest[b] == waiting[b + shift]);
    }
}

/// When every vertex has been marked and the line is empty, every vertex
/// has been visited exactly once.
pub proof fn lemma_progress_complete(visited: Seq<bool>, order: Seq<usize>, n: usize)
    requires
        progress(visited, Seq::<usize>::empty(), order, n),
        forall|v: int| 1 <= v <= n ==> visited[v],
    ensures
        visits_each_once(order, n),
{
    lemma_count_false_first_only(visited);
    assert forall|v: usize| 1 <= v <= n implies order.contains(v) by {
        assert(visited[v as int]);
    }
}

/// A sequence of marks of which only the first is unset has one unset mark.
proof fn lemma_count_false_first_only(marks: Seq<bool>)
    requires
        marks.len() >= 1,
        !marks[0],
        forall|i: int| 1 <= i < marks.len() ==> marks[i],
    ensures
        count_false(marks) == 1,
    decreases marks.len(),
{
    if marks.len() > 1 {
        lemma_count_false_first_only(marks.drop_last());
    } else {
        assert(count_false(marks.drop_last()) == 0);
    }
}

} // verus!
