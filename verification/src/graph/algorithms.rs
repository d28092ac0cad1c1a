//! Traversals and shortest paths over an adjacency list.

use super::paths::{
    attained, count_false, lemma_attained_at_source, lemma_count_false_all,
    lemma_count_false_bound, lemma_count_false_set, no_walk_is_shorter, reachable,
    weights_nonnegative,
};
use super::relaxation::{
    edges_within, lemma_discarded, lemma_passed_over, lemma_relaxed, lemma_search_ends,
    lemma_search_starts, lemma_settled, search_invariant, settled_distance, span, Tentative,
};
use super::search::{
    relaxed, relaxed_by, search_from, searched, seeded, seeded_by, settled_at_root, Search,
};
use super::traversal::{
    discover, drain, lemma_discover_measure, lemma_progress_complete, lemma_progress_mark,
    lemma_progress_take, progress, scan, traversal_order, visits_each_once,
};
use super::{graph_of_text, load_adj_list_from_file, AdjacencyList, Edge, GraphError};
use crate::heap::{BinaryMinHeap, HeapElement, HeapMethod};
use crate::order::lemma_i64_order;
use std::collections::VecDeque;
use vstd::prelude::*;
use vstd::string::StringSliceAdditionalSpecFns;

verus! {

/// A graph together with the algorithms that run on it.
pub struct Graph {
    adj_list: AdjacencyList,
}

/// The answer of a shortest-path search, indexed by vertex; index `0`
/// belongs to no vertex.
pub struct ShortestPaths {
    /// The distance of each vertex from the source, or `None` when no walk
    /// leads to it.
    pub distance: Vec<Option<i64>>,
    /// Whether the search settled the vertex.
    pub settled: Vec<bool>,
}

/// The distance that a search reports for its source: zero, unless an edge
/// leads from the source back to itself. Such an edge is relaxed like any
/// other edge that leaves the source, and the last of them in the chain of
/// the source leaves its weight behind.
pub open spec fn source_distance(out_edges: Seq<Edge>, source: usize) -> i64 {
    let loops = out_edges.filter(|e: Edge| e.out_vertex == source);
    if loops.len() == 0 {
        0
    } else {
        loops.last().weight as i64
    }
}

/// What `source_distance` becomes when one more edge has been relaxed.
proof fn lemma_source_distance_push(done: Seq<Edge>, edge: Edge, source: usize)
    ensures
        source_distance(done.push(edge), source) == if edge.out_vertex == source {
            edge.weight as i64
        } else {
            source_distance(done, source)
        },
{
    done.lemma_filter_push(edge, |e: Edge| e.out_vertex == source);
}

/// The state of the search that the three working structures are in.
spec fn course(
    settled: Vec<bool>,
    distance: Vec<Option<i64>>,
    heap: BinaryMinHeap<i64, usize>,
) -> Search {
    Search { settled: settled@, distance: distance@, slots: heap.slots() }
}

/// What the proofs need to know of the three working structures.
spec fn tentative(
    settled: Vec<bool>,
    distance: Vec<Option<i64>>,
    heap: BinaryMinHeap<i64, usize>,
) -> Tentative {
    Tentative { settled: settled@, distance: distance@, keys: heap.entries() }
}

impl Graph {
    /// The adjacency list that the graph was made from.
    pub closed spec fn adj_list(&self) -> AdjacencyList {
        self.adj_list
    }

    /// The adjacency list is in good order.
    pub open spec fn wf(&self) -> bool {
        self.adj_list().wf()
    }

    /// The graph over `adj_list`.
    pub fn new(adj_list: AdjacencyList) -> (graph: Graph)
        ensures
            graph.adj_list() == adj_list,
    {
        Graph { adj_list }
    }

    /// The number of vertices of the graph.
    pub fn num_vertices(&self) -> (n: usize)
        ensures
            n == self.adj_list().spec_num_vertices(),
    {
        self.adj_list.num_vertices()
    }

    /// Builds the graph that the text of a graph file stands for.
    pub fn create_from_file(content: &str) -> (r: Result<Graph, GraphError>)
        ensures
            match r {
                Ok(graph) => {
                    &&& graph.wf()
                    &&& graph_of_text(content.spec_bytes()) == Ok::<
                        (usize, usize, Seq<Edge>),
                        GraphError,
                    >(
                        (
                            graph.adj_list().spec_num_vertices(),
                            graph.adj_list().spec_num_edges(),
                            graph.adj_list().edges(),
                        ),
                    )
                },
                Err(e) => graph_of_text(content.spec_bytes()) == Err::<
                    (usize, usize, Seq<Edge>),
                    GraphError,
                >(e),
            },
    {
        match load_adj_list_from_file(content) {
            Ok(adj_list) => Ok(Graph { adj_list }),
            Err(e) => Err(e),
        }
    }

    /// Visits every vertex once, depth first, and returns the vertices in
    /// the order of the visits.
    pub fn dfs(&self) -> (order: Vec<usize>)
        requires
            self.wf(),
        ensures
            order@ == traversal_order(
                self.adj_list().edges(),
                self.adj_list().spec_num_vertices(),
                true,
            ),
            visits_each_once(order@, self.adj_list().spec_num_vertices()),
    {
        self.traverse(true)
    }

    /// Visits every vertex once, breadth first, and returns the vertices in
    /// the order of the visits.
    pub fn bfs(&self) -> (order: Vec<usize>)
        requires
            self.wf(),
        ensures
            order@ == traversal_order(
                self.adj_list().edges(),
                self.adj_list().spec_num_vertices(),
                false,
            ),
            visits_each_once(order@, self.adj_list().spec_num_vertices()),
    {
        self.traverse(false)
    }

    /// The traversal that both orders share: the waiting line is worked
    /// from its back when `depth_first`, from its front otherwise.
    fn traverse(&self, depth_first: bool) -> (order: Vec<usize>)
        requires
            self.wf(),
        ensures
            order@ == traversal_order(
                self.adj_list().edges(),
                self.adj_list().spec_num_vertices(),
                depth_first,
            ),
            visits_each_once(order@, self.adj_list().spec_num_vertices()),
    {
        let n: usize = self.adj_list.num_vertices();
        let ghost edges = self.adj_list.edges();
        proof {
            self.adj_list.lemma_edges_within_bounds();
        }
        let mut visited: Vec<bool> = vec![false; n + 1];
        let mut waiting: VecDeque<usize> = VecDeque::new();
        let mut order: Vec<usize> = Vec::new();
        proof {
            assert(visited@ =~= Seq::new((n + 1) as nat, |i: int| false));
            lemma_count_false_all(visited@);
        }
        let mut i: usize = 1;
        while i <= n
            invariant
                self.wf(),
                n == self.adj_list().spec_num_vertices(),
                n < usize::MAX,
                edges == self.adj_list().edges(),
                1 <= i <= n + 1,
                waiting@.len() == 0,
                progress(visited@, waiting@, order@, n),
                forall|v: int| 1 <= v < i ==> visited@[v],
                scan(edges, n, depth_first, visited@, order@, i as nat) == traversal_order(
                    edges,
                    n,
                    depth_first,
                ),
            decreases n + 1 - i,
        {
            if !visited[i] {
                proof {
                    lemma_progress_mark(visited@, waiting@, order@, n, i);
                    assert(waiting@.push(i) =~= seq![i]);
                }
                visited[i] = true;
                waiting.push_back(i);
            }
            proof {
                assert(waiting@ =~= Seq::<usize>::empty() || waiting@ =~= seq![i]);
            }
            let ghost goal = drain(edges, depth_first, visited@, waiting@, order@);
            while waiting.len() > 0
                invariant
                    self.wf(),
                    n == self.adj_list().spec_num_vertices(),
                    edges == self.adj_list().edges(),
                    1 <= i <= n,
                    progress(visited@, waiting@, order@, n),
                    forall|v: int| 1 <= v <= i ==> visited@[v],
                    drain(edges, depth_first, visited@, waiting@, order@) == goal,
                decreases count_false(visited@) + waiting@.len(),
            {
                let ghost line = waiting@;
                proof {
                    lemma_progress_take(visited@, line, order@, n, depth_first);
                }
                let taken: Option<usize> = if depth_first {
                    waiting.pop_back()
                } else {
                    waiting.pop_front()
                };
                let vertex: usize = taken.unwrap();
                order.push(vertex);
                proof {
                    assert(vertex == line[if depth_first {
                        line.len() - 1
                    } else {
                        0
                    }]);
                    self.adj_list.lemma_out_edges_are_edges(vertex);
                    lemma_discover_measure(visited@, waiting@, self.adj_list().out_edges(vertex));
                }
                let mut cursor = self.adj_list.edge_iterator_of_vertex(vertex);
                let ghost found = discover(visited@, waiting@, cursor.remaining());
                let ghost weight = count_false(visited@) + waiting@.len();
                let ghost mut done: int = 0;
                loop
                    invariant
                        n == self.adj_list().spec_num_vertices(),
                        edges == self.adj_list().edges(),
                        1 <= i <= n,
                        cursor.wf(),
                        0 <= done,
                        done + cursor.remaining().len() == self.adj_list().out_edges(vertex).len(),
                        forall|k: int|
                            0 <= k < cursor.remaining().len() ==> cursor.remaining()[k]
                                == self.adj_list().out_edges(vertex)[done + k],
                        forall|k: int|
                            0 <= k < self.adj_list().out_edges(vertex).len()
                                ==> self.adj_list().has_vertex(
                                (#[trigger] self.adj_list().out_edges(vertex)[k]).out_vertex,
                            ),
                        progress(visited@, waiting@, order@, n),
                        forall|v: int| 1 <= v <= i ==> visited@[v],
                        discover(visited@, waiting@, cursor.remaining()) == found,
                        count_false(visited@) + waiting@.len() == weight,
                    ensures
                        cursor.remaining().len() == 0,
                    decreases cursor.remaining().len(),
                {
                    let ghost pending = cursor.remaining();
                    match cursor.next() {
                        None => {
                            break ;
                        },
                        Some(edge) => {
                            let target: usize = edge.out_vertex;
                            proof {
                                assert(pending[0] == self.adj_list().out_edges(vertex)[done]);
                                assert forall|k: int|
                                    0 <= k < pending.drop_first().len() implies pending.drop_first()[k]
                                    == self.adj_list().out_edges(vertex)[done + 1 + k] by {
                                    assert(pending.drop_first()[k] == pending[k + 1]);
                                }
                                done = done + 1;
                            }
                            if !visited[target] {
                                proof {
                                    lemma_progress_mark(visited@, waiting@, order@, n, target);
                                    lemma_count_false_set(visited@, target as int);
                                }
                                visited[target] = true;
                                waiting.push_back(target);
                            }
                        },
                    }
                }
            }
            i += 1;
        }
        proof {
            assert(waiting@ =~= Seq::<usize>::empty());
            lemma_progress_complete(visited@, order@, n);
        }
        order
    }

    /// Single-source shortest paths by Dijkstra's algorithm, from `vertex`.
    ///
    /// The answer is the state in which the search ends when it is run
    /// step by step. Whatever the weights, the vertices that it settles
    /// and the vertices that it finds a distance for are those that a walk
    /// from the source reaches, and each distance is the weight of such a
    /// walk. Where no weight is negative, the distance of every vertex but
    /// the source is the least weight of a walk to it. The source is at
    /// distance zero, unless an edge leads from it back to itself.
    ///
    /// The graph may have at most `2^31 - 1` vertices, so that no distance
    /// leaves `i64`.
    pub fn dijkstra(&self, vertex: usize) -> (paths: ShortestPaths)
        requires
            self.wf(),
            vertex <= self.adj_list().spec_num_vertices(),
            self.adj_list().spec_num_vertices() <= 0x7fff_ffff,
        ensures
            paths.distance@ == search_from(
                self.adj_list().edges(),
                self.adj_list().spec_num_vertices(),
                vertex,
            ).distance,
            paths.settled@ == search_from(
                self.adj_list().edges(),
                self.adj_list().spec_num_vertices(),
                vertex,
            ).settled,
            paths.distance@.len() == self.adj_list().spec_num_vertices() + 1,
            paths.settled@.len() == self.adj_list().spec_num_vertices() + 1,
            forall|v: usize|
                v <= self.adj_list().spec_num_vertices() ==> (#[trigger] paths.settled@[v as int]
                    <==> reachable(self.adj_list().edges(), vertex, v)),
            forall|v: usize|
                v <= self.adj_list().spec_num_vertices() ==> ((#[trigger] paths.distance@[v as int]) is Some
                    <==> reachable(self.adj_list().edges(), vertex, v)),
            forall|v: usize|
                v <= self.adj_list().spec_num_vertices() ==> (
                #[trigger] paths.distance@[v as int] matches Some(d) ==> attained(
                    self.adj_list().edges(),
                    vertex,
                    v,
                    d as int,
                )),
            paths.distance@[vertex as int] == Some(
                source_distance(self.adj_list().out_edges(vertex), vertex),
            ),
            weights_nonnegative(self.adj_list().edges()) ==> forall|v: usize|
                v <= self.adj_list().spec_num_vertices() && v != vertex ==> (
                #[trigger] paths.distance@[v as int] matches Some(d) ==> no_walk_is_shorter(
                    self.adj_list().edges(),
                    vertex,
                    v,
                    d as int,
                )),
    {
        let n: usize = self.adj_list.num_vertices();
        let ghost edges = self.adj_list.edges();
        proof {
            broadcast use vstd::std_specs::hash::group_hash_axioms;

            lemma_i64_order(0, 0);
        }
        let mut heap: BinaryMinHeap<i64, usize> = BinaryMinHeap::new();
        let mut settled: Vec<bool> = vec![false; n + 1];
        let mut distance: Vec<Option<i64>> = vec![None; n + 1];
        settled[vertex] = true;
        distance[vertex] = Some(0);
        proof {
            broadcast use vstd::std_specs::hash::group_hash_axioms;
            self.adj_list.lemma_edges_within_bounds();
            assert(edges_within(edges, n)) by {
                assert forall|e: Edge| #[trigger] edges.contains(e) implies 1 <= e.in_vertex <= n
                    && 1 <= e.out_vertex <= n by {
                    let i = choose|i: int| 0 <= i < edges.len() && edges[i] == e;
                    assert(self.adj_list.has_vertex(edges[i].in_vertex));
                }
            }
            assert(settled@ =~= Seq::new((n + 1) as nat, |i: int| false).update(
                vertex as int,
                true,
            ));
            assert(distance@ =~= Seq::new((n + 1) as nat, |i: int| None::<i64>).update(
                vertex as int,
                Some(0i64),
            ));
            lemma_search_starts(edges, n, vertex, tentative(settled, distance, heap));
            self.adj_list.lemma_out_edges_are_edges(vertex);
            reveal(Seq::filter);
        }

        let mut cursor = self.adj_list.edge_iterator_of_vertex(vertex);
        let ghost mut done: Seq<Edge> = Seq::empty();
        let ghost goal = search_from(edges, n, vertex);
        loop
            invariant
                n == self.adj_list().spec_num_vertices(),
                edges == self.adj_list().edges(),
                cursor.wf(),
                heap.wf(),
                searched(edges, seeded(course(settled, distance, heap), cursor.remaining())) == goal,
                done + cursor.remaining() == self.adj_list().out_edges(vertex),
                forall|k: int|
                    0 <= k < self.adj_list().out_edges(vertex).len() ==> {
                        &&& (#[trigger] self.adj_list().out_edges(vertex)[k]).in_vertex == vertex
                        &&& edges.contains(self.adj_list().out_edges(vertex)[k])
                    },
                search_invariant(
                    edges,
                    n,
                    vertex,
                    tentative(settled, distance, heap),
                    cursor.remaining(),
                ),
                span(settled@) == 0x8000_0000,
                forall|x: int| 0 <= x <= n && settled@[x] ==> x == vertex,
                distance@[vertex as int] == Some(source_distance(done, vertex)),
            ensures
                cursor.remaining().len() == 0,
            decreases cursor.remaining().len(),
        {
            let ghost before = tentative(settled, distance, heap);
            let ghost pending = cursor.remaining();
            match cursor.next() {
                None => {
                    break ;
                },
                Some(edge) => {
                    let target: usize = edge.out_vertex;
                    let weight: i64 = edge.weight as i64;
                    proof {
                        assert(pending[0] == self.adj_list().out_edges(vertex)[done.len() as int]);
                        assert(edges.contains(*edge));
                    }
                    let ghost state = course(settled, distance, heap);
                    proof {
                        heap.lemma_invariant();
                    }
                    distance[target] = Some(weight);
                    heap.push(HeapElement::new(weight, target));
                    proof {
                        assert(course(settled, distance, heap) == seeded_by(state, *edge));
                        let key: i64 = if before.keys.contains_key(target) && before.keys[target]
                            <= weight {
                            before.keys[target]
                        } else {
                            weight
                        };
                        if before.keys.contains_key(target) {
                            lemma_i64_order(weight, before.keys[target]);
                        }
                        assert(heap.entries() =~= before.keys.insert(target, key));
                        lemma_attained_at_source(edges, vertex);
                        lemma_relaxed(
                            edges,
                            n,
                            vertex,
                            before,
                            pending,
                            weight,
                            key,
                            tentative(settled, distance, heap),
                        );
                        lemma_source_distance_push(done, *edge, vertex);
                        assert(done.push(*edge) + pending.drop_first() =~= done + pending);
                        done = done.push(*edge);
                    }
                },
            }
        }
        proof {
            assert(done =~= self.adj_list().out_edges(vertex));
            assert(cursor.remaining() =~= Seq::<Edge>::empty());
        }

        loop
            invariant
                self.wf(),
                n == self.adj_list().spec_num_vertices(),
                edges == self.adj_list().edges(),
                vertex <= n,
                heap.wf(),
                search_invariant(
                    edges,
                    n,
                    vertex,
                    tentative(settled, distance, heap),
                    Seq::<Edge>::empty(),
                ),
                distance@[vertex as int] == Some(
                    source_distance(self.adj_list().out_edges(vertex), vertex),
                ),
                searched(edges, course(settled, distance, heap)) == goal,
            ensures
                heap.entries() == Map::<usize, i64>::empty(),
                course(settled, distance, heap) == goal,
            decreases count_false(settled@), heap.slots().len(),
        {
            let ghost before = tentative(settled, distance, heap);
            let ghost state = course(settled, distance, heap);
            match heap.pop() {
                None => {
                    proof {
                        assert(heap.slots() =~= state.slots);
                    }
                    break ;
                },
                Some(element) => {
                    let current: usize = element.track_id;
                    let weight: i64 = element.key;
                    proof {
                        assert(before.keys.contains_key(current));
                        assert forall|u: usize| before.keys.contains_key(u) implies weight
                            <= #[trigger] before.keys[u] by {
                            lemma_i64_order(weight, before.keys[u]);
                        }
                    }
                    if settled[current] {
                        proof {
                            lemma_discarded(
                                edges,
                                n,
                                vertex,
                                before,
                                current,
                                tentative(settled, distance, heap),
                            );
                        }
                    } else {
                        settled[current] = true;
                        distance[current] = Some(weight);
                        proof {
                            assert(course(settled, distance, heap) == settled_at_root(state));
                            lemma_settled(
                                edges,
                                n,
                                vertex,
                                before,
                                current,
                                weight,
                                tentative(settled, distance, heap),
                            );
                            lemma_count_false_bound(settled@);
                            self.adj_list.lemma_out_edges_are_edges(current);
                        }
                        let mut cursor = self.adj_list.edge_iterator_of_vertex(current);
                        let ghost unsettled = count_false(settled@);
                        let ghost mut done: Seq<Edge> = Seq::empty();
                        loop
                            invariant
                                n == self.adj_list().spec_num_vertices(),
                                edges == self.adj_list().edges(),
                                vertex <= n,
                                current <= n,
                                current != vertex,
                                cursor.wf(),
                                heap.wf(),
                                done + cursor.remaining() == self.adj_list().out_edges(current),
                                forall|k: int|
                                    0 <= k < self.adj_list().out_edges(current).len() ==> {
                                        &&& (#[trigger] self.adj_list().out_edges(
                                            current,
                                        )[k]).in_vertex == current
                                        &&& edges.contains(self.adj_list().out_edges(current)[k])
                                    },
                                search_invariant(
                                    edges,
                                    n,
                                    vertex,
                                    tentative(settled, distance, heap),
                                    cursor.remaining(),
                                ),
                                settled@[current as int],
                                distance@[current as int] == Some(weight),
                                attained(edges, vertex, current, weight as int),
                                0x8000_0000 - span(settled@) <= weight <= span(settled@)
                                    - 0x8000_0000,
                                span(settled@) <= (n + 1) * 0x8000_0000,
                                count_false(settled@) == unsettled,
                                distance@[vertex as int] == Some(
                                    source_distance(self.adj_list().out_edges(vertex), vertex),
                                ),
                                searched(
                                    edges,
                                    relaxed(
                                        course(settled, distance, heap),
                                        weight,
                                        cursor.remaining(),
                                    ),
                                ) == goal,
                            ensures
                                cursor.remaining().len() == 0,
                            decreases cursor.remaining().len(),
                        {
                            let ghost before = tentative(settled, distance, heap);
                            let ghost pending = cursor.remaining();
                            let ghost step = course(settled, distance, heap);
                            proof {
                                heap.lemma_invariant();
                            }
                            match cursor.next() {
                                None => {
                                    break ;
                                },
                                Some(edge) => {
                                    let target: usize = edge.out_vertex;
                                    proof {
                                        assert(pending[0] == self.adj_list().out_edges(
                                            current,
                                        )[done.len() as int]);
                                        assert(edges.contains(*edge));
                                        assert(done.push(*edge) + pending.drop_first() =~= done
                                            + pending);
                                        done = done.push(*edge);
                                    }
                                    if !settled[target] {
                                        let candidate: i64 = weight + edge.weight as i64;
                                        match distance[target] {
                                            None => {
                                                distance[target] = Some(candidate);
                                                heap.push(HeapElement::new(candidate, target));
                                                proof {
                                                    assert(course(settled, distance, heap)
                                                        == relaxed_by(step, weight, *edge));
                                                    assert(!before.keys.contains_key(target));
                                                    lemma_relaxed(
                                                        edges,
                                                        n,
                                                        vertex,
                                                        before,
                                                        pending,
                                                        candidate,
                                                        candidate,
                                                        tentative(settled, distance, heap),
                                                    );
                                                }
                                            },
                                            Some(known) => {
                                                if candidate < known {
                                                    distance[target] = Some(candidate);
                                                    heap.decrease_key(candidate, target);
                                                    proof {
                                                        assert(course(settled, distance, heap)
                                                            == relaxed_by(step, weight, *edge));
                                                        assert(before.keys.contains_key(target));
                                                        lemma_i64_order(
                                                            candidate,
                                                            before.keys[target],
                                                        );
                                                        let key: i64 = if before.keys[target]
                                                            <= candidate {
                                                            before.keys[target]
                                                        } else {
                                                            candidate
                                                        };
                                                        assert(heap.entries()
                                                            =~= before.keys.insert(target, key));
                                                        lemma_relaxed(
                                                            edges,
                                                            n,
                                                            vertex,
                                                            before,
                                                            pending,
                                                            candidate,
                                                            key,
                                                            tentative(settled, distance, heap),
                                                        );
                                                    }
                                                } else {
                                                    proof {
                                                        lemma_passed_over(
                                                            edges,
                                                            n,
                                                            vertex,
                                                            before,
                                                            pending,
                                                        );
                                                    }
                                                }
                                            },
                                        }
                                    } else {
                                        proof {
                                            lemma_passed_over(edges, n, vertex, before, pending);
                                        }
                                    }
                                },
                            }
                        }
                        proof {
                            assert(cursor.remaining() =~= Seq::<Edge>::empty());
                        }
                    }
                },
            }
        }
        proof {
            let st = tentative(settled, distance, heap);
            assert(distance@ == goal.distance);
            assert(settled@ == goal.settled);
            lemma_search_ends(edges, n, vertex, st);
            if weights_nonnegative(edges) {
                assert forall|v: usize| v <= n && v != vertex implies (
                #[trigger] distance@[v as int] matches Some(d) ==> no_walk_is_shorter(
                    edges,
                    vertex,
                    v,
                    d as int,
                )) by {
                    if distance@[v as int] is Some {
                        assert(st.settled[v as int] || st.keys.contains_key(v));
                        assert(settled_distance(st, vertex, v) == distance@[v as int]->0);
                    }
                }
            }
        }
        ShortestPaths { distance, settled }
    }
}

} // verus!
