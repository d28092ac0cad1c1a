//! Weighted directed graphs stored as an adjacency list over flat arrays.
//!
//! Vertices are numbered `1..=num_vertices`; vertex `0` is reserved and never
//! carries an edge. Every inserted edge receives the next handle, starting at
//! `1`, and the edges that leave one vertex are threaded into a chain that
//! runs from the most recent insertion back to the oldest.

use self::format::{edges_in_words, write_edges_in_words};
use self::text::{
    lemma_line_len, line_end, line_len, parse_i32, parse_signed, parse_unsigned, parse_usize,
    split_lines, split_tokens, stretches, tokens,
};
use vstd::prelude::*;
use vstd::string::StringSliceAdditionalSpecFns;

pub mod algorithms;
pub mod format;
pub mod paths;
pub mod relaxation;
pub mod round_trip;
pub mod search;
pub mod text;
pub mod traversal;
pub mod utils;

pub use self::algorithms::Graph;

verus! {

/// A directed edge from `in_vertex` to `out_vertex`.
#[derive(Clone, Copy, Debug, PartialEq, Eq, Structural)]
pub struct Edge {
    pub in_vertex: usize,
    pub out_vertex: usize,
    pub weight: i32,
}

/// Why a graph could not be built or extended.
///
/// `MalformedInput` is the class of unreadable input text; the other two
/// variants form the class of structural violations.
#[derive(Clone, Copy, Debug, PartialEq, Eq, Structural)]
pub enum GraphError {
    /// A line of the input text has the wrong number of fields, or a field
    /// is not a number of the expected kind.
    MalformedInput,
    /// A vertex lies outside `1..=num_vertices`.
    VertexOutOfRange,
    /// The graph already holds as many edges as it was created for.
    CapacityExhausted,
}

impl GraphError {
    /// Whether the error is a structural violation rather than malformed input.
    pub fn is_structural(&self) -> (r: bool)
        ensures
            r == (*self != GraphError::MalformedInput),
    {
        match self {
            GraphError::MalformedInput => false,
            GraphError::VertexOutOfRange => true,
            GraphError::CapacityExhausted => true,
        }
    }
}

impl Edge {
    /// The edge from `in_vertex` to `out_vertex` with the given weight.
    pub fn new(in_vertex: usize, out_vertex: usize, weight: i32) -> (edge: Edge)
        ensures
            edge == (Edge { in_vertex, out_vertex, weight }),
    {
        Edge { in_vertex, out_vertex, weight }
    }
}

/// The edges of `edges` that leave `vertex`, most recent insertion first.
pub open spec fn edges_with_source(edges: Seq<Edge>, vertex: usize) -> Seq<Edge> {
    edges.filter(|e: Edge| e.in_vertex == vertex).reverse()
}

/// The edges met when following the chain that starts at `handle`.
spec fn chain(edges: Seq<Edge>, next: Seq<Option<usize>>, handle: Option<usize>) -> Seq<Edge>
    decreases
        (match handle {
            Some(h) => h as int,
            None => 0,
        }),
{
    match handle {
        Some(h) => {
            if 1 <= h <= edges.len() && h <= next.len() && (next[h - 1] matches Some(p) ==> p < h) {
                seq![edges[h - 1]] + chain(edges, next, next[h - 1])
            } else {
                Seq::empty()
            }
        },
        None => Seq::empty(),
    }
}

/// Every link points to a handle that was assigned earlier.
spec fn links_point_back(next: Seq<Option<usize>>) -> bool {
    forall|i: int| 0 <= i < next.len() ==> (#[trigger] next[i] matches Some(p) ==> 1 <= p <= i)
}

/// Appending an edge leaves every chain that starts at an older handle as it was.
proof fn lemma_chain_after_push(
    edges: Seq<Edge>,
    next: Seq<Option<usize>>,
    edge: Edge,
    link: Option<usize>,
    handle: Option<usize>,
)
    requires
        edges.len() == next.len(),
        links_point_back(next),
        handle matches Some(h) ==> h <= edges.len(),
    ensures
        chain(edges.push(edge), next.push(link), handle) == chain(edges, next, handle),
    decreases
        (match handle {
            Some(h) => h as int,
            None => 0,
        }),
{
    match handle {
        Some(h) => {
            if 1 <= h {
                assert(edges.push(edge)[h - 1] == edges[h - 1]);
                assert(next.push(link)[h - 1] == next[h - 1]);
                lemma_chain_after_push(edges, next, edge, link, next[h - 1]);
            }
        },
        None => {},
    }
}

/// What `edges_with_source` becomes when one more edge is inserted.
pub proof fn lemma_edges_with_source_push(edges: Seq<Edge>, edge: Edge, vertex: usize)
    ensures
        edges_with_source(edges.push(edge), vertex) == if edge.in_vertex == vertex {
            seq![edge] + edges_with_source(edges, vertex)
        } else {
            edges_with_source(edges, vertex)
        },
{
    let pred = |e: Edge| e.in_vertex == vertex;
    edges.lemma_filter_push(edge, pred);
    if edge.in_vertex == vertex {
        let kept = edges.filter(pred);
        assert(kept.push(edge).reverse() =~= seq![edge] + kept.reverse());
    }
}

/// A graph with a fixed number of vertices and a fixed capacity for edges.
pub struct AdjacencyList {
    /// The edge with handle `h` is `edges[h - 1]`.
    edges: Vec<Edge>,
    /// Per vertex, the handle of the edge inserted last with that source.
    first: Vec<Option<usize>>,
    /// Per edge, the handle of the edge inserted before it with the same source.
    next: Vec<Option<usize>>,
    num_vertices: usize,
    num_edges: usize,
}

impl AdjacencyList {
    /// The edges inserted so far, oldest first; the edge with handle `h` is
    /// at index `h - 1`.
    pub closed spec fn edges(&self) -> Seq<Edge> {
        self.edges@
    }

    /// The number of vertices; they are numbered from `1` to this number.
    pub closed spec fn spec_num_vertices(&self) -> usize {
        self.num_vertices
    }

    /// The number of edges the graph was created to hold.
    pub closed spec fn spec_num_edges(&self) -> usize {
        self.num_edges
    }

    /// The edges that leave `vertex`, in the order in which a cursor yields them.
    pub open spec fn out_edges(&self, vertex: usize) -> Seq<Edge> {
        edges_with_source(self.edges(), vertex)
    }

    /// Whether `vertex` names a vertex of the graph.
    pub open spec fn has_vertex(&self, vertex: usize) -> bool {
        1 <= vertex <= self.spec_num_vertices()
    }

    /// The representation invariant: the arrays have the sizes fixed at
    /// construction, every edge joins two vertices of the graph, every link
    /// points to an older handle, and the chain of each vertex holds exactly
    /// the edges that leave it.
    pub closed spec fn wf(&self) -> bool {
        &&& self.num_vertices < usize::MAX
        &&& self.first@.len() == self.num_vertices + 1
        &&& self.next@.len() == self.edges@.len()
        &&& self.edges@.len() <= self.num_edges
        &&& links_point_back(self.next@)
        &&& forall|v: int|
            0 <= v <= self.num_vertices ==> (#[trigger] self.first@[v] matches Some(h) ==> 1 <= h
                <= self.edges@.len())
        &&& forall|i: int|
            0 <= i < self.edges@.len() ==> {
                &&& 1 <= (#[trigger] self.edges@[i]).in_vertex <= self.num_vertices
                &&& 1 <= self.edges@[i].out_vertex <= self.num_vertices
            }
        &&& forall|v: usize|
            v <= self.num_vertices ==> chain(self.edges@, self.next@, #[trigger] self.first@[v as int])
                == edges_with_source(self.edges@, v)
    }

    /// The bounds that the invariant places on the stored edges.
    pub proof fn lemma_edges_within_bounds(&self)
        requires
            self.wf(),
        ensures
            self.spec_num_vertices() < usize::MAX,
            self.edges().len() <= self.spec_num_edges(),
            forall|i: int|
                0 <= i < self.edges().len() ==> self.has_vertex((#[trigger] self.edges()[i]).in_vertex)
                    && self.has_vertex(self.edges()[i].out_vertex),
    {
    }

    /// Every edge that leaves `vertex` is a stored edge with that source.
    pub proof fn lemma_out_edges_are_edges(&self, vertex: usize)
        requires
            self.wf(),
        ensures
            forall|k: int|
                0 <= k < self.out_edges(vertex).len() ==> {
                    &&& (#[trigger] self.out_edges(vertex)[k]).in_vertex == vertex
                    &&& self.edges().contains(self.out_edges(vertex)[k])
                    &&& self.has_vertex(self.out_edges(vertex)[k].out_vertex)
                },
    {
        broadcast use vstd::seq_lib::group_filter_ensures;

        let pred = |e: Edge| e.in_vertex == vertex;
        let kept = self.edges().filter(pred);
        assert forall|k: int| 0 <= k < self.out_edges(vertex).len() implies {
            &&& (#[trigger] self.out_edges(vertex)[k]).in_vertex == vertex
            &&& self.edges().contains(self.out_edges(vertex)[k])
            &&& self.has_vertex(self.out_edges(vertex)[k].out_vertex)
        } by {
            let e = self.out_edges(vertex)[k];
            assert(e == kept[kept.len() - 1 - k]);
            assert(pred(e));
            assert(kept.contains(e));
            self.edges().lemma_filter_contains_rev(pred, e);
            let i = choose|i: int| 0 <= i < self.edges().len() && self.edges()[i] == e;
            assert(self.edges@[i] == e);
        }
    }

    /// A graph of `num_vertices` vertices and no edges, with room for
    /// `num_edges` of them.
    pub fn new(num_vertices: usize, num_edges: usize) -> (graph: AdjacencyList)
        requires
            num_vertices < usize::MAX,
        ensures
            graph.wf(),
            graph.spec_num_vertices() == num_vertices,
            graph.spec_num_edges() == num_edges,
            graph.edges() == Seq::<Edge>::empty(),
    {
        let first: Vec<Option<usize>> = vec![None; num_vertices + 1];
        let graph = AdjacencyList {
            edges: Vec::new(),
            first,
            next: Vec::new(),
            num_vertices,
            num_edges,
        };
        proof {
            assert forall|v: usize| v <= graph.num_vertices implies chain(
                graph.edges@,
                graph.next@,
                #[trigger] graph.first@[v as int],
            ) == edges_with_source(graph.edges@, v) by {
                reveal(Seq::filter);
                assert(edges_with_source(graph.edges@, v) =~= Seq::<Edge>::empty());
            }
        }
        graph
    }

    #[verifier::when_used_as_spec(spec_num_vertices)]
    /// The number of vertices; they are numbered from `1` to this number.
    pub fn num_vertices(&self) -> (n: usize)
        ensures
            n == self.spec_num_vertices(),
    {
        self.num_vertices
    }

    #[verifier::when_used_as_spec(spec_num_edges)]
    /// The number of edges the graph was created to hold, which is not the
    /// number of edges that it holds.
    pub fn num_edges(&self) -> (n: usize)
        ensures
            n == self.spec_num_edges(),
    {
        self.num_edges
    }

    /// Inserts the edge `in_vertex -> out_vertex`.
    ///
    /// The vertices are checked first: if either lies outside
    /// `1..=num_vertices` the call fails with `VertexOutOfRange`. Otherwise,
    /// if the graph is full, it fails with `CapacityExhausted`. A failed call
    /// leaves the graph as it was.
    pub fn add_directed_edge(&mut self, in_vertex: usize, out_vertex: usize, weight: i32) -> (r:
        Result<(), GraphError>)
        requires
            old(self).wf(),
        ensures
            final(self).wf(),
            final(self).spec_num_vertices() == old(self).spec_num_vertices(),
            final(self).spec_num_edges() == old(self).spec_num_edges(),
            r == old(self).insertion_outcome(in_vertex, out_vertex),
            r is Ok ==> final(self).edges() == old(self).edges().push(
                Edge { in_vertex, out_vertex, weight },
            ),
            r is Err ==> final(self).edges() == old(self).edges(),
    {
        if in_vertex == 0 || out_vertex == 0 || in_vertex > self.num_vertices || out_vertex
            > self.num_vertices {
            return Err(GraphError::VertexOutOfRange);
        }
        if self.edges.len() >= self.num_edges {
            return Err(GraphError::CapacityExhausted);
        }
        let edge = Edge::new(in_vertex, out_vertex, weight);
        let handle: usize = self.edges.len() + 1;
        let link: Option<usize> = self.first[in_vertex];
        proof {
            assert forall|v: usize| v <= self.num_vertices implies chain(
                self.edges@.push(edge),
                self.next@.push(link),
                #[trigger] self.first@.update(in_vertex as int, Some(handle))[v as int],
            ) == edges_with_source(self.edges@.push(edge), v) by {
                lemma_edges_with_source_push(self.edges@, edge, v);
                lemma_chain_after_push(self.edges@, self.next@, edge, link, self.first@[v as int]);
                if v == in_vertex {
                    assert(self.edges@.push(edge)[handle - 1] == edge);
                    assert(self.next@.push(link)[handle - 1] == link);
                }
            }
        }
        self.edges.push(edge);
        self.next.push(link);
        self.first[in_vertex] = Some(handle);
        Ok(())
    }

    /// What an insertion of `in_vertex -> out_vertex` answers in this state.
    pub open spec fn insertion_outcome(&self, in_vertex: usize, out_vertex: usize) -> Result<
        (),
        GraphError,
    > {
        if !self.has_vertex(in_vertex) || !self.has_vertex(out_vertex) {
            Err(GraphError::VertexOutOfRange)
        } else if self.edges().len() >= self.spec_num_edges() {
            Err(GraphError::CapacityExhausted)
        } else {
            Ok(())
        }
    }

    /// Inserts `in_vertex -> out_vertex` and then `out_vertex -> in_vertex`,
    /// both with the given weight, as two independent directed edges.
    ///
    /// The capacity counts directed edges, so an undirected edge takes two
    /// slots. The first failing insertion ends the call with its error: when
    /// exactly one slot is free, the first edge stays inserted and the call
    /// fails with `CapacityExhausted`.
    pub fn add_undirected_edge(&mut self, in_vertex: usize, out_vertex: usize, weight: i32) -> (r:
        Result<(), GraphError>)
        requires
            old(self).wf(),
        ensures
            final(self).wf(),
            final(self).spec_num_vertices() == old(self).spec_num_vertices(),
            final(self).spec_num_edges() == old(self).spec_num_edges(),
            r == (match old(self).insertion_outcome(in_vertex, out_vertex) {
                Err(e) => Err(e),
                Ok(()) => if old(self).edges().len() + 1 >= old(self).spec_num_edges() {
                    Err(GraphError::CapacityExhausted)
                } else {
                    Ok(())
                },
            }),
            final(self).edges() == (match old(self).insertion_outcome(in_vertex, out_vertex) {
                Err(e) => old(self).edges(),
                Ok(()) => {
                    let forward = old(self).edges().push(Edge { in_vertex, out_vertex, weight });
                    if r is Ok {
                        forward.push(Edge { in_vertex: out_vertex, out_vertex: in_vertex, weight })
                    } else {
                        forward
                    }
                },
            }),
    {
        match self.add_directed_edge(in_vertex, out_vertex, weight) {
            Err(e) => Err(e),
            Ok(()) => self.add_directed_edge(out_vertex, in_vertex, weight),
        }
    }

    /// The edges in words, one to a line, in the order of their insertion.
    pub fn to_str(&self) -> (text: String)
        ensures
            text@ == edges_in_words(self.edges()),
    {
        write_edges_in_words(&self.edges)
    }

    /// As a set of elements, the edges that leave `vertex` are the inserted
    /// edges with that source: each of them is there as often as it was
    /// inserted, and nothing else is.
    pub proof fn lemma_out_edges_same_elements(&self, vertex: usize)
        ensures
            self.out_edges(vertex).to_multiset() == self.edges().filter(
                |e: Edge| e.in_vertex == vertex,
            ).to_multiset(),
    {
        self.edges().filter(|e: Edge| e.in_vertex == vertex).lemma_reverse_to_multiset();
    }

    /// A cursor over the edges that leave `vertex`, most recent insertion first.
    ///
    /// Vertex `0` carries no edge, so its cursor is empty.
    pub fn edge_iterator_of_vertex(&self, vertex: usize) -> (cursor: EdgeIterator<'_>)
        requires
            self.wf(),
            vertex <= self.spec_num_vertices(),
        ensures
            cursor.wf(),
            cursor.graph() == *self,
            cursor.remaining() == self.out_edges(vertex),
    {
        EdgeIterator { graph: self, next_edge_index: self.first[vertex] }
    }
}

/// A cursor over the chain of edges that leave one vertex.
pub struct EdgeIterator<'a> {
    graph: &'a AdjacencyList,
    next_edge_index: Option<usize>,
}

impl<'a> EdgeIterator<'a> {
    /// The graph that the cursor walks.
    pub closed spec fn graph(&self) -> AdjacencyList {
        *self.graph
    }

    /// The edges that the cursor has yet to yield, in order.
    pub closed spec fn remaining(&self) -> Seq<Edge> {
        chain(self.graph.edges@, self.graph.next@, self.next_edge_index)
    }

    /// The cursor walks a graph in good order, and stands at one of its edges
    /// or at the end of a chain.
    pub closed spec fn wf(&self) -> bool {
        &&& self.graph.wf()
        &&& self.next_edge_index matches Some(h) ==> 1 <= h <= self.graph.edges@.len()
    }

    /// Yields the next edge of the chain, or `None` at its end.
    pub fn next(&mut self) -> (r: Option<&'a Edge>)
        requires
            old(self).wf(),
        ensures
            final(self).wf(),
            final(self).graph() == old(self).graph(),
            match r {
                Some(edge) => {
                    &&& old(self).remaining().len() > 0
                    &&& *edge == old(self).remaining()[0]
                    &&& final(self).remaining() == old(self).remaining().drop_first()
                },
                None => {
                    &&& old(self).remaining().len() == 0
                    &&& final(self).remaining() == old(self).remaining()
                },
            },
    {
        match self.next_edge_index {
            None => None,
            Some(handle) => {
                let graph: &'a AdjacencyList = self.graph;
                let edge: &'a Edge = &graph.edges[handle - 1];
                let link: Option<usize> = graph.next[handle - 1];
                proof {
                    let rest = chain(graph.edges@, graph.next@, link);
                    assert(old(self).remaining() == seq![*edge] + rest);
                    assert(old(self).remaining().drop_first() =~= rest);
                }
                self.next_edge_index = link;
                Some(edge)
            },
        }
    }
}

/// The edge that a line of a graph file stands for: three fields, the two
/// vertices and the weight.
pub open spec fn parse_edge(line: Seq<u8>) -> Option<Edge> {
    let fields = tokens(line);
    if fields.len() != 3 {
        None
    } else {
        match (parse_unsigned(fields[0]), parse_unsigned(fields[1]), parse_signed(fields[2])) {
            (Some(in_vertex), Some(out_vertex), Some(weight)) => Some(
                Edge { in_vertex, out_vertex, weight },
            ),
            _ => None,
        }
    }
}

/// What the first line of a graph file stands for: two fields, the number
/// of vertices and the number of edges.
pub open spec fn parse_header(line: Seq<u8>) -> Option<(usize, usize)> {
    let fields = tokens(line);
    if fields.len() != 2 {
        None
    } else {
        match (parse_unsigned(fields[0]), parse_unsigned(fields[1])) {
            (Some(num_vertices), Some(num_edges)) => if num_vertices < usize::MAX {
                Some((num_vertices, num_edges))
            } else {
                None
            },
            _ => None,
        }
    }
}

/// The edges that the lines `records` insert, one after the other, into a
/// graph of `num_vertices` vertices with room for `num_edges` edges; or the
/// error of the first line that cannot be read or inserted.
pub open spec fn read_edges(records: Seq<Seq<u8>>, num_vertices: usize, num_edges: usize) -> Result<
    Seq<Edge>,
    GraphError,
>
    decreases records.len(),
{
    if records.len() == 0 {
        Ok(Seq::empty())
    } else {
        match read_edges(records.drop_last(), num_vertices, num_edges) {
            Err(e) => Err(e),
            Ok(edges) => match parse_edge(records.last()) {
                None => Err(GraphError::MalformedInput),
                Some(edge) => if !(1 <= edge.in_vertex <= num_vertices && 1 <= edge.out_vertex
                    <= num_vertices) {
                    Err(GraphError::VertexOutOfRange)
                } else if edges.len() >= num_edges {
                    Err(GraphError::CapacityExhausted)
                } else {
                    Ok(edges.push(edge))
                },
            },
        }
    }
}

/// What the text of a graph file stands for: the number of vertices, the
/// number of edges and the edges in the order of their lines. The text is
/// malformed when it has no first line, when a line does not have the
/// fields that its place asks for, or when it holds fewer edges than its
/// first line announces.
pub open spec fn graph_of_text(text: Seq<u8>) -> Result<(usize, usize, Seq<Edge>), GraphError> {
    let lines = split_lines(text);
    if lines.len() == 0 {
        Err(GraphError::MalformedInput)
    } else {
        match parse_header(lines[0]) {
            None => Err(GraphError::MalformedInput),
            Some((num_vertices, num_edges)) => match read_edges(
                lines.skip(1),
                num_vertices,
                num_edges,
            ) {
                Err(e) => Err(e),
                Ok(edges) => if edges.len() != num_edges {
                    Err(GraphError::MalformedInput)
                } else {
                    Ok((num_vertices, num_edges, edges))
                },
            },
        }
    }
}

/// Builds the graph that the text of a graph file stands for. The edges
/// are inserted in the order of their lines.
pub fn load_adj_list_from_file(content: &str) -> (r: Result<AdjacencyList, GraphError>)
    ensures
        match r {
            Ok(graph) => {
                &&& graph.wf()
                &&& graph_of_text(content.spec_bytes()) == Ok::<
                    (usize, usize, Seq<Edge>),
                    GraphError,
                >((graph.spec_num_vertices(), graph.spec_num_edges(), graph.edges()))
            },
            Err(e) => graph_of_text(content.spec_bytes()) == Err::<
                (usize, usize, Seq<Edge>),
                GraphError,
            >(e),
        },
{
    let bytes: &[u8] = content.as_bytes();
    let len: usize = bytes.len();
    let ghost text = bytes@;
    let ghost lines = split_lines(text);
    if len == 0 {
        return Err(GraphError::MalformedInput);
    }
    let header_end: usize = line_end(bytes, 0);
    proof {
        lemma_line_len(text);
        assert(text.skip(0) =~= text);
        assert(text.take(header_end as int) =~= text.subrange(0, header_end as int));
        if header_end == len {
            assert(text.take(header_end as int) =~= text);
        }
        assert(lines[0] == text.subrange(0, header_end as int));
    }
    let fields: Vec<(usize, usize)> = split_tokens(bytes, 0, header_end);
    if fields.len() != 2 {
        return Err(GraphError::MalformedInput);
    }
    proof {
        let header = tokens(lines[0]);
        assert(header[0] == stretches(text, fields@)[0]);
        assert(header[1] == stretches(text, fields@)[1]);
    }
    let num_vertices: usize = match parse_usize(bytes, fields[0].0, fields[0].1) {
        Some(n) => n,
        None => {
            return Err(GraphError::MalformedInput);
        },
    };
    let num_edges: usize = match parse_usize(bytes, fields[1].0, fields[1].1) {
        Some(n) => n,
        None => {
            return Err(GraphError::MalformedInput);
        },
    };
    if num_vertices == usize::MAX {
        return Err(GraphError::MalformedInput);
    }
    let mut graph = AdjacencyList::new(num_vertices, num_edges);
    let mut at: usize = if header_end < len {
        header_end + 1
    } else {
        len
    };
    let ghost records = lines.skip(1);
    let ghost mut read: int = 0;
    let mut count: usize = 0;
    proof {
        if header_end < len {
            assert(records =~= split_lines(text.skip(at as int)));
        } else {
            assert(text.skip(at as int) =~= Seq::<u8>::empty());
            assert(records =~= split_lines(text.skip(at as int)));
        }
        assert(records.take(0) =~= Seq::<Seq<u8>>::empty());
        assert(records.skip(0) =~= records);
    }
    while at < len
        invariant
            bytes@ == text,
            len == text.len(),
            at <= len,
            graph.wf(),
            graph.spec_num_vertices() == num_vertices,
            graph.spec_num_edges() == num_edges,
            0 <= read <= records.len(),
            records.skip(read) == split_lines(text.skip(at as int)),
            read_edges(records.take(read), num_vertices, num_edges) == Ok::<Seq<Edge>, GraphError>(
                graph.edges(),
            ),
            count == graph.edges().len(),
            parse_header(lines[0]) == Some((num_vertices, num_edges)),
            lines.len() > 0,
            lines == split_lines(text),
            records == lines.skip(1),
            text == content.spec_bytes(),
        decreases len - at,
    {
        let end: usize = line_end(bytes, at);
        let ghost line = text.subrange(at as int, end as int);
        let ghost next: int = if end < len {
            end + 1
        } else {
            len as int
        };
        proof {
            lemma_next_line(text, at as int);
            lemma_first_of_rest(records, read, line, split_lines(text.skip(next)));
        }
        let fields: Vec<(usize, usize)> = split_tokens(bytes, at, end);
        proof {
            if fields@.len() == 3 {
                assert(tokens(line)[0] == stretches(text, fields@)[0]);
                assert(tokens(line)[1] == stretches(text, fields@)[1]);
                assert(tokens(line)[2] == stretches(text, fields@)[2]);
            }
            assert(records.take(read + 1).drop_last() =~= records.take(read));
        }
        if fields.len() != 3 {
            proof {
                lemma_error_stays(records, read + 1, num_vertices, num_edges);
            }
            return Err(GraphError::MalformedInput);
        }
        let in_vertex: Option<usize> = parse_usize(bytes, fields[0].0, fields[0].1);
        let out_vertex: Option<usize> = parse_usize(bytes, fields[1].0, fields[1].1);
        let weight: Option<i32> = parse_i32(bytes, fields[2].0, fields[2].1);
        match (in_vertex, out_vertex, weight) {
            (Some(in_vertex), Some(out_vertex), Some(weight)) => {
                match graph.add_directed_edge(in_vertex, out_vertex, weight) {
                    Ok(()) => {},
                    Err(e) => {
                        proof {
                            lemma_error_stays(records, read + 1, num_vertices, num_edges);
                        }
                        return Err(e);
                    },
                }
            },
            _ => {
                proof {
                    lemma_error_stays(records, read + 1, num_vertices, num_edges);
                }
                return Err(GraphError::MalformedInput);
            },
        }
        count += 1;
        proof {
            read = read + 1;
        }
        at = if end < len {
            end + 1
        } else {
            len
        };
    }
    proof {
        assert(text.skip(at as int) =~= Seq::<u8>::empty());
        assert(records.skip(read).len() == 0);
        assert(records.take(read) =~= records);
    }
    if count != num_edges {
        return Err(GraphError::MalformedInput);
    }
    Ok(graph)
}

/// The lines of a text from `at` on are the line that starts there and
/// the lines of what follows its line feed.
pub proof fn lemma_next_line(text: Seq<u8>, at: int)
    requires
        0 <= at < text.len(),
    ensures
        at + line_len(text.skip(at)) <= text.len(),
        split_lines(text.skip(at)) == seq![text.subrange(at, at + line_len(text.skip(at)))]
            + split_lines(
            text.skip(
                if at + line_len(text.skip(at)) < text.len() {
                    at + line_len(text.skip(at)) + 1
                } else {
                    text.len() as int
                },
            ),
        ),
{
    let here = text.skip(at);
    let n = line_len(here) as int;
    lemma_line_len(here);
    assert(here.take(n) =~= text.subrange(at, at + n));
    if n < here.len() {
        assert(here.skip(n + 1) =~= text.skip(at + n + 1));
    } else {
        assert(here =~= text.subrange(at, at + n));
        assert(text.skip(text.len() as int) =~= Seq::<u8>::empty());
        assert(seq![here] + Seq::<Seq<u8>>::empty() =~= seq![here]);
    }
}

/// Where the records from `read` on start with `line`, `line` is the record
/// at `read`.
pub proof fn lemma_first_of_rest(
    records: Seq<Seq<u8>>,
    read: int,
    line: Seq<u8>,
    rest: Seq<Seq<u8>>,
)
    requires
        0 <= read <= records.len(),
        records.skip(read) == seq![line] + rest,
    ensures
        read < records.len(),
        records[read] == line,
        records.skip(read + 1) == rest,
        records.take(read + 1) == records.take(read).push(line),
{
    let tail = records.skip(read);
    assert(tail.len() == 1 + rest.len());
    assert(tail[0] == line);
    assert(records.skip(read + 1) =~= rest) by {
        assert forall|k: int| 0 <= k < rest.len() implies records.skip(read + 1)[k] == rest[k] by {
            assert(tail[k + 1] == rest[k]);
        }
    }
    assert(records.take(read + 1) =~= records.take(read).push(line));
}

/// Once a line has failed, the lines after it are not looked at.
pub proof fn lemma_error_stays(
    records: Seq<Seq<u8>>,
    failed: int,
    num_vertices: usize,
    num_edges: usize,
)
    requires
        0 <= failed <= records.len(),
        read_edges(records.take(failed), num_vertices, num_edges) is Err,
    ensures
        read_edges(records, num_vertices, num_edges) == read_edges(
            records.take(failed),
            num_vertices,
            num_edges,
        ),
    decreases records.len() - failed,
{
    if failed < records.len() {
        assert(records.take(failed + 1).drop_last() =~= records.take(failed));
        lemma_error_stays(records, failed + 1, num_vertices, num_edges);
    } else {
        assert(records.take(failed) =~= records);
    }
}

} // verus!
