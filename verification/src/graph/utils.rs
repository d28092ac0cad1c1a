//! Random graphs for trying the algorithms out.

use super::format::{graph_text, write_graph_text};
use super::{edges_with_source, lemma_edges_with_source_push, Edge};
use rand::rngs::ThreadRng;
use rand::seq::SliceRandom;
use rand::Rng;
use vstd::prelude::*;

verus! {

/// `rand::rngs::ThreadRng`, the random number generator of the calling
/// thread. Nothing is said of what it holds.
#[verifier::external_type_specification]
#[verifier::external_body]
pub struct ExThreadRng(rand::rngs::ThreadRng);

/// `Rng::gen_range(low, high)` draws a number from `low` up to, but not
/// including, `high`. It panics unless `low < high`.
#[verifier::external_body]
fn random_usize(rng: &mut ThreadRng, low: usize, high: usize) -> (r: usize)
    requires
        low < high,
    ensures
        low <= r < high,
{
    rng.gen_range(low, high)
}

/// `Rng::gen_range(low, high)` draws a number from `low` up to, but not
/// including, `high`. It panics unless `low < high`.
#[verifier::external_body]
fn random_i32(rng: &mut ThreadRng, low: i32, high: i32) -> (r: i32)
    requires
        low < high,
    ensures
        low <= r < high,
{
    rng.gen_range(low, high)
}

/// `SliceRandom::shuffle` reorders the elements in place by a series of
/// exchanges, so the elements stay the same.
#[verifier::external_body]
fn shuffle(list: &mut Vec<usize>, rng: &mut ThreadRng)
    ensures
        final(list)@.to_multiset() == old(list)@.to_multiset(),
{
    list.shuffle(rng);
}

/// The sum of the numbers in `numbers`.
pub open spec fn total(numbers: Seq<usize>) -> int {
    numbers.fold_left(0int, |sum: int, x: usize| sum + x)
}

/// The sum does not depend on the order of the numbers.
proof fn lemma_total_of_same_elements(a: Seq<usize>, b: Seq<usize>)
    requires
        a.to_multiset() == b.to_multiset(),
    ensures
        total(a) == total(b),
        a.len() == b.len(),
        forall|k: int| 0 <= k < b.len() ==> a.contains(#[trigger] b[k]),
{
    broadcast use vstd::seq_lib::group_to_multiset_ensures;

    vstd::seq_lib::lemma_fold_left_permutation(a, b, |sum: int, x: usize| sum + x, 0int);
    assert(a.to_multiset().len() == a.len());
    assert(b.to_multiset().len() == b.len());
    assert forall|k: int| 0 <= k < b.len() implies a.contains(#[trigger] b[k]) by {
        assert(b.to_multiset().count(b[k]) > 0);
    }
}

/// One more number adds itself to the sum.
proof fn lemma_total_push(numbers: Seq<usize>, x: usize)
    ensures
        total(numbers.push(x)) == total(numbers) + x,
{
    assert(numbers.push(x).drop_last() =~= numbers);
}

/// The sum of the first `k` numbers is no more than the sum of all.
proof fn lemma_total_of_prefix(numbers: Seq<usize>, k: int)
    requires
        0 <= k <= numbers.len(),
    ensures
        0 <= total(numbers.take(k)) <= total(numbers),
        k < numbers.len() ==> total(numbers.take(k + 1)) == total(numbers.take(k)) + numbers[k],
    decreases numbers.len() - k,
{
    if k < numbers.len() {
        lemma_total_of_prefix(numbers, k + 1);
        assert(numbers.take(k + 1).drop_last() =~= numbers.take(k));
        if k == 0 {
            assert(numbers.take(0) =~= Seq::<usize>::empty());
        } else {
            lemma_total_nonnegative(numbers.take(k));
        }
    } else {
        assert(numbers.take(k) =~= numbers);
        lemma_total_nonnegative(numbers);
    }
}

/// No sum is negative.
proof fn lemma_total_nonnegative(numbers: Seq<usize>)
    ensures
        0 <= total(numbers),
    decreases numbers.len(),
{
    if numbers.len() > 0 {
        lemma_total_nonnegative(numbers.drop_last());
    }
}

/// Draws `m` positive numbers that add up to `n`, in random order.
///
/// All but one of the numbers are drawn from `m_range.0`, or from `1` if
/// that is greater, up to but not including `m_range.1`; the last one is
/// what is left of `n`. With `m == 0`, which leaves only `n == 0`, the
/// answer is the single number `0`.
///
/// Where two or more numbers are asked for, the range must start at `1` or
/// below and reach beyond `1`: a draw can leave no more than `1` for each
/// of the numbers that follow it.
pub fn gen_random_integers(m: usize, n: usize, m_range: (usize, usize), rng: &mut ThreadRng) -> (integers:
    Vec<usize>)
    requires
        m <= n,
        n <= m * m_range.1,
        m >= 2 ==> m_range.0 <= 1 && m_range.1 >= 2,
    ensures
        integers@.len() == if m == 0 {
            1
        } else {
            m as int
        },
        total(integers@) == n,
        m >= 1 ==> forall|k: int| 0 <= k < integers@.len() ==> #[trigger] integers@[k] >= 1,
{
    let mut random_integers: Vec<usize> = Vec::new();
    let mut current_sum: usize = 0;
    let mut i: usize = m;
    proof {
        assert(total(random_integers@) == 0);
    }
    while i > 1
        invariant
            m >= 2 ==> m_range.0 <= 1 && m_range.1 >= 2,
            i <= m <= n,
            m >= 1 ==> i >= 1,
            random_integers@.len() == m - i,
            total(random_integers@) == current_sum,
            current_sum + i <= n,
            forall|k: int| 0 <= k < random_integers@.len() ==> #[trigger] random_integers@[k] >= 1,
        decreases i,
    {
        i -= 1;
        let lower_bound: usize = if m_range.0 > 1 {
            m_range.0
        } else {
            1
        };
        let room: usize = n - current_sum - i + 1;
        let upper_bound: usize = if m_range.1 < room {
            m_range.1
        } else {
            room
        };
        let random_integer: usize = random_usize(rng, lower_bound, upper_bound);
        proof {
            lemma_total_push(random_integers@, random_integer);
        }
        current_sum += random_integer;
        random_integers.push(random_integer);
    }
    proof {
        lemma_total_push(random_integers@, (n - current_sum) as usize);
    }
    random_integers.push(n - current_sum);
    let ghost drawn = random_integers@;
    shuffle(&mut random_integers, rng);
    proof {
        lemma_total_of_same_elements(drawn, random_integers@);
        if m >= 1 {
            assert forall|k: int| 0 <= k < random_integers@.len() implies #[trigger] random_integers@[k]
                >= 1 by {
                assert(drawn.contains(random_integers@[k]));
            }
        }
    }
    random_integers
}

/// A recipe for a random graph.
pub struct FakeTool {
    pub num_vertices: usize,
    pub num_edges: usize,
    pub weight_range: (i32, i32),
}

impl FakeTool {
    /// The vertices `1..=num_vertices`, in order.
    pub fn gen_vertices(&self) -> (vertices: Vec<usize>)
        ensures
            vertices@ == Seq::new(self.num_vertices as nat, |k: int| (k + 1) as usize),
    {
        let mut vertices: Vec<usize> = Vec::new();
        while vertices.len() < self.num_vertices
            invariant
                vertices@.len() <= self.num_vertices,
                forall|k: int| 0 <= k < vertices@.len() ==> vertices@[k] == k + 1,
            decreases self.num_vertices - vertices@.len(),
        {
            let next: usize = vertices.len() + 1;
            vertices.push(next);
        }
        proof {
            assert(vertices@ =~= Seq::new(self.num_vertices as nat, |k: int| (k + 1) as usize));
        }
        vertices
    }

    /// What holds of every graph that the recipe can give: each edge joins
    /// two different vertices of the graph with a weight from the range, no
    /// two edges join the same vertices in the same direction, and the
    /// edges are ordered by the vertex that they leave.
    pub open spec fn fits(&self, edges: Seq<Edge>) -> bool {
        &&& edges.len() <= self.num_edges
        &&& forall|k: int|
            0 <= k < edges.len() ==> {
                &&& 1 <= (#[trigger] edges[k]).in_vertex <= self.num_vertices
                &&& 1 <= edges[k].out_vertex <= self.num_vertices
                &&& edges[k].in_vertex != edges[k].out_vertex
                &&& self.weight_range.0 <= edges[k].weight < self.weight_range.1
            }
        &&& forall|a: int, b: int|
            0 <= a < b < edges.len() ==> (#[trigger] edges[a]).in_vertex <= (
            #[trigger] edges[b]).in_vertex
        &&& forall|a: int, b: int|
            0 <= a < b < edges.len() ==> !((#[trigger] edges[a]).in_vertex == (
            #[trigger] edges[b]).in_vertex && edges[a].out_vertex == edges[b].out_vertex)
    }

    /// Draws a graph: for each vertex a number of edges is drawn, so that
    /// the numbers add up to `num_edges`, and then that many of the other
    /// vertices, as far as there are so many, each with a weight from
    /// `weight_range.0` up to, but not including, `weight_range.1`.
    pub fn generate(&self, rng: &mut ThreadRng) -> (edges: Vec<Edge>)
        requires
            self.num_vertices <= self.num_edges,
            self.num_edges <= self.num_vertices * self.num_vertices,
            self.weight_range.0 < self.weight_range.1,
        ensures
            self.fits(edges@),
            self.num_vertices >= 1 ==> exists|counts: Seq<usize>| self.dealt(counts, edges@),
    {
        let mut edges: Vec<Edge> = Vec::new();
        let num_edges: Vec<usize> = gen_random_integers(
            self.num_vertices,
            self.num_edges,
            (1, self.num_vertices),
            rng,
        );
        let mut index: usize = 0;
        proof {
            assert(num_edges@.take(0) =~= Seq::<usize>::empty());
            assert forall|v: usize| (#[trigger] edges_with_source(edges@, v)).len() == 0 by {
                reveal(Seq::filter);
            }
        }
        while index < num_edges.len()
            invariant
                self.weight_range.0 < self.weight_range.1,
                index <= num_edges@.len(),
                self.num_vertices >= 1 ==> forall|v: usize|
                    1 <= v <= index ==> (#[trigger] edges_with_source(edges@, v)).len()
                        == self.granted(num_edges@[v - 1]),
                forall|v: usize| v > index ==> (#[trigger] edges_with_source(edges@, v)).len() == 0,
                num_edges@.len() == if self.num_vertices == 0 {
                    1
                } else {
                    self.num_vertices as int
                },
                total(num_edges@) == self.num_edges,
                self.num_vertices >= 1 ==> forall|k: int|
                    0 <= k < num_edges@.len() ==> #[trigger] num_edges@[k] >= 1,
                edges@.len() <= total(num_edges@.take(index as int)),
                self.fits(edges@),
                forall|k: int| 0 <= k < edges@.len() ==> (#[trigger] edges@[k]).in_vertex <= index,
            decreases num_edges@.len() - index,
        {
            let in_vertex: usize = index + 1;
            let num_edge: usize = num_edges[index];
            proof {
                lemma_total_of_prefix(num_edges@, index as int);
                lemma_total_of_prefix(num_edges@, index + 1);
            }
            let mut out_vertices: Vec<usize> = Vec::new();
            let mut vertex: usize = 0;
            while vertex < self.num_vertices
                invariant
                    vertex <= self.num_vertices,
                    in_vertex == index + 1,
                    out_vertices@.len() == if vertex >= in_vertex {
                        vertex - 1
                    } else {
                        vertex as int
                    },
                    out_vertices@.no_duplicates(),
                    forall|k: int|
                        0 <= k < out_vertices@.len() ==> 1 <= #[trigger] out_vertices@[k] <= vertex
                            && out_vertices@[k] != in_vertex,
                decreases self.num_vertices - vertex,
            {
                vertex += 1;
                if vertex != in_vertex {
                    out_vertices.push(vertex);
                }
            }
            let ghost listed = out_vertices@;
            shuffle(&mut out_vertices, rng);
            proof {
                lemma_total_of_same_elements(listed, out_vertices@);
                listed.lemma_multiset_has_no_duplicates();
                out_vertices@.lemma_multiset_has_no_duplicates_conv();
                assert forall|k: int| 0 <= k < out_vertices@.len() implies 1
                    <= #[trigger] out_vertices@[k] <= self.num_vertices && out_vertices@[k]
                    != in_vertex by {
                    assert(listed.contains(out_vertices@[k]));
                    let j = choose|j: int| 0 <= j < listed.len() && listed[j] == out_vertices@[k];
                    assert(1 <= listed[j] <= self.num_vertices);
                }
            }
            let ghost before = edges@;
            let mut num: usize = 0;
            while num < out_vertices.len()
                invariant_except_break
                    num == 0 || num < num_edge,
                invariant
                    self.weight_range.0 < self.weight_range.1,
                    in_vertex == index + 1,
                    num <= out_vertices@.len(),
                    out_vertices@.no_duplicates(),
                    forall|k: int|
                        0 <= k < out_vertices@.len() ==> 1 <= #[trigger] out_vertices@[k]
                            <= self.num_vertices && out_vertices@[k] != in_vertex,
                    out_vertices@.len() > 0 ==> in_vertex <= self.num_vertices,
                    edges@.len() == before.len() + num,
                    forall|k: int| 0 <= k < before.len() ==> edges@[k] == before[k],
                    forall|k: int|
                        0 <= k < num ==> (#[trigger] edges@[before.len() + k]).in_vertex == in_vertex
                            && edges@[before.len() + k].out_vertex == out_vertices@[k],
                    forall|k: int|
                        0 <= k < edges@.len() ==> self.weight_range.0 <= (#[trigger] edges@[k]).weight
                            < self.weight_range.1,
                    forall|v: usize|
                        (#[trigger] edges_with_source(edges@, v)).len() == edges_with_source(
                            before,
                            v,
                        ).len() + if v == in_vertex {
                            num as int
                        } else {
                            0
                        },
                ensures
                    edges@.len() <= before.len() + if num_edge >= 1 {
                        num_edge as int
                    } else {
                        1
                    },
                    edges@.len() >= before.len(),
                    num_edge >= 1 ==> num == if num_edge < out_vertices@.len() {
                        num_edge as int
                    } else {
                        out_vertices@.len() as int
                    },
                decreases out_vertices@.len() - num,
            {
                let out_vertex: usize = out_vertices[num];
                let weight: i32 = random_i32(rng, self.weight_range.0, self.weight_range.1);
                let ghost so_far = edges@;
                edges.push(Edge { in_vertex, out_vertex, weight });
                proof {
                    assert forall|v: usize|
                        (#[trigger] edges_with_source(edges@, v)).len() == edges_with_source(
                            before,
                            v,
                        ).len() + if v == in_vertex {
                            num + 1
                        } else {
                            0
                        } by {
                        lemma_edges_with_source_push(
                            so_far,
                            Edge { in_vertex, out_vertex, weight },
                            v,
                        );
                    }
                }
                num += 1;
                if num >= num_edge {
                    break ;
                }
            }
            proof {
                let grown = edges@;
                assert forall|k: int| 0 <= k < grown.len() implies {
                    &&& 1 <= (#[trigger] grown[k]).in_vertex <= self.num_vertices
                    &&& 1 <= grown[k].out_vertex <= self.num_vertices
                    &&& grown[k].in_vertex != grown[k].out_vertex
                    &&& grown[k].in_vertex <= index + 1
                } by {
                    if k < before.len() {
                        assert(grown[k] == before[k]);
                    } else {
                        assert(grown[before.len() + (k - before.len())].in_vertex == in_vertex);
                    }
                }
                assert forall|a: int, b: int| 0 <= a < b < grown.len() implies (#[trigger] grown[a]).in_vertex
                    <= (#[trigger] grown[b]).in_vertex && !(grown[a].in_vertex == grown[b].in_vertex
                    && grown[a].out_vertex == grown[b].out_vertex) by {
                    if b < before.len() {
                        assert(grown[a] == before[a] && grown[b] == before[b]);
                    } else if a < before.len() {
                        assert(grown[a] == before[a]);
                        assert(grown[before.len() + (b - before.len())].in_vertex == in_vertex);
                    } else {
                        assert(grown[before.len() + (a - before.len())].out_vertex
                            == out_vertices@[a - before.len()]);
                        assert(grown[before.len() + (b - before.len())].out_vertex
                            == out_vertices@[b - before.len()]);
                    }
                }
            }
            index += 1;
        }
        proof {
            assert(num_edges@.take(index as int) =~= num_edges@);
            if self.num_vertices >= 1 {
                assert(self.dealt(num_edges@, edges@));
            }
        }
        edges
    }

    /// The number of edges that a vertex gets when `count` edges were drawn
    /// for it: as many as were drawn, as far as there are so many other
    /// vertices.
    pub open spec fn granted(&self, count: usize) -> int {
        if count < self.num_vertices - 1 {
            count as int
        } else {
            self.num_vertices - 1
        }
    }

    /// `counts` holds a number of edges for each vertex, none of them zero,
    /// which add up to `num_edges`; and each vertex has, among `edges`, as
    /// many edges that leave it as its number grants. In a graph of two or
    /// more vertices every vertex so has an edge that leaves it.
    pub open spec fn dealt(&self, counts: Seq<usize>, edges: Seq<Edge>) -> bool {
        &&& counts.len() == self.num_vertices
        &&& total(counts) == self.num_edges
        &&& forall|k: int| 0 <= k < counts.len() ==> #[trigger] counts[k] >= 1
        &&& forall|v: usize|
            1 <= v <= self.num_vertices ==> (#[trigger] edges_with_source(edges, v)).len()
                == self.granted(counts[v - 1])
    }

    /// The text of the graph file for `edges`: a first line with the
    /// numbers of vertices and edges of the recipe, then a line for each edge.
    pub fn to_text(&self, edges: &Vec<Edge>) -> (text: String)
        ensures
            text@ == graph_text(self.num_vertices, self.num_edges, edges@),
    {
        write_graph_text(self.num_vertices, self.num_edges, edges)
    }
}

/// Builds a recipe for a random graph step by step.
pub struct FakeToolBuilder {
    pub num_vertices: usize,
    pub num_edges: usize,
    pub weight_range: (i32, i32),
}

impl FakeToolBuilder {
    /// A builder with a random number of vertices from `5` to `19`, a
    /// random number of edges that is greater than the number of vertices
    /// and less than the number of pairs of vertices, and weights from
    /// `-10` to `9`.
    pub fn new(rng: &mut ThreadRng) -> (builder: FakeToolBuilder)
        ensures
            5 <= builder.num_vertices < 20,
            builder.num_vertices < builder.num_edges < builder.num_vertices * (builder.num_vertices
                - 1) / 2,
            builder.weight_range == (-10i32, 10i32),
    {
        let num_vertices: usize = random_usize(rng, 5, 20);
        assert(num_vertices * (num_vertices - 1) >= 4 * num_vertices) by (nonlinear_arith)
            requires
                5 <= num_vertices < 20,
        ;
        assert(num_vertices * (num_vertices - 1) <= 400) by (nonlinear_arith)
            requires
                5 <= num_vertices < 20,
        ;
        let num_edges: usize = random_usize(
            rng,
            num_vertices + 1,
            num_vertices * (num_vertices - 1) / 2,
        );
        FakeToolBuilder { num_vertices, num_edges, weight_range: (-10, 10) }
    }

    /// Sets the number of vertices and hands the builder back.
    pub fn set_num_vertices(&mut self, num_vertices: usize) -> (builder: &mut Self)
        ensures
            *builder == (FakeToolBuilder { num_vertices, ..*old(self) }),
            *final(self) == *final(builder),
    {
        self.num_vertices = num_vertices;
        self
    }

    /// Sets the number of edges and hands the builder back.
    pub fn set_num_edges(&mut self, num_edges: usize) -> (builder: &mut Self)
        ensures
            *builder == (FakeToolBuilder { num_edges, ..*old(self) }),
            *final(self) == *final(builder),
    {
        self.num_edges = num_edges;
        self
    }

    /// Sets the range that the weights are drawn from: from the first
    /// number up to, but not including, the second.
    pub fn set_weight_range(self, weight_range: (i32, i32)) -> (builder: Self)
        ensures
            builder == (FakeToolBuilder { weight_range, ..self }),
    {
        let mut builder = self;
        builder.weight_range = weight_range;
        builder
    }

    /// The recipe as the builder has it. The builder can be used again.
    pub fn finish(&self) -> (tool: FakeTool)
        ensures
            tool.num_vertices == self.num_vertices,
            tool.num_edges == self.num_edges,
            tool.weight_range == self.weight_range,
    {
        FakeTool {
            num_vertices: self.num_vertices,
            num_edges: self.num_edges,
            weight_range: self.weight_range,
        }
    }
}

} // verus!
