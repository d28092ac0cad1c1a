//! Numbers and edges written out as text.

use super::Edge;
use vstd::prelude::*;
use vstd::string::StringExecFns;

verus! {

/// The character for the digit `d`.
pub open spec fn digit_char(d: int) -> char {
    ((0x30 + d) as u8) as char
}

/// `n` in decimal, without leading zeros.
pub open spec fn decimal_text(n: nat) -> Seq<char>
    decreases n,
{
    if n < 10 {
        seq![digit_char(n as int)]
    } else {
        decimal_text(n / 10).push(digit_char((n % 10) as int))
    }
}

/// `n` in decimal, with a minus sign if it is negative.
pub open spec fn signed_text(n: int) -> Seq<char> {
    if n < 0 {
        seq!['-'] + decimal_text((-n) as nat)
    } else {
        decimal_text(n as nat)
    }
}

/// The line of a graph file that stands for `edge`.
pub open spec fn edge_line(edge: Edge) -> Seq<char> {
    decimal_text(edge.in_vertex as nat) + seq![' '] + decimal_text(edge.out_vertex as nat) + seq![
        ' ',
    ] + signed_text(edge.weight as int) + seq!['\n']
}

/// The lines of a graph file that stand for `edges`.
pub open spec fn edge_lines(edges: Seq<Edge>) -> Seq<char>
    decreases edges.len(),
{
    if edges.len() == 0 {
        Seq::empty()
    } else {
        edge_lines(edges.drop_last()) + edge_line(edges.last())
    }
}

/// The text of the graph file for a graph of `num_vertices` vertices with
/// room for `num_edges` edges that holds `edges`.
pub open spec fn graph_text(num_vertices: usize, num_edges: usize, edges: Seq<Edge>) -> Seq<char> {
    decimal_text(num_vertices as nat) + seq![' '] + decimal_text(num_edges as nat) + seq!['\n']
        + edge_lines(edges)
}

/// `String::push` appends the character to the end of the string.
#[verifier::external_body]
fn push_char(out: &mut String, ch: char)
    ensures
        final(out)@ == old(out)@.push(ch),
{
    out.push(ch);
}

/// Appends `n` in decimal.
pub fn push_decimal(out: &mut String, n: u64)
    ensures
        final(out)@ == old(out)@ + decimal_text(n as nat),
    decreases n,
{
    if n >= 10 {
        push_decimal(out, n / 10);
    }
    let digit: u8 = (n % 10) as u8;
    push_char(out, (0x30 + digit) as char);
    proof {
        if n < 10 {
            assert(out@ =~= old(out)@ + decimal_text(n as nat));
        } else {
            assert(out@ =~= old(out)@ + decimal_text(n as nat));
        }
    }
}

/// Appends `n` in decimal, with a minus sign if it is negative.
pub fn push_signed(out: &mut String, n: i32)
    ensures
        final(out)@ == old(out)@ + signed_text(n as int),
{
    if n < 0 {
        push_char(out, '-');
        push_decimal(out, (0 - n as i64) as u64);
        proof {
            assert(out@ =~= old(out)@ + signed_text(n as int));
        }
    } else {
        push_decimal(out, n as u64);
    }
}

/// Appends the line of a graph file that stands for `edge`.
pub fn push_edge_line(out: &mut String, edge: &Edge)
    ensures
        final(out)@ == old(out)@ + edge_line(*edge),
{
    push_decimal(out, edge.in_vertex as u64);
    push_char(out, ' ');
    push_decimal(out, edge.out_vertex as u64);
    push_char(out, ' ');
    push_signed(out, edge.weight);
    push_char(out, '\n');
    proof {
        assert(out@ =~= old(out)@ + edge_line(*edge));
    }
}

/// The text of the graph file for the given graph.
pub fn write_graph_text(num_vertices: usize, num_edges: usize, edges: &Vec<Edge>) -> (text: String)
    ensures
        text@ == graph_text(num_vertices, num_edges, edges@),
{
    let mut text: String = String::new();
    push_decimal(&mut text, num_vertices as u64);
    push_char(&mut text, ' ');
    push_decimal(&mut text, num_edges as u64);
    push_char(&mut text, '\n');
    let ghost head = text@;
    proof {
        assert(head =~= decimal_text(num_vertices as nat) + seq![' '] + decimal_text(
            num_edges as nat,
        ) + seq!['\n']);
        assert(edges@.take(0) =~= Seq::<Edge>::empty());
        assert(head + edge_lines(edges@.take(0)) =~= head);
    }
    let mut k: usize = 0;
    while k < edges.len()
        invariant
            k <= edges@.len(),
            text@ == head + edge_lines(edges@.take(k as int)),
        decreases edges@.len() - k,
    {
        push_edge_line(&mut text, &edges[k]);
        proof {
            assert(edges@.take(k + 1).drop_last() =~= edges@.take(k as int));
            assert(text@ =~= head + edge_lines(edges@.take(k + 1)));
        }
        k += 1;
    }
    proof {
        assert(edges@.take(k as int) =~= edges@);
    }
    text
}

/// The edge in words.
pub open spec fn edge_words(edge: Edge) -> Seq<char> {
    "in vertex: "@ + decimal_text(edge.in_vertex as nat) + ", out vertex: "@ + decimal_text(
        edge.out_vertex as nat,
    ) + ", weight: "@ + signed_text(edge.weight as int)
}

/// The edges in words, one to a line.
pub open spec fn edges_in_words(edges: Seq<Edge>) -> Seq<char>
    decreases edges.len(),
{
    if edges.len() == 0 {
        Seq::empty()
    } else {
        edges_in_words(edges.drop_last()) + edge_words(edges.last()) + seq!['\n']
    }
}

/// Appends the edge in words.
pub fn push_edge_words(out: &mut String, edge: &Edge)
    ensures
        final(out)@ == old(out)@ + edge_words(*edge),
{
    out.append("in vertex: ");
    push_decimal(out, edge.in_vertex as u64);
    out.append(", out vertex: ");
    push_decimal(out, edge.out_vertex as u64);
    out.append(", weight: ");
    push_signed(out, edge.weight);
    proof {
        assert(out@ =~= old(out)@ + edge_words(*edge));
    }
}

/// The edges in words, one to a line.
pub fn write_edges_in_words(edges: &Vec<Edge>) -> (text: String)
    ensures
        text@ == edges_in_words(edges@),
{
    let mut text: String = String::new();
    let mut k: usize = 0;
    proof {
        assert(edges@.take(0) =~= Seq::<Edge>::empty());
    }
    while k < edges.len()
        invariant
            k <= edges@.len(),
            text@ == edges_in_words(edges@.take(k as int)),
        decreases edges@.len() - k,
    {
        let ghost before = text@;
        push_edge_words(&mut text, &edges[k]);
        push_char(&mut text, '\n');
        proof {
            assert(edges@.take(k + 1).drop_last() =~= edges@.take(k as int));
            assert(text@ =~= before + edge_words(edges@[k as int]) + seq!['\n']);
        }
        k += 1;
    }
    proof {
        assert(edges@.take(k as int) =~= edges@);
    }
    text
}

impl Edge {
    /// The edge in words.
    pub fn to_str(&self) -> (text: String)
        ensures
            text@ == edge_words(*self),
    {
        let mut text: String = String::new();
        push_edge_words(&mut text, self);
        proof {
            assert(text@ =~= edge_words(*self));
        }
        text
    }
}

} // verus!
