//! A graph that is written out as text and read again is the same graph.

use super::format::{decimal_text, edge_lines, graph_text, signed_text};
use super::text::{
    all_digits, blank_len, decimal, is_blank, is_digit, line_len, parse_signed, parse_unsigned,
    split_lines, tokens, word_len,
};
use super::{graph_of_text, parse_edge, parse_header, read_edges, Edge, GraphError};
use vstd::prelude::*;
use vstd::utf8::{encode_utf8, is_ascii_chars, is_ascii_chars_encode_utf8};

verus! {

/// The bytes of a text, character by character.
spec fn bytes(chars: Seq<char>) -> Seq<u8> {
    Seq::new(chars.len(), |i: int| chars[i] as u8)
}

/// The bytes of two texts in a row are the bytes of the one, then those of
/// the other.
proof fn lemma_bytes_concat(a: Seq<char>, b: Seq<char>)
    ensures
        bytes(a + b) == bytes(a) + bytes(b),
{
    assert(bytes(a + b) =~= bytes(a) + bytes(b));
}

/// A stretch of bytes that reads as one field: it is not empty and holds
/// no blank.
spec fn is_word(s: Seq<u8>) -> bool {
    &&& s.len() > 0
    &&& forall|i: int| 0 <= i < s.len() ==> !is_blank(#[trigger] s[i])
}

/// A number in decimal reads as the number.
proof fn lemma_decimal_text(n: nat)
    ensures
        all_digits(bytes(decimal_text(n))),
        decimal(bytes(decimal_text(n))) == n,
        is_ascii_chars(decimal_text(n)),
        is_word(bytes(decimal_text(n))),
        bytes(decimal_text(n))[0] != 0x2b,
        bytes(decimal_text(n))[0] != 0x2d,
    decreases n,
{
    let text = decimal_text(n);
    if n < 10 {
        assert(bytes(text) =~= seq![(0x30 + n) as u8]);
        assert(bytes(text).drop_last() =~= Seq::<u8>::empty());
        assert(decimal(Seq::<u8>::empty()) == 0);
        assert(bytes(text).last() == 0x30 + n);
    } else {
        lemma_decimal_text(n / 10);
        let front = decimal_text(n / 10);
        assert(bytes(text) =~= bytes(front).push((0x30 + n % 10) as u8));
        assert(bytes(text).drop_last() =~= bytes(front));
        assert(bytes(text).last() == 0x30 + n % 10);
        assert forall|i: int| 0 <= i < text.len() implies '\0' <= #[trigger] text[i]
            <= '\u{7f}' by {
            if i < front.len() {
                assert(text[i] == front[i]);
            }
        }
        assert forall|i: int| 0 <= i < bytes(text).len() implies is_digit(
            #[trigger] bytes(text)[i],
        ) by {
            if i < front.len() {
                assert(bytes(text)[i] == bytes(front)[i]);
            }
        }
        assert(bytes(text)[0] == bytes(front)[0]);
    }
}

/// An unsigned number in decimal reads as the number.
proof fn lemma_unsigned_text(n: usize)
    ensures
        parse_unsigned(bytes(decimal_text(n as nat))) == Some(n),
{
    lemma_decimal_text(n as nat);
}

/// A signed number in decimal reads as the number.
proof fn lemma_signed_text(n: i32)
    ensures
        parse_signed(bytes(signed_text(n as int))) == Some(n),
        is_ascii_chars(signed_text(n as int)),
        is_word(bytes(signed_text(n as int))),
{
    if n < 0 {
        let digits = decimal_text((-n) as nat);
        lemma_decimal_text((-n) as nat);
        lemma_bytes_concat(seq!['-'], digits);
        assert(bytes(seq!['-']) =~= seq![0x2du8]);
        let token = bytes(signed_text(n as int));
        assert(token =~= seq![0x2du8] + bytes(digits));
        assert(token.drop_first() =~= bytes(digits));
        assert forall|i: int| 0 <= i < token.len() implies !is_blank(#[trigger] token[i]) by {
            if i > 0 {
                assert(token[i] == bytes(digits)[i - 1]);
            }
        }
        assert forall|i: int| 0 <= i < signed_text(n as int).len() implies '\0'
            <= #[trigger] signed_text(n as int)[i] <= '\u{7f}' by {
            if i > 0 {
                assert(signed_text(n as int)[i] == digits[i - 1]);
            }
        }
    } else {
        lemma_decimal_text(n as nat);
    }
}

/// A stretch without blanks, followed by a blank or by nothing, is read as
/// one word.
proof fn lemma_word_len_of(word: Seq<u8>, tail: Seq<u8>)
    requires
        forall|i: int| 0 <= i < word.len() ==> !is_blank(#[trigger] word[i]),
        tail.len() == 0 || is_blank(tail[0]),
    ensures
        word_len(word + tail) == word.len(),
    decreases word.len(),
{
    if word.len() > 0 {
        assert((word + tail).drop_first() =~= word.drop_first() + tail);
        assert forall|i: int| 0 <= i < word.drop_first().len() implies !is_blank(
            #[trigger] word.drop_first()[i],
        ) by {
            assert(word.drop_first()[i] == word[i + 1]);
        }
        lemma_word_len_of(word.drop_first(), tail);
        assert((word + tail)[0] == word[0]);
    } else {
        assert(word + tail =~= tail);
    }
}

/// The first field of a line that starts with a word is that word.
proof fn lemma_tokens_after_word(word: Seq<u8>, tail: Seq<u8>)
    requires
        is_word(word),
        tail.len() == 0 || is_blank(tail[0]),
    ensures
        tokens(word + tail) == seq![word] + tokens(tail),
{
    let line = word + tail;
    assert(line[0] == word[0]);
    assert(blank_len(line) == 0);
    assert(line.skip(0) =~= line);
    lemma_word_len_of(word, tail);
    assert(line.take(word.len() as int) =~= word);
    assert(line.skip(word.len() as int) =~= tail);
}

/// A blank at the start of a line does not count.
proof fn lemma_tokens_after_blank(tail: Seq<u8>)
    ensures
        tokens(seq![0x20u8] + tail) == tokens(tail),
{
    let line = seq![0x20u8] + tail;
    assert(line.drop_first() =~= tail);
    assert(blank_len(line) == 1 + blank_len(tail));
    super::text::lemma_blank_len(tail);
    assert(line.skip(blank_len(line) as int) =~= tail.skip(blank_len(tail) as int));
}

/// The fields of words that are separated by single spaces are the words.
proof fn lemma_tokens_of_three(a: Seq<u8>, b: Seq<u8>, c: Seq<u8>)
    requires
        is_word(a),
        is_word(b),
        is_word(c),
    ensures
        tokens(a + seq![0x20u8] + b + seq![0x20u8] + c) == seq![a, b, c],
        tokens(a + seq![0x20u8] + b) == seq![a, b],
{
    let space = seq![0x20u8];
    let empty = Seq::<u8>::empty();
    assert(tokens(empty) =~= Seq::<Seq<u8>>::empty());
    assert(c + empty =~= c);
    assert(b + empty =~= b);
    lemma_tokens_after_word(c, empty);
    lemma_tokens_after_blank(c);
    lemma_tokens_after_word(b, space + c);
    lemma_tokens_after_blank(b + (space + c));
    lemma_tokens_after_word(a, space + (b + (space + c)));
    assert(a + space + b + space + c =~= a + (space + (b + (space + c))));
    assert(tokens(a + space + b + space + c) =~= seq![a, b, c]);
    lemma_tokens_after_word(b, empty);
    lemma_tokens_after_blank(b);
    lemma_tokens_after_word(a, space + b);
    assert(a + space + b =~= a + (space + b));
    assert(tokens(a + space + b) =~= seq![a, b]);
}

/// The lines joined into one text, each with a line feed after it.
spec fn joined(lines: Seq<Seq<u8>>) -> Seq<u8>
    decreases lines.len(),
{
    if lines.len() == 0 {
        Seq::empty()
    } else {
        lines[0] + seq![0x0au8] + joined(lines.drop_first())
    }
}

/// The line holds no line feed.
spec fn has_no_line_feed(line: Seq<u8>) -> bool {
    forall|i: int| 0 <= i < line.len() ==> #[trigger] line[i] != 0x0a
}

/// A stretch without line feeds, followed by a line feed or by nothing, is
/// read as one line.
proof fn lemma_line_len_of(line: Seq<u8>, tail: Seq<u8>)
    requires
        has_no_line_feed(line),
        tail.len() == 0 || tail[0] == 0x0a,
    ensures
        line_len(line + tail) == line.len(),
    decreases line.len(),
{
    if line.len() > 0 {
        assert((line + tail).drop_first() =~= line.drop_first() + tail);
        assert forall|i: int| 0 <= i < line.drop_first().len() implies #[trigger] line.drop_first()[i]
            != 0x0a by {
            assert(line.drop_first()[i] == line[i + 1]);
        }
        lemma_line_len_of(line.drop_first(), tail);
        assert((line + tail)[0] == line[0]);
    } else {
        assert(line + tail =~= tail);
    }
}

/// Lines that are joined and split again are the same lines.
proof fn lemma_split_joined(lines: Seq<Seq<u8>>)
    requires
        forall|k: int| 0 <= k < lines.len() ==> has_no_line_feed(#[trigger] lines[k]),
    ensures
        split_lines(joined(lines)) == lines,
    decreases lines.len(),
{
    if lines.len() > 0 {
        let rest = lines.drop_first();
        let tail = seq![0x0au8] + joined(rest);
        let text = lines[0] + tail;
        assert(joined(lines) =~= text);
        lemma_line_len_of(lines[0], tail);
        assert(text.take(lines[0].len() as int) =~= lines[0]);
        assert(text.skip(lines[0].len() as int + 1) =~= joined(rest));
        assert forall|k: int| 0 <= k < rest.len() implies has_no_line_feed(#[trigger] rest[k]) by {
            assert(rest[k] == lines[k + 1]);
        }
        lemma_split_joined(rest);
        assert(seq![lines[0]] + rest =~= lines);
    }
}

/// Joining one more line adds the line and its line feed at the end.
proof fn lemma_joined_push(lines: Seq<Seq<u8>>, line: Seq<u8>)
    ensures
        joined(lines.push(line)) == joined(lines) + line + seq![0x0au8],
    decreases lines.len(),
{
    if lines.len() == 0 {
        assert(lines.push(line).drop_first() =~= Seq::<Seq<u8>>::empty());
        assert(lines.push(line)[0] == line);
        assert(joined(lines.push(line).drop_first()) =~= Seq::<u8>::empty());
        assert(joined(lines) =~= Seq::<u8>::empty());
        assert(joined(lines.push(line)) == line + seq![0x0au8] + joined(
            lines.push(line).drop_first(),
        ));
        assert(joined(lines.push(line)) =~= joined(lines) + line + seq![0x0au8]);
    } else {
        assert(lines.push(line).drop_first() =~= lines.drop_first().push(line));
        assert(lines.push(line)[0] == lines[0]);
        lemma_joined_push(lines.drop_first(), line);
        let rest = joined(lines.drop_first());
        assert(joined(lines.push(line)) == lines[0] + seq![0x0au8] + (rest + line + seq![0x0au8]));
        assert(joined(lines) == lines[0] + seq![0x0au8] + rest);
        assert(joined(lines.push(line)) =~= joined(lines) + line + seq![0x0au8]);
    }
}

/// The line that stands for `edge`, without its line feed.
spec fn record(edge: Edge) -> Seq<u8> {
    bytes(decimal_text(edge.in_vertex as nat)) + seq![0x20u8] + bytes(
        decimal_text(edge.out_vertex as nat),
    ) + seq![0x20u8] + bytes(signed_text(edge.weight as int))
}

/// The lines that stand for `edges`, without their line feeds.
spec fn records(edges: Seq<Edge>) -> Seq<Seq<u8>> {
    Seq::new(edges.len(), |k: int| record(edges[k]))
}

/// The line of an edge reads as the edge.
proof fn lemma_record(edge: Edge)
    ensures
        parse_edge(record(edge)) == Some(edge),
        has_no_line_feed(record(edge)),
{
    let a = bytes(decimal_text(edge.in_vertex as nat));
    let b = bytes(decimal_text(edge.out_vertex as nat));
    let c = bytes(signed_text(edge.weight as int));
    lemma_decimal_text(edge.in_vertex as nat);
    lemma_decimal_text(edge.out_vertex as nat);
    lemma_unsigned_text(edge.in_vertex);
    lemma_unsigned_text(edge.out_vertex);
    lemma_signed_text(edge.weight);
    lemma_tokens_of_three(a, b, c);
    let line = record(edge);
    assert forall|i: int| 0 <= i < line.len() implies #[trigger] line[i] != 0x0a by {
        if i < a.len() {
            assert(line[i] == a[i]);
        } else if i == a.len() {
        } else if i < a.len() + 1 + b.len() {
            assert(line[i] == b[i - a.len() - 1]);
        } else if i == a.len() + 1 + b.len() {
        } else {
            assert(line[i] == c[i - a.len() - b.len() - 2]);
        }
    }
}

/// The lines of the edges, as bytes, are the lines of the edges joined.
proof fn lemma_edge_lines(edges: Seq<Edge>)
    ensures
        bytes(edge_lines(edges)) == joined(records(edges)),
        is_ascii_chars(edge_lines(edges)),
    decreases edges.len(),
{
    if edges.len() == 0 {
        assert(bytes(edge_lines(edges)) =~= joined(records(edges)));
    } else {
        let front = edges.drop_last();
        let edge = edges.last();
        lemma_edge_lines(front);
        lemma_decimal_text(edge.in_vertex as nat);
        lemma_decimal_text(edge.out_vertex as nat);
        lemma_signed_text(edge.weight);
        let a = decimal_text(edge.in_vertex as nat);
        let b = decimal_text(edge.out_vertex as nat);
        let c = signed_text(edge.weight as int);
        let line = a + seq![' '] + b + seq![' '] + c + seq!['\n'];
        assert(bytes(line) =~= record(edge) + seq![0x0au8]);
        lemma_bytes_concat(edge_lines(front), line);
        assert(records(edges) =~= records(front).push(record(edge)));
        lemma_joined_push(records(front), record(edge));
        assert(bytes(edge_lines(edges)) =~= joined(records(edges)));
        assert forall|i: int| 0 <= i < line.len() implies '\0' <= #[trigger] line[i]
            <= '\u{7f}' by {
            if i < a.len() {
                assert(line[i] == a[i]);
            } else if i == a.len() {
            } else if i < a.len() + 1 + b.len() {
                assert(line[i] == b[i - a.len() - 1]);
            } else if i == a.len() + 1 + b.len() {
            } else if i < a.len() + b.len() + 2 + c.len() {
                assert(line[i] == c[i - a.len() - b.len() - 2]);
            } else {
            }
        }
        assert forall|i: int| 0 <= i < edge_lines(edges).len() implies '\0'
            <= #[trigger] edge_lines(edges)[i] <= '\u{7f}' by {
            if i < edge_lines(front).len() {
                assert(edge_lines(edges)[i] == edge_lines(front)[i]);
            } else {
                assert(edge_lines(edges)[i] == line[i - edge_lines(front).len()]);
            }
        }
    }
}

/// The lines of edges that fit the graph are read as those edges.
proof fn lemma_records_read(edges: Seq<Edge>, num_vertices: usize, num_edges: usize)
    requires
        edges.len() <= num_edges,
        forall|k: int|
            0 <= k < edges.len() ==> 1 <= (#[trigger] edges[k]).in_vertex <= num_vertices && 1
                <= edges[k].out_vertex <= num_vertices,
    ensures
        read_edges(records(edges), num_vertices, num_edges) == Ok::<Seq<Edge>, GraphError>(edges),
    decreases edges.len(),
{
    if edges.len() > 0 {
        let front = edges.drop_last();
        assert forall|k: int| 0 <= k < front.len() implies 1 <= (#[trigger] front[k]).in_vertex
            <= num_vertices && 1 <= front[k].out_vertex <= num_vertices by {
            assert(front[k] == edges[k]);
        }
        lemma_records_read(front, num_vertices, num_edges);
        assert(records(edges).drop_last() =~= records(front));
        assert(records(edges).last() == record(edges.last()));
        lemma_record(edges.last());
        assert(front.push(edges.last()) =~= edges);
    } else {
        assert(edges =~= Seq::<Edge>::empty());
    }
}

/// The text written for a graph is read as that graph: the numbers of
/// vertices and edges and the edges, in their order, come back as they
/// were. This holds of every graph whose edges fill it and join vertices
/// that it has.
pub proof fn lemma_written_graph_is_read_back(
    num_vertices: usize,
    num_edges: usize,
    edges: Seq<Edge>,
)
    requires
        num_vertices < usize::MAX,
        edges.len() == num_edges,
        forall|k: int|
            0 <= k < edges.len() ==> 1 <= (#[trigger] edges[k]).in_vertex <= num_vertices && 1
                <= edges[k].out_vertex <= num_vertices,
    ensures
        graph_of_text(encode_utf8(graph_text(num_vertices, num_edges, edges))) == Ok::<
            (usize, usize, Seq<Edge>),
            GraphError,
        >((num_vertices, num_edges, edges)),
{
    let a = decimal_text(num_vertices as nat);
    let b = decimal_text(num_edges as nat);
    let head = a + seq![' '] + b + seq!['\n'];
    let text = graph_text(num_vertices, num_edges, edges);
    lemma_decimal_text(num_vertices as nat);
    lemma_decimal_text(num_edges as nat);
    lemma_unsigned_text(num_vertices);
    lemma_unsigned_text(num_edges);
    lemma_edge_lines(edges);
    let header = bytes(a) + seq![0x20u8] + bytes(b);
    assert(bytes(head) =~= header + seq![0x0au8]);
    lemma_bytes_concat(head, edge_lines(edges));
    assert(text =~= head + edge_lines(edges));
    assert forall|i: int| 0 <= i < text.len() implies '\0' <= #[trigger] text[i] <= '\u{7f}' by {
        if i < a.len() {
            assert(text[i] == a[i]);
        } else if i == a.len() {
        } else if i < a.len() + 1 + b.len() {
            assert(text[i] == b[i - a.len() - 1]);
        } else if i == a.len() + 1 + b.len() {
        } else {
            assert(text[i] == edge_lines(edges)[i - head.len()]);
        }
    }
    is_ascii_chars_encode_utf8(text);
    assert(encode_utf8(text) =~= bytes(text));
    let lines = seq![header] + records(edges);
    assert(lines.drop_first() =~= records(edges));
    assert(joined(lines) =~= header + seq![0x0au8] + joined(records(edges)));
    assert(bytes(text) =~= joined(lines));
    assert forall|i: int| 0 <= i < header.len() implies #[trigger] header[i] != 0x0a by {
        if i < a.len() {
            assert(header[i] == bytes(a)[i]);
        } else if i == a.len() {
        } else {
            assert(header[i] == bytes(b)[i - a.len() - 1]);
        }
    }
    assert forall|k: int| 0 <= k < lines.len() implies has_no_line_feed(#[trigger] lines[k]) by {
        if k > 0 {
            assert(lines[k] == record(edges[k - 1]));
            lemma_record(edges[k - 1]);
        }
    }
    lemma_split_joined(lines);
    lemma_tokens_of_three(bytes(a), bytes(b), bytes(a));
    assert(parse_header(lines[0]) == Some((num_vertices, num_edges)));
    assert(lines.skip(1) =~= records(edges));
    lemma_records_read(edges, num_vertices, num_edges);
}

} // verus!
