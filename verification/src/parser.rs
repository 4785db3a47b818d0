//! Reading a graph from its text form.
//!
//! A graph is written as a header line `p ocr <top count> <bottom count>
//! <edge count>` and one line `<top index> <bottom index>` for every edge.
//! What follows the numbers on a line is not read, nor are the lines after
//! the last edge.

use vstd::prelude::*;
use crate::bipartite_graph::{edge_line, edge_lines, BipartiteGraph, GraphModel};
use crate::decimal::{decimal, lemma_decimal, lemma_number_at_decimal, number_at, parse_number};
use crate::graph_base::Edge;

verus! {

/// The byte between two numbers of a line.
pub const SPACE: u8 = 32;

/// The byte that ends a line.
pub const NEWLINE: u8 = 10;

/// Why a text is not a graph.
#[derive(Clone, Copy, Debug, PartialEq, Eq, Structural)]
pub enum ParseError {
    /// The first line is not a header.
    InvalidHeader,
    /// The text ends before the number of edges that its header announces.
    MissingEdge,
    /// A line that should hold an edge does not.
    InvalidEdge,
}

/// The bytes `p ocr `, with which a header starts.
pub open spec fn header_tag() -> Seq<u8> {
    seq![112u8, 32u8, 111u8, 99u8, 114u8, 32u8]
}

/// The input holds `byte` at `index`.
pub open spec fn has_byte_at(input: Seq<u8>, index: int, byte: u8) -> bool {
    0 <= index < input.len() && input[index] == byte
}

/// The header written at `from`, if there is one: the top count, the bottom
/// count and the edge count, and where the header ends.
pub open spec fn header_at(input: Seq<u8>, from: int) -> Option<((u64, u64, u64), int)> {
    if !(0 <= from && from + 6 <= input.len() && input.subrange(from, from + 6) == header_tag()) {
        None
    } else {
        match number_at(input, from + 6) {
            None => None,
            Some((top, top_end)) => if !has_byte_at(input, top_end, SPACE) {
                None
            } else {
                match number_at(input, top_end + 1) {
                    None => None,
                    Some((bottom, bottom_end)) => if !has_byte_at(input, bottom_end, SPACE) {
                        None
                    } else {
                        match number_at(input, bottom_end + 1) {
                            None => None,
                            Some((count, end)) => Some(((top, bottom, count), end)),
                        }
                    },
                }
            },
        }
    }
}

/// The edge written at `from`, if there is one, and where it ends.
pub open spec fn edge_at(input: Seq<u8>, from: int) -> Option<(Edge, int)> {
    match number_at(input, from) {
        None => None,
        Some((top, top_end)) => if !has_byte_at(input, top_end, SPACE) {
            None
        } else {
            match number_at(input, top_end + 1) {
                None => None,
                Some((bottom, end)) => Some(((top, bottom), end)),
            }
        },
    }
}

/// Where the line after the one that holds `from` starts: behind the first
/// line end from there on, or at the end of the input.
pub open spec fn next_line(input: Seq<u8>, from: int) -> int
    decreases input.len() - from,
{
    if !(0 <= from < input.len()) {
        input.len() as int
    } else if input[from] == NEWLINE {
        from + 1
    } else {
        next_line(input, from + 1)
    }
}

/// `done` before what `rest` holds, or the error of `rest`.
pub open spec fn prepend(done: Seq<Edge>, rest: Result<Seq<Edge>, ParseError>) -> Result<Seq<Edge>, ParseError> {
    match rest {
        Ok(edges) => Ok(done + edges),
        Err(error) => Err(error),
    }
}

/// The `count` edges written one on a line from `from` on.
pub open spec fn edges_at(input: Seq<u8>, from: int, count: nat) -> Result<Seq<Edge>, ParseError>
    decreases count,
{
    if count == 0 {
        Ok(Seq::empty())
    } else if from >= input.len() {
        Err(ParseError::MissingEdge)
    } else {
        match edge_at(input, from) {
            None => Err(ParseError::InvalidEdge),
            Some((edge, _)) => prepend(seq![edge], edges_at(input, next_line(input, from), (count - 1) as nat)),
        }
    }
}

/// The graph that a text holds: the counts of its header and the edges of
/// the lines that follow, as many as the header announces.
pub open spec fn text_graph(input: Seq<u8>) -> Result<GraphModel, ParseError> {
    match header_at(input, 0) {
        None => Err(ParseError::InvalidHeader),
        Some(((top, bottom, count), _)) => match edges_at(input, next_line(input, 0), count as nat) {
            Ok(edges) => Ok(GraphModel { top_count: top as nat, bottom_count: bottom as nat, edges }),
            Err(error) => Err(error),
        },
    }
}

/// Tests whether the input holds `byte` at `index`.
fn byte_is_at(input: &[u8], index: usize, byte: u8) -> (found: bool)
    ensures
        found == has_byte_at(input@, index as int, byte),
        found ==> index < usize::MAX,
{
    index < input.len() && input[index] == byte
}

/// Reads the header of a graph written at `from`: the top count, the bottom
/// count and the edge count, and where the header ends.
pub fn parse_graph_header(input: &[u8], from: usize) -> (result: Option<((u64, u64, u64), usize)>)
    ensures
        match result {
            Some((counts, end)) => header_at(input@, from as int) == Some((counts, end as int)),
            None => header_at(input@, from as int).is_none(),
        },
{
    if input.len() < 6 || from > input.len() - 6 {
        return None;
    }
    if !(input[from] == 112 && input[from + 1] == 32 && input[from + 2] == 111 && input[from + 3] == 99
        && input[from + 4] == 114 && input[from + 5] == 32) {
        proof {
            let tag = input@.subrange(from as int, from + 6);
            assert(tag[0] == input@[from as int] && tag[1] == input@[from + 1] && tag[2] == input@[from + 2]
                && tag[3] == input@[from + 3] && tag[4] == input@[from + 4] && tag[5] == input@[from + 5]);
        }
        return None;
    }
    assert(input@.subrange(from as int, from + 6) =~= header_tag());
    let (top, top_end) = match parse_number(input, from + 6) {
        Some(number) => number,
        None => {
            return None;
        },
    };
    if !byte_is_at(input, top_end, SPACE) {
        return None;
    }
    let (bottom, bottom_end) = match parse_number(input, top_end + 1) {
        Some(number) => number,
        None => {
            return None;
        },
    };
    if !byte_is_at(input, bottom_end, SPACE) {
        return None;
    }
    match parse_number(input, bottom_end + 1) {
        Some((count, end)) => Some(((top, bottom, count), end)),
        None => None,
    }
}

/// Reads the edge written at `from`, and where it ends.
pub fn parse_graph_edges(input: &[u8], from: usize) -> (result: Option<(Edge, usize)>)
    ensures
        match result {
            Some((edge, end)) => edge_at(input@, from as int) == Some((edge, end as int)),
            None => edge_at(input@, from as int).is_none(),
        },
{
    let (top, top_end) = match parse_number(input, from) {
        Some(number) => number,
        None => {
            return None;
        },
    };
    if !byte_is_at(input, top_end, SPACE) {
        return None;
    }
    match parse_number(input, top_end + 1) {
        Some((bottom, end)) => Some(((top, bottom), end)),
        None => None,
    }
}

/// Where the line after the one that holds `from` starts.
pub fn skip_line(input: &[u8], from: usize) -> (next: usize)
    ensures
        next == next_line(input@, from as int),
        from <= next <= input@.len() || from > input@.len(),
{
    let mut at: usize = from;
    while at < input.len() && input[at] != NEWLINE
        invariant
            from <= at,
            next_line(input@, at as int) == next_line(input@, from as int),
        decreases input.len() - at,
    {
        at += 1;
    }
    if at < input.len() {
        at + 1
    } else {
        input.len()
    }
}

/// Reads a graph from its text form.
///
/// Fails with `InvalidHeader` when the first line is not a header, with
/// `MissingEdge` when the text ends before the last edge that the header
/// announces, and with `InvalidEdge` when a line that should hold an edge
/// does not; the first line at fault decides. The indices of the edges are
/// not checked against the counts.
pub fn parse_graph(text: &[u8]) -> (result: Result<BipartiteGraph, ParseError>)
    ensures
        match result {
            Ok(graph) => text_graph(text@) == Ok::<GraphModel, ParseError>(graph@),
            Err(error) => text_graph(text@) == Err::<GraphModel, ParseError>(error),
        },
{
    let (top, bottom, count) = match parse_graph_header(text, 0) {
        Some((counts, _)) => counts,
        None => {
            return Err(ParseError::InvalidHeader);
        },
    };
    let start = skip_line(text, 0);
    let mut at: usize = start;
    let mut edges: Vec<Edge> = Vec::new();
    let mut read: u64 = 0;
    proof {
        if let Ok(rest) = edges_at(text@, at as int, count as nat) {
            assert(Seq::<Edge>::empty() + rest =~= rest);
        }
    }
    while read < count
        invariant
            read <= count,
            at <= text@.len(),
            edges@.len() == read,
            header_at(text@, 0) matches Some((counts, _)) && counts == (top, bottom, count),
            start == next_line(text@, 0),
            edges_at(text@, start as int, count as nat) == prepend(
                edges@,
                edges_at(text@, at as int, (count - read) as nat),
            ),
        decreases count - read,
    {
        if at >= text.len() {
            return Err(ParseError::MissingEdge);
        }
        let edge = match parse_graph_edges(text, at) {
            Some((edge, _)) => edge,
            None => {
                return Err(ParseError::InvalidEdge);
            },
        };
        let ghost rest = edges_at(text@, next_line(text@, at as int), (count - read - 1) as nat);
        proof {
            assert(edges_at(text@, at as int, (count - read) as nat) == prepend(seq![edge], rest));
            if rest.is_ok() {
                assert(edges@ + (seq![edge] + rest.unwrap()) =~= edges@.push(edge) + rest.unwrap());
            }
        }
        edges.push(edge);
        at = skip_line(text, at);
        read += 1;
    }
    proof {
        assert(edges@ + Seq::<Edge>::empty() =~= edges@);
    }
    Ok(BipartiteGraph { top_node_count: top, bottom_node_count: bottom, edges })
}

/// The next line starts behind the first line end.
pub proof fn lemma_next_line(input: Seq<u8>, from: int, line_end: int)
    requires
        0 <= from <= line_end < input.len(),
        forall|k: int| from <= k < line_end ==> #[trigger] input[k] != NEWLINE,
        input[line_end] == NEWLINE,
    ensures
        next_line(input, from) == line_end + 1,
    decreases line_end - from,
{
    if from < line_end {
        assert(input[from] != NEWLINE);
        lemma_next_line(input, from + 1, line_end);
    }
}

/// The line of an edge is read back as the edge, whatever stands before and
/// after the line.
pub proof fn lemma_edge_line_read(before: Seq<u8>, edge: Edge, after: Seq<u8>)
    ensures
        edge_at(before + edge_line(edge) + after, before.len() as int) matches Some((read, _)) && read == edge,
        next_line(before + edge_line(edge) + after, before.len() as int) == before.len() + edge_line(edge).len(),
        edge_line(edge).len() > 0,
{
    let input = before + edge_line(edge) + after;
    let top = decimal(edge.0 as nat);
    let bottom = decimal(edge.1 as nat);
    let from = before.len() as int;
    lemma_decimal(edge.0 as nat);
    lemma_decimal(edge.1 as nat);
    let after_top = seq![SPACE] + bottom + seq![NEWLINE] + after;
    assert(input =~= before + top + after_top);
    lemma_number_at_decimal(before, edge.0, after_top);
    let top_end = from + top.len();
    assert(input[top_end] == SPACE);
    let before_bottom = before + top + seq![SPACE];
    let after_bottom = seq![NEWLINE] + after;
    assert(input =~= before_bottom + bottom + after_bottom);
    lemma_number_at_decimal(before_bottom, edge.1, after_bottom);
    let line_end = top_end + 1 + bottom.len();
    assert(input[line_end] == NEWLINE);
    assert forall|k: int| from <= k < line_end implies #[trigger] input[k] != NEWLINE by {
        if k < top_end {
            assert(input[k] == top[k - from]);
        } else if k > top_end {
            assert(input[k] == bottom[k - top_end - 1]);
        }
    }
    lemma_next_line(input, from, line_end);
}

/// The lines of a list of edges are read back as the list, whatever stands
/// before and after them.
pub proof fn lemma_edge_lines_read(before: Seq<u8>, edges: Seq<Edge>, after: Seq<u8>)
    ensures
        edges_at(before + edge_lines(edges) + after, before.len() as int, edges.len()) == Ok::<
            Seq<Edge>,
            ParseError,
        >(edges),
    decreases edges.len(),
{
    let input = before + edge_lines(edges) + after;
    if edges.len() == 0 {
        assert(edges =~= Seq::<Edge>::empty());
    } else {
        let first = edges[0];
        let rest = edges.skip(1);
        let after_first = edge_lines(rest) + after;
        assert(input =~= before + edge_line(first) + after_first);
        lemma_edge_line_read(before, first, after_first);
        let before_rest = before + edge_line(first);
        assert(input =~= before_rest + edge_lines(rest) + after);
        lemma_edge_lines_read(before_rest, rest, after);
        assert(seq![first] + rest =~= edges);
    }
}

/// A graph is read back from its text form as it was written.
pub proof fn lemma_text_round_trip(model: GraphModel)
    requires
        model.top_count <= u64::MAX,
        model.bottom_count <= u64::MAX,
        model.edges.len() <= u64::MAX,
    ensures
        text_graph(model.to_text()) == Ok::<GraphModel, ParseError>(model),
{
    let input = model.to_text();
    let top = decimal(model.top_count);
    let bottom = decimal(model.bottom_count);
    let count = decimal(model.edges.len());
    let lines = edge_lines(model.edges);
    lemma_decimal(model.top_count);
    lemma_decimal(model.bottom_count);
    lemma_decimal(model.edges.len());
    assert(input.subrange(0, 6) =~= header_tag());

    let after_top = seq![SPACE] + bottom + seq![SPACE] + count + seq![NEWLINE] + lines;
    assert(input =~= header_tag() + top + after_top);
    lemma_number_at_decimal(header_tag(), model.top_count as u64, after_top);
    let top_end = 6 + top.len() as int;
    assert(input[top_end] == SPACE);

    let before_bottom = header_tag() + top + seq![SPACE];
    let after_bottom = seq![SPACE] + count + seq![NEWLINE] + lines;
    assert(input =~= before_bottom + bottom + after_bottom);
    lemma_number_at_decimal(before_bottom, model.bottom_count as u64, after_bottom);
    let bottom_end = top_end + 1 + bottom.len();
    assert(input[bottom_end] == SPACE);

    let before_count = before_bottom + bottom + seq![SPACE];
    let after_count = seq![NEWLINE] + lines;
    assert(input =~= before_count + count + after_count);
    lemma_number_at_decimal(before_count, model.edges.len() as u64, after_count);
    let line_end = bottom_end + 1 + count.len();
    assert(input[line_end] == NEWLINE);

    assert forall|k: int| 0 <= k < line_end implies #[trigger] input[k] != NEWLINE by {
        if k < 6 {
            assert(input[k] == header_tag()[k]);
        } else if k < top_end {
            assert(input[k] == top[k - 6]);
        } else if top_end < k < bottom_end {
            assert(input[k] == bottom[k - top_end - 1]);
        } else if bottom_end < k {
            assert(input[k] == count[k - bottom_end - 1]);
        }
    }
    lemma_next_line(input, 0, line_end);
    assert(model.header_line().len() == line_end + 1);
    assert(input =~= model.header_line() + lines + Seq::<u8>::empty());
    lemma_edge_lines_read(model.header_line(), model.edges, Seq::<u8>::empty());
}

} // verus!
