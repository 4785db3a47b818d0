use ocm_solver::bipartite_graph::BipartiteGraph;
use ocm_solver::decimal::{parse_number, push_decimal};
use ocm_solver::parser::{parse_graph, parse_graph_edges, parse_graph_header, skip_line, ParseError};
use ocm_solver::run_output::RunOutput;

#[test]
fn numbers_are_read_in_decimal() {
    assert_eq!(parse_number(b"0", 0), Some((0, 1)));
    assert_eq!(parse_number(b"7", 0), Some((7, 1)));
    assert_eq!(parse_number(b"1234 ", 0), Some((1234, 4)));
    assert_eq!(parse_number(b"ab 56cd", 3), Some((56, 5)));
    assert_eq!(parse_number(b"18446744073709551615", 0), Some((u64::MAX, 20)));
}

#[test]
fn a_number_that_starts_with_zero_is_zero() {
    assert_eq!(parse_number(b"0123", 0), Some((0, 1)));
    assert_eq!(parse_number(b"00", 0), Some((0, 1)));
}

#[test]
fn what_is_no_number_is_not_read() {
    assert_eq!(parse_number(b"", 0), None);
    assert_eq!(parse_number(b"12", 2), None);
    assert_eq!(parse_number(b"12", 9), None);
    assert_eq!(parse_number(b" 12", 0), None);
    assert_eq!(parse_number(b"-1", 0), None);
    assert_eq!(parse_number(b"x", 0), None);
    assert_eq!(parse_number(b"/", 0), None);
    assert_eq!(parse_number(b":", 0), None);
}

#[test]
fn a_number_beyond_64_bits_is_not_read() {
    assert_eq!(parse_number(b"18446744073709551616", 0), None);
    assert_eq!(parse_number(b"18446744073709551620", 0), None);
    assert_eq!(parse_number(b"99999999999999999999", 0), None);
    assert_eq!(parse_number(b"184467440737095516150", 0), None);
}

#[test]
fn numbers_are_written_in_decimal() {
    let mut out = b"n=".to_vec();
    push_decimal(&mut out, 0);
    out.push(b',');
    push_decimal(&mut out, 9);
    out.push(b',');
    push_decimal(&mut out, 10);
    out.push(b',');
    push_decimal(&mut out, 1203);
    out.push(b',');
    push_decimal(&mut out, u64::MAX);
    assert_eq!(out, b"n=0,9,10,1203,18446744073709551615".to_vec());
}

#[test]
fn header_is_read() {
    assert_eq!(parse_graph_header(b"p ocr 3 4 5", 0), Some(((3, 4, 5), 11)));
    assert_eq!(parse_graph_header(b"p ocr 3 4 5\n1 4\n", 0), Some(((3, 4, 5), 11)));
    assert_eq!(parse_graph_header(b"p ocr 10 200 0 and more", 0), Some(((10, 200, 0), 14)));
    assert_eq!(parse_graph_header(b"c\np ocr 1 2 3", 2), Some(((1, 2, 3), 13)));
}

#[test]
fn what_is_no_header_is_not_read() {
    assert_eq!(parse_graph_header(b"", 0), None);
    assert_eq!(parse_graph_header(b"p ocr", 0), None);
    assert_eq!(parse_graph_header(b"p ocr 3 4", 0), None);
    assert_eq!(parse_graph_header(b"p ocr 3 4 ", 0), None);
    assert_eq!(parse_graph_header(b"p ocr  3 4 5", 0), None);
    assert_eq!(parse_graph_header(b"p ocr 3  4 5", 0), None);
    assert_eq!(parse_graph_header(b"p ocr 03 4 5", 0), None);
    assert_eq!(parse_graph_header(b"p OCR 3 4 5", 0), None);
    assert_eq!(parse_graph_header(b"q ocr 3 4 5", 0), None);
    assert_eq!(parse_graph_header(b"p ocr 3 4 5", 1), None);
    assert_eq!(parse_graph_header(b"p ocr 3 4 5", 100), None);
    assert_eq!(parse_graph_header(b"p ocr 3 18446744073709551616 5", 0), None);
}

#[test]
fn edge_is_read() {
    assert_eq!(parse_graph_edges(b"1 4", 0), Some(((1, 4), 3)));
    assert_eq!(parse_graph_edges(b"12 345 rest", 0), Some(((12, 345), 6)));
    assert_eq!(parse_graph_edges(b"1 4\n2 5\n", 4), Some(((2, 5), 7)));
    assert_eq!(parse_graph_edges(b"0 0", 0), Some(((0, 0), 3)));
}

#[test]
fn what_is_no_edge_is_not_read() {
    assert_eq!(parse_graph_edges(b"", 0), None);
    assert_eq!(parse_graph_edges(b"1", 0), None);
    assert_eq!(parse_graph_edges(b"1 ", 0), None);
    assert_eq!(parse_graph_edges(b" 1 4", 0), None);
    assert_eq!(parse_graph_edges(b"1  4", 0), None);
    assert_eq!(parse_graph_edges(b"1,4", 0), None);
    assert_eq!(parse_graph_edges(b"01 4", 0), None);
    assert_eq!(parse_graph_edges(b"1 x", 0), None);
}

#[test]
fn lines_are_skipped() {
    assert_eq!(skip_line(b"ab\ncd\n", 0), 3);
    assert_eq!(skip_line(b"ab\ncd\n", 2), 3);
    assert_eq!(skip_line(b"ab\ncd\n", 3), 6);
    assert_eq!(skip_line(b"ab\ncd", 3), 5);
    assert_eq!(skip_line(b"ab\ncd", 5), 5);
    assert_eq!(skip_line(b"\n\n", 0), 1);
    assert_eq!(skip_line(b"", 0), 0);
}

#[test]
fn graph_is_read_from_text() {
    let graph = parse_graph(b"p ocr 3 4 5\n1 6\n1 4\n2 5\n2 4\n2 6\n").unwrap();
    assert_eq!(graph.top_node_count, 3);
    assert_eq!(graph.bottom_node_count, 4);
    assert_eq!(graph.edges, vec![(1, 6), (1, 4), (2, 5), (2, 4), (2, 6)]);
    let graph = parse_graph(b"p ocr 0 0 0").unwrap();
    assert_eq!((graph.top_node_count, graph.bottom_node_count, graph.edges.len()), (0, 0, 0));
}

#[test]
fn last_line_needs_no_line_end_and_lines_may_end_with_a_return() {
    let graph = parse_graph(b"p ocr 2 2 2\r\n1 3\r\n2 4").unwrap();
    assert_eq!(graph.edges, vec![(1, 3), (2, 4)]);
}

#[test]
fn lines_after_the_last_edge_are_not_read() {
    let graph = parse_graph(b"p ocr 2 2 1\n1 3\nnot an edge\n").unwrap();
    assert_eq!(graph.edges, vec![(1, 3)]);
}

#[test]
fn indices_are_not_checked_when_read() {
    let graph = parse_graph(b"p ocr 2 2 1\n9 9\n").unwrap();
    assert_eq!(graph.edges, vec![(9, 9)]);
    assert!(!graph.is_valid());
}

#[test]
fn text_without_header_is_rejected() {
    assert_eq!(parse_graph(b"").unwrap_err(), ParseError::InvalidHeader);
    assert_eq!(parse_graph(b"\np ocr 1 1 0\n").unwrap_err(), ParseError::InvalidHeader);
    assert_eq!(parse_graph(b"c comment\np ocr 1 1 0\n").unwrap_err(), ParseError::InvalidHeader);
    assert_eq!(parse_graph(b"p ocr 1 1\n").unwrap_err(), ParseError::InvalidHeader);
}

#[test]
fn text_with_too_few_edges_is_rejected() {
    assert_eq!(parse_graph(b"p ocr 2 2 2\n1 3\n").unwrap_err(), ParseError::MissingEdge);
    assert_eq!(parse_graph(b"p ocr 2 2 1").unwrap_err(), ParseError::MissingEdge);
    assert_eq!(parse_graph(b"p ocr 2 2 18446744073709551615\n1 3\n").unwrap_err(), ParseError::MissingEdge);
}

#[test]
fn text_with_a_line_that_is_no_edge_is_rejected() {
    assert_eq!(parse_graph(b"p ocr 2 2 2\n1 3\n\n2 4\n").unwrap_err(), ParseError::InvalidEdge);
    assert_eq!(parse_graph(b"p ocr 2 2 2\n1 3\n2\n").unwrap_err(), ParseError::InvalidEdge);
    assert_eq!(parse_graph(b"p ocr 2 2 2\nx\n").unwrap_err(), ParseError::InvalidEdge);
}

#[test]
fn graph_is_written_as_text() {
    let graph = BipartiteGraph::from_parts(3, 4, 2, vec![(1, 6), (3, 4)]).unwrap();
    assert_eq!(graph.to_text(), b"p ocr 3 4 2\n1 6\n3 4\n".to_vec());
    assert_eq!(BipartiteGraph::new().to_text(), b"p ocr 0 0 0\n".to_vec());
}

#[test]
fn written_graph_is_read_back() {
    let graph = BipartiteGraph {
        top_node_count: 120,
        bottom_node_count: u64::MAX,
        edges: vec![(1, 121), (120, 1000), (0, u64::MAX), (10, 10)],
    };
    let back = parse_graph(&graph.to_text()).unwrap();
    assert_eq!(back.top_node_count, graph.top_node_count);
    assert_eq!(back.bottom_node_count, graph.bottom_node_count);
    assert_eq!(back.edges, graph.edges);
}

#[test]
fn run_output_is_saved_under_algorithm_and_dataset() {
    let output = RunOutput::new("../datasets/tiny/cycle_8.gr", "iterated_median", "tiny", 12, 3, 4567);
    assert_eq!(output.directory(), b"analytics/iterated_median/tiny".to_vec());
    assert_eq!(output.file_name(), b"cycle_8.gr.txt".to_vec());
    assert_eq!(output.contents(), b"12\n3\n4567\n".to_vec());
}

#[test]
fn run_output_file_name_is_the_last_segment() {
    assert_eq!(RunOutput::new("plain.gr", "median", "d", 0, 0, 0).file_name(), b"plain.gr.txt".to_vec());
    assert_eq!(RunOutput::new("a/b/", "median", "d", 0, 0, 0).file_name(), b".txt".to_vec());
    assert_eq!(RunOutput::new("", "median", "d", 0, 0, 0).file_name(), b".txt".to_vec());
    assert_eq!(RunOutput::new("/x", "", "", 0, 0, 0).file_name(), b"x.txt".to_vec());
    assert_eq!(RunOutput::new("/x", "", "", 0, 0, 0).directory(), b"analytics//".to_vec());
    assert_eq!(RunOutput::new("x", "a", "b", u64::MAX, 0, 10).contents(), b"18446744073709551615\n0\n10\n".to_vec());
}
