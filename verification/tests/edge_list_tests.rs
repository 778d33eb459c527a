use pagerank::edge_list::{
    chars_of, count_nodes, is_whitespace, parse_edge_list, split_lines, split_tokens, ParseError,
};

fn s(text: &str) -> String {
    text.to_string()
}

fn chars(text: &str) -> Vec<char> {
    text.chars().collect()
}

#[test]
fn the_first_token_is_the_destination() {
    let (edges, nodes) = parse_edge_list("b a\n").unwrap();
    assert_eq!(edges, vec![(s("a"), s("b"))]);
    assert_eq!(nodes, 2);
}

#[test]
fn edges_come_in_the_order_of_the_lines() {
    let (edges, nodes) = parse_edge_list("2 1\n3 1\n1 3\n2 1").unwrap();
    assert_eq!(
        edges,
        vec![(s("1"), s("2")), (s("1"), s("3")), (s("3"), s("1")), (s("1"), s("2"))]
    );
    assert_eq!(nodes, 3);
}

#[test]
fn tokens_are_set_apart_by_any_white_space() {
    let (edges, nodes) = parse_edge_list("  b\t a  \r\nc\u{3000}d\n").unwrap();
    assert_eq!(edges, vec![(s("a"), s("b")), (s("d"), s("c"))]);
    assert_eq!(nodes, 4);
}

#[test]
fn an_empty_text_has_no_edges() {
    let (edges, nodes) = parse_edge_list("").unwrap();
    assert!(edges.is_empty());
    assert_eq!(nodes, 0);
}

#[test]
fn a_self_loop_names_one_node() {
    let (edges, nodes) = parse_edge_list("a a").unwrap();
    assert_eq!(edges, vec![(s("a"), s("a"))]);
    assert_eq!(nodes, 1);
}

#[test]
fn a_line_of_one_token_is_an_error() {
    assert_eq!(parse_edge_list("a"), Err(ParseError { line: 0, tokens: 1 }));
    assert_eq!(parse_edge_list("b a\nc\nd e\n"), Err(ParseError { line: 1, tokens: 1 }));
}

#[test]
fn a_line_of_three_tokens_is_an_error() {
    assert_eq!(parse_edge_list("b a\nd c\nx y z"), Err(ParseError { line: 2, tokens: 3 }));
}

#[test]
fn a_blank_line_is_an_error() {
    assert_eq!(parse_edge_list("b a\n\nd c\n"), Err(ParseError { line: 1, tokens: 0 }));
    assert_eq!(parse_edge_list("\n"), Err(ParseError { line: 0, tokens: 0 }));
    assert_eq!(parse_edge_list("b a\n   "), Err(ParseError { line: 1, tokens: 0 }));
}

#[test]
fn the_first_malformed_line_is_reported() {
    assert_eq!(parse_edge_list("a\nb c d\n"), Err(ParseError { line: 0, tokens: 1 }));
}

#[test]
fn lines_end_at_a_line_feed() {
    let as_strings = |text: &str| -> Vec<String> {
        split_lines(&chars(text)).iter().map(|l| l.iter().collect()).collect()
    };
    for text in ["", "a", "a\n", "a\nb", "a\n\nb\n", "\n", "\n\n", "a b\nc d\n", "x\n  "] {
        let want: Vec<String> = text.split_terminator('\n').map(|l| l.to_string()).collect();
        assert_eq!(as_strings(text), want);
    }
    assert_eq!(as_strings("a\n\nb\n"), vec![s("a"), s(""), s("b")]);
}

#[test]
fn tokens_are_the_runs_between_white_space() {
    for text in ["", " ", "a", " a", "a ", "a b", "  ab \t cd\u{a0}e  ", "a\rb"] {
        let want: Vec<String> = text.split_whitespace().map(|t| t.to_string()).collect();
        assert_eq!(split_tokens(&chars(text)), want);
    }
    assert_eq!(split_tokens(&chars(" ab  c ")), vec![s("ab"), s("c")]);
}

#[test]
fn white_space_is_what_unicode_says() {
    for code in 0..=0x10ffffu32 {
        if let Some(c) = char::from_u32(code) {
            assert_eq!(is_whitespace(c), c.is_whitespace());
        }
    }
}

#[test]
fn chars_of_gives_every_character() {
    assert_eq!(chars_of("aλ\n"), vec!['a', 'λ', '\n']);
    assert!(chars_of("").is_empty());
}

#[test]
fn count_nodes_counts_each_node_once() {
    assert_eq!(count_nodes(&Vec::new()), 0);
    assert_eq!(count_nodes(&vec![(s("a"), s("b")), (s("b"), s("a")), (s("a"), s("c"))]), 3);
}
