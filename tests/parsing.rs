use markup_tree::parser::{parse, ParseError, Parser};
use markup_tree::tree::{to_markup, ElementData, Node, NodeType};

fn element(name: &str, children: Vec<Node>) -> Node {
    Node {
        children,
        node_type: NodeType::Element(ElementData { tag_name: name.to_string() }),
    }
}

fn text(content: &str) -> Node {
    Node { children: vec![], node_type: NodeType::Text(content.to_string()) }
}

fn texts_hold_no_tag_start(nodes: &[Node]) -> bool {
    nodes.iter().all(|n| {
        let own = match &n.node_type {
            NodeType::Text(t) => !t.contains('<'),
            NodeType::Element(_) => true,
        };
        own && texts_hold_no_tag_start(&n.children)
    })
}

#[test]
fn empty_input_gives_no_nodes() {
    assert_eq!(parse(""), Ok(vec![]));
}

#[test]
fn whitespace_only_input_gives_no_nodes() {
    assert_eq!(parse(" \n\t "), Ok(vec![]));
}

#[test]
fn nested_text_and_elements() {
    let tree = parse("<a>hello<b>world</b></a>").unwrap();
    assert_eq!(
        tree,
        vec![element("a", vec![text("hello"), element("b", vec![text("world")])])]
    );
}

#[test]
fn mismatched_nesting_reports_tag_mismatch() {
    assert_eq!(
        parse("<a><b></a></b>"),
        Err(ParseError::TagMismatch { expected: "b".to_string(), found: "a".to_string() })
    );
}

#[test]
fn surrounding_and_enclosed_whitespace_is_trimmed() {
    assert_eq!(parse("  <a>  hi  </a>  "), Ok(vec![element("a", vec![text("hi")])]));
}

#[test]
fn interior_whitespace_of_text_is_kept() {
    assert_eq!(parse("<p> a  b\tc </p>"), Ok(vec![element("p", vec![text("a  b\tc")])]));
}

#[test]
fn well_nested_document_keeps_names() {
    let tree = parse("<html><body><div>x</div><div></div></body></html>").unwrap();
    assert_eq!(
        tree,
        vec![element(
            "html",
            vec![element("body", vec![element("div", vec![text("x")]), element("div", vec![])])]
        )]
    );
}

#[test]
fn reparse_of_markup_gives_same_tree() {
    let first = parse("  <a> x <b>y z</b>\n w </a> t <c></c> ").unwrap();
    let written = to_markup(&first);
    assert_eq!(written, "<a>x<b>y z</b>w</a>t<c></c>");
    let second = parse(&written).unwrap();
    assert_eq!(first, second);
}

#[test]
fn text_never_holds_tag_start() {
    let tree = parse("a > b <x> c / d <y>e</y> </x> f").unwrap();
    assert!(texts_hold_no_tag_start(&tree));
    assert_eq!(
        tree,
        vec![text("a > b"), element("x", vec![text("c / d"), element("y", vec![text("e")])]), text("f")]
    );
}

#[test]
fn to_markup_writes_canonical_text() {
    let nodes = vec![text("one"), element("k", vec![element("", vec![]), text("two")])];
    assert_eq!(to_markup(&nodes), "one<k><></>two</k>");
    assert_eq!(to_markup(&vec![]), "");
}

#[test]
fn stray_closing_tag_at_root_ends_the_document() {
    assert_eq!(parse("<a></a></b><c></c>"), Ok(vec![element("a", vec![])]));
    assert_eq!(parse("x</y>z"), Ok(vec![text("x")]));
}

#[test]
fn unterminated_opening_tag_is_malformed() {
    assert_eq!(parse("<a"), Err(ParseError::MalformedTag));
}

#[test]
fn missing_closing_tag_is_malformed() {
    assert_eq!(parse("<a>hi"), Err(ParseError::MalformedClosingTag));
}

#[test]
fn unterminated_closing_tag_is_malformed() {
    assert_eq!(parse("<a>x</a"), Err(ParseError::MalformedClosingTag));
}

#[test]
fn unterminated_closing_tag_of_another_name_is_a_mismatch() {
    assert_eq!(
        parse("<a>x</ab"),
        Err(ParseError::TagMismatch { expected: "a".to_string(), found: "ab".to_string() })
    );
}

#[test]
fn names_compare_verbatim() {
    assert_eq!(
        parse("<A></a>"),
        Err(ParseError::TagMismatch { expected: "A".to_string(), found: "a".to_string() })
    );
}

#[test]
fn node_at_end_of_input_is_unexpected() {
    let mut p = Parser::new("");
    assert_eq!(p.parse_node(), Err(ParseError::UnexpectedEndOfInput));
}

#[test]
fn non_ascii_names_and_text() {
    assert_eq!(parse("<é>ü ß</é>"), Ok(vec![element("é", vec![text("ü ß")])]));
}

#[test]
fn build_tree_stops_at_closing_tag_and_leaves_it() {
    let mut p = Parser::new("x<b>y</b></a>rest");
    let nodes = p.build_tree().unwrap();
    assert_eq!(nodes, vec![text("x"), element("b", vec![text("y")])]);
    assert!(p.starts_with("</a>"));
}

#[test]
fn parse_tag_reads_one_element() {
    let mut p = Parser::new("<a>1</a><b>2</b>");
    assert_eq!(p.parse_tag(), Ok(element("a", vec![text("1")])));
    assert_eq!(p.parse_node(), Ok(element("b", vec![text("2")])));
    assert!(p.file_not_finished());
}

#[test]
fn parse_tag_without_open_angle_is_malformed() {
    let mut p = Parser::new("a>");
    assert_eq!(p.parse_tag(), Err(ParseError::MalformedTag));
}

#[test]
fn parse_value_reads_text_up_to_tag() {
    let mut p = Parser::new("  some text \n<b>");
    assert_eq!(p.parse_value(), Ok(text("some text")));
    assert_eq!(p.get_next_char(), Some('<'));
}

#[test]
fn parse_value_of_whitespace_gives_empty_text() {
    let mut p = Parser::new("   <b>");
    assert_eq!(p.parse_value(), Ok(text("")));
}
