use markup_tree::parser::Parser;
use markup_tree::text::{chars_of, is_whitespace, string_from, trim_bounds, trimmed};

#[test]
fn peek_does_not_move() {
    let p = Parser::new("ab");
    assert_eq!(p.get_next_char(), Some('a'));
    assert_eq!(p.get_next_char(), Some('a'));
    assert_eq!(Parser::new("").get_next_char(), None);
}

#[test]
fn consume_moves_by_one() {
    let mut p = Parser::new("ab");
    assert_eq!(p.consume_next_char(), Some('a'));
    assert_eq!(p.consume_next_char(), Some('b'));
    assert!(p.file_not_finished());
    assert_eq!(p.consume_next_char(), None);
    assert_eq!(p.get_next_char(), None);
}

#[test]
fn whitespace_run_is_skipped() {
    let mut p = Parser::new(" \t\n x ");
    p.consume_whitespaces();
    assert_eq!(p.get_next_char(), Some('x'));
    p.consume_whitespaces();
    assert_eq!(p.get_next_char(), Some('x'));
}

#[test]
fn read_until_leaves_delimiter() {
    let mut p = Parser::new("name>rest");
    assert_eq!(p.read_until('>'), "name");
    assert_eq!(p.get_next_char(), Some('>'));
    assert_eq!(p.read_until('>'), "");
}

#[test]
fn read_until_without_delimiter_returns_rest() {
    let mut p = Parser::new("no delimiter");
    assert_eq!(p.read_until('<'), "no delimiter");
    assert!(p.file_not_finished());
}

#[test]
fn starts_with_looks_ahead() {
    let mut p = Parser::new("x</a>");
    assert!(!p.starts_with("</"));
    p.consume_next_char();
    assert!(p.starts_with("</"));
    assert!(p.starts_with("</a>"));
    assert!(!p.starts_with("</a>!"));
    assert!(p.starts_with(""));
}

#[test]
fn file_not_finished_is_true_at_end() {
    assert!(Parser::new("").file_not_finished());
    assert!(!Parser::new("a").file_not_finished());
}

#[test]
fn whitespace_agrees_with_std() {
    for c in (0u32..=0x10FFFF).filter_map(char::from_u32) {
        assert_eq!(is_whitespace(c), c.is_whitespace(), "{:?}", c);
    }
}

#[test]
fn trimmed_removes_both_ends_only() {
    assert_eq!(trimmed("  a \u{3000}b\u{a0} \n"), "a \u{3000}b");
    assert_eq!(trimmed(" \t "), "");
    assert_eq!(trimmed(""), "");
    assert_eq!(trimmed("x"), "x");
}

#[test]
fn chars_and_strings_convert() {
    let v = chars_of("héllo");
    assert_eq!(v, vec!['h', 'é', 'l', 'l', 'o']);
    assert_eq!(string_from(&v, 1, 4), "éll");
    assert_eq!(string_from(&v, 2, 2), "");
}

#[test]
fn trim_bounds_of_a_span() {
    let v = chars_of("ab  cd e  fg");
    assert_eq!(trim_bounds(&v, 2, 10), (4, 8));
    assert_eq!(trim_bounds(&v, 2, 4), (4, 4));
}
