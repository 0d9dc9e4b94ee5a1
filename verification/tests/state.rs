use parse_wiki_text::node::{Node, Warning, WarningMessage};
use parse_wiki_text::state::{
    skip_whitespace_backwards, skip_whitespace_forwards, Innermost, OpenNode, OpenNodeType, State,
};
use parse_wiki_text::text::{byte_length, get_byte, substring};

#[test]
fn byte_at_position() {
    assert_eq!(get_byte("ab", 0), Some(b'a'));
    assert_eq!(get_byte("ab", 1), Some(b'b'));
    assert_eq!(get_byte("ab", 2), None);
    assert_eq!(get_byte("", 0), None);
}

#[test]
fn length_counts_bytes() {
    assert_eq!(byte_length(""), 0);
    assert_eq!(byte_length("a\u{e9}"), 3);
}

#[test]
fn substring_between_boundaries() {
    assert_eq!(substring("a\u{e9}b", 1, 3), "\u{e9}");
    assert_eq!(substring("abc", 0, 3), "abc");
    assert_eq!(substring("abc", 2, 2), "");
}

#[test]
fn skipping_forwards_stops_at_the_first_byte_that_is_no_blank() {
    assert_eq!(skip_whitespace_forwards("  \t x", 0), 4);
    assert_eq!(skip_whitespace_forwards("  \t x", 4), 4);
    assert_eq!(skip_whitespace_forwards("a  ", 1), 3);
    assert_eq!(skip_whitespace_forwards("a  ", 7), 7);
}

#[test]
fn skipping_forwards_does_not_pass_a_line_break() {
    assert_eq!(skip_whitespace_forwards(" \n x", 0), 1);
}

#[test]
fn skipping_backwards_stops_after_the_last_byte_that_is_no_blank() {
    assert_eq!(skip_whitespace_backwards("x \t ", 4), 1);
    assert_eq!(skip_whitespace_backwards("x \t ", 1), 1);
    assert_eq!(skip_whitespace_backwards("   ", 3), 0);
    assert_eq!(skip_whitespace_backwards("x\n ", 3), 2);
}

#[test]
fn new_state_stands_at_the_start() {
    let state = State::new("abc", 1);
    assert_eq!(state.scan_position, 1);
    assert_eq!(state.flushed_position, 1);
    assert!(state.nodes.is_empty());
    assert!(state.stack.is_empty());
    assert!(state.warnings.is_empty());
    assert_eq!(state.get_byte(1), Some(b'b'));
    assert_eq!(state.get_byte(3), None);
    assert!(state.is_byte(2, b'c'));
    assert!(!state.is_byte(2, b'b'));
    assert!(!state.is_byte(3, b'c'));
    assert_eq!(state.innermost(), Innermost::Nothing);
}

#[test]
fn state_skips_blanks() {
    let state = State::new("a \t b", 0);
    assert_eq!(state.skip_whitespace_forwards(1), 4);
    assert_eq!(state.skip_whitespace_backwards(4), 1);
}

#[test]
fn flush_makes_a_text_node() {
    let mut state = State::new("hello world", 0);
    state.scan_position = 5;
    state.flush(5);
    assert_eq!(state.nodes, vec![Node::Text { start: 0, end: 5, value: "hello" }]);
    assert_eq!(state.flushed_position, 5);
    assert_eq!(state.scan_position, 5);
}

#[test]
fn flush_of_nothing_changes_nothing() {
    let mut state = State::new("hello", 0);
    state.scan_position = 3;
    state.flushed_position = 3;
    state.flush(3);
    assert!(state.nodes.is_empty());
    assert_eq!(state.flushed_position, 3);
    state.flush(2);
    assert!(state.nodes.is_empty());
    assert_eq!(state.flushed_position, 3);
}

#[test]
fn flush_twice_is_flush_once() {
    let mut state = State::new("hello world", 0);
    state.scan_position = 5;
    state.flush(5);
    state.flush(5);
    assert_eq!(state.nodes, vec![Node::Text { start: 0, end: 5, value: "hello" }]);
    assert_eq!(state.flushed_position, 5);
}

#[test]
fn warn_adds_a_warning() {
    let mut state = State::new("abc", 0);
    state.warn(1, 2, WarningMessage::UnexpectedEndTag);
    state.warn(0, 3, WarningMessage::InvalidLinkSyntax);
    assert_eq!(
        state.warnings,
        vec![
            Warning { start: 1, end: 2, message: WarningMessage::UnexpectedEndTag },
            Warning { start: 0, end: 3, message: WarningMessage::InvalidLinkSyntax },
        ]
    );
}

#[test]
fn push_open_node_saves_what_was_produced() {
    let mut state = State::new("ab{{ c", 0);
    state.scan_position = 2;
    state.push_open_node(OpenNodeType::Template { name: None, parameters: vec![] }, 5);
    assert_eq!(state.scan_position, 5);
    assert_eq!(state.flushed_position, 5);
    assert!(state.nodes.is_empty());
    assert_eq!(
        state.stack,
        vec![OpenNode {
            start: 2,
            nodes: vec![Node::Text { start: 0, end: 2, value: "ab" }],
            type_: OpenNodeType::Template { name: None, parameters: vec![] },
        }]
    );
    assert_eq!(state.innermost(), Innermost::Template);
}

#[test]
fn rewind_returns_to_the_position() {
    let mut state = State::new("ab{{c", 0);
    state.scan_position = 2;
    state.push_open_node(OpenNodeType::Parameter { name: None, default: None }, 4);
    state.scan_position = 5;
    state.flush(5);
    assert_eq!(state.innermost(), Innermost::Parameter);
    let open_node = state.pop_open_node();
    assert_eq!(open_node.start, 2);
    state.rewind(open_node.nodes, open_node.start);
    assert_eq!(state.scan_position, 2);
    assert_eq!(state.flushed_position, 2);
    assert_eq!(state.nodes, vec![Node::Text { start: 0, end: 2, value: "ab" }]);
    assert!(state.stack.is_empty());
}

#[test]
fn nodes_are_taken_and_replaced() {
    let mut state = State::new("abcd", 0);
    state.scan_position = 2;
    state.flush(2);
    let taken = state.take_nodes();
    assert_eq!(taken, vec![Node::Text { start: 0, end: 2, value: "ab" }]);
    assert!(state.nodes.is_empty());
    state.push_node(Node::Text { start: 2, end: 3, value: "c" });
    let replaced = state.replace_nodes(taken);
    assert_eq!(replaced, vec![Node::Text { start: 2, end: 3, value: "c" }]);
    assert_eq!(state.nodes, vec![Node::Text { start: 0, end: 2, value: "ab" }]);
}

#[test]
fn open_constructs_are_pushed_and_popped() {
    let mut state = State::new("[[a|", 0);
    state.push_open(OpenNode {
        start: 0,
        nodes: vec![],
        type_: OpenNodeType::Link { namespace: None, should_reparse: false, target: "a" },
    });
    assert_eq!(state.innermost(), Innermost::Link);
    let open_node = state.pop_open_node();
    assert_eq!(
        open_node.type_,
        OpenNodeType::Link { namespace: None, should_reparse: false, target: "a" }
    );
    assert_eq!(state.innermost(), Innermost::Nothing);
}
