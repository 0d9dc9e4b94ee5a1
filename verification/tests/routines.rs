use parse_wiki_text::configuration::{Configuration, NamespaceName};
use parse_wiki_text::link::{
    literal_or_reparsed, parse_end, parse_link_end, parse_link_start, parse_unexpected_end,
};
use parse_wiki_text::node::{Namespace, Node, Parameter, Warning, WarningMessage};
use parse_wiki_text::state::{OpenNode, OpenNodeType, State};
use parse_wiki_text::template::{
    parse_parameter_name_end, parse_parameter_separator, parse_template_end,
    parse_template_separator, parse_template_start,
};

fn wiki() -> Configuration {
    Configuration::new(
        vec![
            NamespaceName { name: String::from("Category"), namespace: Namespace::Category },
            NamespaceName { name: String::from("File"), namespace: Namespace::File },
        ],
        "st",
    )
}

fn at(wiki_text: &str, position: usize) -> State<'_> {
    let mut state = State::new(wiki_text, 0);
    state.scan_position = position;
    state
}

fn piece(start: usize, end: usize, value: &str) -> Node<'_> {
    Node::Text { start, end, value }
}

#[test]
fn two_braces_open_a_template() {
    let mut state = at("a{{  b", 1);
    parse_template_start(&mut state);
    assert_eq!(state.scan_position, 5);
    assert_eq!(state.flushed_position, 5);
    assert!(state.nodes.is_empty());
    assert_eq!(
        state.stack,
        vec![OpenNode {
            start: 1,
            nodes: vec![piece(0, 1, "a")],
            type_: OpenNodeType::Template { name: None, parameters: vec![] },
        }]
    );
}

#[test]
fn three_braces_open_a_parameter() {
    let mut state = at("{{{ b", 0);
    parse_template_start(&mut state);
    assert_eq!(state.scan_position, 4);
    assert_eq!(
        state.stack,
        vec![OpenNode {
            start: 0,
            nodes: vec![],
            type_: OpenNodeType::Parameter { name: None, default: None },
        }]
    );
}

#[test]
fn four_braces_open_a_parameter() {
    let mut state = at("{{{{b}}}}", 0);
    parse_template_start(&mut state);
    assert_eq!(state.scan_position, 3);
    assert_eq!(
        state.stack[0].type_,
        OpenNodeType::Parameter { name: None, default: None }
    );
}

#[test]
fn five_braces_open_a_template_where_three_braces_close_first() {
    let mut state = at("{{{{{b}}}|c}}", 0);
    parse_template_start(&mut state);
    assert_eq!(state.scan_position, 2);
    assert_eq!(
        state.stack[0].type_,
        OpenNodeType::Template { name: None, parameters: vec![] }
    );
}

#[test]
fn five_braces_open_a_parameter_where_two_braces_close_first() {
    let mut state = at("{{{{{b}}|c}}}", 0);
    parse_template_start(&mut state);
    assert_eq!(state.scan_position, 3);
    assert_eq!(
        state.stack[0].type_,
        OpenNodeType::Parameter { name: None, default: None }
    );
}

#[test]
fn five_braces_open_a_parameter_where_nothing_closes() {
    let mut state = at("{{{{{b}", 0);
    parse_template_start(&mut state);
    assert_eq!(state.scan_position, 3);
    assert_eq!(
        state.stack[0].type_,
        OpenNodeType::Parameter { name: None, default: None }
    );
}

#[test]
fn first_separator_ends_the_name_of_the_template() {
    let mut state = at("{{ n |  a", 0);
    parse_template_start(&mut state);
    state.scan_position = 5;
    parse_template_separator(&mut state);
    assert_eq!(state.scan_position, 8);
    assert_eq!(state.flushed_position, 8);
    assert!(state.nodes.is_empty());
    assert_eq!(
        state.stack[0].type_,
        OpenNodeType::Template {
            name: Some(vec![piece(3, 4, "n")]),
            parameters: vec![Parameter { start: 8, end: 0, name: None, value: vec![] }],
        }
    );
}

#[test]
fn later_separator_ends_the_argument() {
    let mut state = at("{{n|a |b", 0);
    parse_template_start(&mut state);
    state.scan_position = 3;
    parse_template_separator(&mut state);
    state.scan_position = 6;
    parse_template_separator(&mut state);
    assert_eq!(state.scan_position, 7);
    assert_eq!(
        state.stack[0].type_,
        OpenNodeType::Template {
            name: Some(vec![piece(2, 3, "n")]),
            parameters: vec![
                Parameter { start: 4, end: 5, name: None, value: vec![piece(4, 5, "a")] },
                Parameter { start: 7, end: 0, name: None, value: vec![] },
            ],
        }
    );
}

#[test]
fn argument_of_blanks_ends_before_it_starts() {
    let mut state = at("{{n| |b", 0);
    parse_template_start(&mut state);
    state.scan_position = 3;
    parse_template_separator(&mut state);
    assert_eq!(state.scan_position, 5);
    parse_template_separator(&mut state);
    assert_eq!(
        state.stack[0].type_,
        OpenNodeType::Template {
            name: Some(vec![piece(2, 3, "n")]),
            parameters: vec![
                Parameter { start: 5, end: 4, name: None, value: vec![] },
                Parameter { start: 6, end: 0, name: None, value: vec![] },
            ],
        }
    );
}

#[test]
fn equals_sign_ends_the_name_of_an_argument() {
    let mut state = at("{{n|k = v", 0);
    parse_template_start(&mut state);
    state.scan_position = 3;
    parse_template_separator(&mut state);
    state.scan_position = 6;
    parse_parameter_name_end(&mut state);
    assert_eq!(state.scan_position, 8);
    assert_eq!(state.flushed_position, 8);
    assert!(state.nodes.is_empty());
    assert_eq!(
        state.stack[0].type_,
        OpenNodeType::Template {
            name: Some(vec![piece(2, 3, "n")]),
            parameters: vec![Parameter {
                start: 4,
                end: 0,
                name: Some(vec![piece(4, 5, "k")]),
                value: vec![],
            }],
        }
    );
}

#[test]
fn equals_sign_in_a_named_argument_is_passed_over() {
    let mut state = at("{{n|k=v=w", 0);
    parse_template_start(&mut state);
    state.scan_position = 3;
    parse_template_separator(&mut state);
    state.scan_position = 5;
    parse_parameter_name_end(&mut state);
    state.scan_position = 7;
    parse_parameter_name_end(&mut state);
    assert_eq!(state.scan_position, 8);
    assert_eq!(state.flushed_position, 6);
    assert!(state.nodes.is_empty());
}

#[test]
fn equals_sign_outside_of_arguments_is_passed_over() {
    let mut state = at("a=b", 1);
    parse_parameter_name_end(&mut state);
    assert_eq!(state.scan_position, 2);
    assert_eq!(state.flushed_position, 0);
    assert!(state.nodes.is_empty());

    let mut state = at("{{a=b", 0);
    parse_template_start(&mut state);
    state.scan_position = 3;
    parse_parameter_name_end(&mut state);
    assert_eq!(state.scan_position, 4);
    assert_eq!(
        state.stack[0].type_,
        OpenNodeType::Template { name: None, parameters: vec![] }
    );

    let mut state = at("{{{a=b", 0);
    parse_template_start(&mut state);
    state.scan_position = 4;
    parse_parameter_name_end(&mut state);
    assert_eq!(state.scan_position, 5);
    assert_eq!(
        state.stack[0].type_,
        OpenNodeType::Parameter { name: None, default: None }
    );
}

#[test]
fn first_separator_ends_the_name_of_the_parameter() {
    let mut state = at("{{{n |d", 0);
    parse_template_start(&mut state);
    state.scan_position = 5;
    parse_parameter_separator(&mut state);
    assert_eq!(state.scan_position, 6);
    assert_eq!(state.flushed_position, 6);
    assert!(state.warnings.is_empty());
    assert_eq!(
        state.stack[0].type_,
        OpenNodeType::Parameter { name: Some(vec![piece(3, 4, "n")]), default: None }
    );
}

#[test]
fn second_separator_ends_a_default_and_is_reported() {
    let mut state = at("{{{n|d |e", 0);
    parse_template_start(&mut state);
    state.scan_position = 4;
    parse_parameter_separator(&mut state);
    state.scan_position = 7;
    parse_parameter_separator(&mut state);
    assert_eq!(state.scan_position, 8);
    assert_eq!(
        state.warnings,
        vec![Warning { start: 7, end: 8, message: WarningMessage::UselessTextInParameter }]
    );
    assert_eq!(
        state.stack[0].type_,
        OpenNodeType::Parameter {
            name: Some(vec![piece(3, 4, "n")]),
            default: Some(vec![piece(5, 7, "d ")]),
        }
    );
}

#[test]
fn three_braces_close_a_parameter_without_default() {
    let mut state = at("x{{{ n }}}", 1);
    parse_template_start(&mut state);
    state.scan_position = 7;
    parse_template_end(&mut state);
    assert_eq!(state.scan_position, 10);
    assert_eq!(state.flushed_position, 10);
    assert!(state.stack.is_empty());
    assert!(state.warnings.is_empty());
    assert_eq!(
        state.nodes,
        vec![
            piece(0, 1, "x"),
            Node::Parameter { start: 1, end: 10, name: vec![piece(5, 6, "n")], default: None },
        ]
    );
}

#[test]
fn three_braces_close_a_parameter_with_default() {
    let mut state = at("{{{n|d }}}", 0);
    parse_template_start(&mut state);
    state.scan_position = 4;
    parse_parameter_separator(&mut state);
    state.scan_position = 7;
    parse_template_end(&mut state);
    assert_eq!(state.scan_position, 10);
    assert_eq!(
        state.nodes,
        vec![Node::Parameter {
            start: 0,
            end: 10,
            name: vec![piece(3, 4, "n")],
            default: Some(vec![piece(5, 7, "d ")]),
        }]
    );
}

#[test]
fn two_braces_give_up_a_parameter() {
    let mut state = at("x{{{n}}y", 1);
    parse_template_start(&mut state);
    state.scan_position = 5;
    parse_template_end(&mut state);
    assert_eq!(state.scan_position, 1);
    assert_eq!(state.flushed_position, 1);
    assert!(state.stack.is_empty());
    assert_eq!(state.nodes, vec![piece(0, 1, "x")]);
    assert_eq!(
        state.warnings,
        vec![Warning { start: 5, end: 7, message: WarningMessage::UnexpectedEndTagRewinding }]
    );
}

#[test]
fn two_braces_close_a_template_without_arguments() {
    let mut state = at("{{ n }}", 0);
    parse_template_start(&mut state);
    state.scan_position = 5;
    parse_template_end(&mut state);
    assert_eq!(state.scan_position, 7);
    assert_eq!(state.flushed_position, 7);
    assert!(state.stack.is_empty());
    assert_eq!(
        state.nodes,
        vec![Node::Template {
            start: 0,
            end: 7,
            name: vec![piece(3, 4, "n")],
            parameters: vec![],
        }]
    );
}

#[test]
fn two_braces_close_a_template_with_arguments() {
    let mut state = at("{{n|a }}", 0);
    parse_template_start(&mut state);
    state.scan_position = 3;
    parse_template_separator(&mut state);
    state.scan_position = 6;
    parse_template_end(&mut state);
    assert_eq!(state.scan_position, 8);
    assert_eq!(
        state.nodes,
        vec![Node::Template {
            start: 0,
            end: 8,
            name: vec![piece(2, 3, "n")],
            parameters: vec![Parameter {
                start: 4,
                end: 5,
                name: None,
                value: vec![piece(4, 5, "a")],
            }],
        }]
    );
}

#[test]
fn braces_with_nothing_open_are_reported() {
    let mut state = at("a}}", 1);
    parse_template_end(&mut state);
    assert_eq!(state.scan_position, 3);
    assert_eq!(state.flushed_position, 0);
    assert!(state.nodes.is_empty());
    assert_eq!(
        state.warnings,
        vec![Warning { start: 1, end: 3, message: WarningMessage::UnexpectedEndTag }]
    );
}

#[test]
fn braces_in_a_link_are_reported() {
    let mut state = at("[[a|b}}", 0);
    parse_link_start(&mut state, &wiki());
    state.scan_position = 5;
    parse_template_end(&mut state);
    assert_eq!(state.scan_position, 7);
    assert_eq!(state.stack.len(), 1);
    assert_eq!(
        state.warnings,
        vec![Warning { start: 5, end: 7, message: WarningMessage::UnexpectedEndTag }]
    );
}

#[test]
fn braces_in_a_link_in_a_template_belong_to_the_template() {
    let mut state = at("{{[[a|b}}", 0);
    parse_template_start(&mut state);
    parse_link_start(&mut state, &wiki());
    state.scan_position = 7;
    parse_template_end(&mut state);
    assert_eq!(state.scan_position, 9);
    assert_eq!(state.stack.len(), 2);
    assert_eq!(
        state.warnings,
        vec![Warning { start: 7, end: 9, message: WarningMessage::UnexpectedEndTagRewinding }]
    );
}

#[test]
fn two_braces_in_a_link_in_a_parameter_belong_to_nothing() {
    let mut state = at("{{{[[a|b}}", 0);
    parse_template_start(&mut state);
    parse_link_start(&mut state, &wiki());
    state.scan_position = 8;
    parse_template_end(&mut state);
    assert_eq!(state.scan_position, 10);
    assert_eq!(
        state.warnings,
        vec![Warning { start: 8, end: 10, message: WarningMessage::UnexpectedEndTag }]
    );
}

#[test]
fn three_braces_in_a_link_in_a_parameter_belong_to_the_parameter() {
    let mut state = at("{{{[[a|b}}}", 0);
    parse_template_start(&mut state);
    parse_link_start(&mut state, &wiki());
    state.scan_position = 8;
    parse_template_end(&mut state);
    assert_eq!(state.scan_position, 10);
    assert_eq!(
        state.warnings,
        vec![Warning { start: 8, end: 10, message: WarningMessage::UnexpectedEndTagRewinding }]
    );
}

#[test]
fn invalid_link_moves_on_by_one_byte() {
    let mut state = at("a[[b", 1);
    parse_unexpected_end(&mut state, 4);
    assert_eq!(state.scan_position, 2);
    assert_eq!(state.flushed_position, 0);
    assert!(state.nodes.is_empty());
    assert_eq!(
        state.warnings,
        vec![Warning { start: 1, end: 4, message: WarningMessage::InvalidLinkSyntax }]
    );
}

#[test]
fn link_start_opens_a_link_with_text() {
    let mut state = at("x[[ a b |c]]", 1);
    parse_link_start(&mut state, &wiki());
    assert_eq!(state.scan_position, 9);
    assert_eq!(state.flushed_position, 9);
    assert!(state.nodes.is_empty());
    assert_eq!(
        state.stack,
        vec![OpenNode {
            start: 1,
            nodes: vec![piece(0, 1, "x")],
            type_: OpenNodeType::Link { namespace: None, should_reparse: false, target: "a b " },
        }]
    );
}

#[test]
fn link_start_finds_the_namespace() {
    let mut state = at("[[File: a{{b}}|c]]", 0);
    parse_link_start(&mut state, &wiki());
    assert_eq!(state.scan_position, 15);
    assert_eq!(
        state.stack[0].type_,
        OpenNodeType::Link {
            namespace: Some(Namespace::File),
            should_reparse: true,
            target: "a{{b}}",
        }
    );
}

#[test]
fn brackets_outside_of_braces_end_the_target() {
    let mut state = at("[[a{{{b|]]}}}c|d]]", 0);
    parse_link_start(&mut state, &wiki());
    assert_eq!(state.scan_position, 15);
    assert_eq!(
        state.stack[0].type_,
        OpenNodeType::Link { namespace: None, should_reparse: true, target: "a{{{b|]]}}}c" }
    );
}

#[test]
fn single_opening_brace_in_target_is_passed_over() {
    let mut state = at("[[a{b|c]]", 0);
    parse_link_start(&mut state, &wiki());
    assert_eq!(state.scan_position, 6);
    assert_eq!(state.flushed_position, 6);
    assert!(state.warnings.is_empty());
    assert!(state.nodes.is_empty());
    assert_eq!(
        state.stack,
        vec![OpenNode {
            start: 0,
            nodes: vec![],
            type_: OpenNodeType::Link { namespace: None, should_reparse: false, target: "a{b" },
        }]
    );
}

#[test]
fn single_closing_brace_in_target_is_passed_over() {
    let mut state = at("[[a}b]]", 0);
    parse_link_start(&mut state, &wiki());
    assert_eq!(state.scan_position, 7);
    assert!(state.warnings.is_empty());
    assert!(state.stack.is_empty());
    assert_eq!(
        state.nodes,
        vec![Node::Link {
            start: 0,
            end: 7,
            target: "a}b",
            text: vec![piece(2, 5, "a}b")],
            reparsed: false,
        }]
    );
}

#[test]
fn single_braces_in_braces_in_target_are_passed_over() {
    let mut state = at("[[{{a{b}c}}|d]]", 0);
    parse_link_start(&mut state, &wiki());
    assert_eq!(state.scan_position, 12);
    assert!(state.warnings.is_empty());
    assert_eq!(
        state.stack[0].type_,
        OpenNodeType::Link { namespace: None, should_reparse: true, target: "{{a{b}c}}" }
    );
}

#[test]
fn single_brace_at_the_end_of_the_text_is_passed_over() {
    let mut state = at("[[a{", 0);
    parse_link_start(&mut state, &wiki());
    assert_eq!(state.scan_position, 1);
    assert_eq!(
        state.warnings,
        vec![Warning { start: 0, end: 4, message: WarningMessage::InvalidLinkSyntax }]
    );
}

#[test]
fn shown_text_is_the_parsed_target_or_the_literal() {
    let parsed = vec![piece(2, 3, "a"), piece(3, 4, "b")];
    assert_eq!(
        literal_or_reparsed(Some(parsed), piece(2, 4, "ab")),
        vec![piece(2, 3, "a"), piece(3, 4, "b")]
    );
    assert_eq!(literal_or_reparsed(Some(vec![]), piece(2, 4, "ab")), vec![]);
    assert_eq!(literal_or_reparsed(None, piece(2, 4, "ab")), vec![piece(2, 4, "ab")]);
}

#[test]
fn closing_braces_for_the_other_kind_are_invalid() {
    let mut state = at("[[{{a}}}]]", 0);
    parse_link_start(&mut state, &wiki());
    assert_eq!(state.scan_position, 1);
    assert_eq!(
        state.warnings,
        vec![Warning { start: 0, end: 8, message: WarningMessage::InvalidLinkSyntax }]
    );

    let mut state = at("[[{{{a}}b]]", 0);
    parse_link_start(&mut state, &wiki());
    assert_eq!(
        state.warnings,
        vec![Warning { start: 0, end: 8, message: WarningMessage::InvalidLinkSyntax }]
    );
}

#[test]
fn unterminated_target_is_invalid() {
    let mut state = at("[[abc", 0);
    parse_link_start(&mut state, &wiki());
    assert_eq!(state.scan_position, 1);
    assert_eq!(
        state.warnings,
        vec![Warning { start: 0, end: 5, message: WarningMessage::InvalidLinkSyntax }]
    );
}

#[test]
fn link_start_in_a_link_gives_up_the_outer_link() {
    let mut state = at("x[[a|b[[c]]", 1);
    parse_link_start(&mut state, &wiki());
    state.scan_position = 7;
    parse_link_start(&mut state, &wiki());
    assert_eq!(state.scan_position, 1);
    assert_eq!(state.flushed_position, 1);
    assert!(state.stack.is_empty());
    assert_eq!(state.nodes, vec![piece(0, 1, "x")]);
    assert_eq!(
        state.warnings,
        vec![Warning { start: 1, end: 7, message: WarningMessage::InvalidLinkSyntax }]
    );
}

#[test]
fn link_start_in_a_link_to_a_file_makes_a_link() {
    let mut state = at("[[File:a|[[b]]", 0);
    parse_link_start(&mut state, &wiki());
    parse_link_start(&mut state, &wiki());
    assert_eq!(state.scan_position, 14);
    assert_eq!(state.stack.len(), 1);
    assert_eq!(
        state.nodes,
        vec![Node::Link {
            start: 9,
            end: 14,
            target: "b",
            text: vec![piece(11, 12, "b")],
            reparsed: false,
        }]
    );
}

#[test]
fn link_start_makes_a_link_without_text() {
    let mut state = at("a [[b ]]st.", 2);
    parse_link_start(&mut state, &wiki());
    assert_eq!(state.scan_position, 10);
    assert_eq!(state.flushed_position, 10);
    assert!(state.stack.is_empty());
    assert_eq!(
        state.nodes,
        vec![
            piece(0, 2, "a "),
            Node::Link {
                start: 2,
                end: 10,
                target: "b",
                text: vec![piece(4, 6, "b "), piece(8, 10, "st")],
                reparsed: false,
            },
        ]
    );
}

#[test]
fn link_without_text_shows_its_parsed_target_and_its_trail() {
    let mut state = at("[[a{{b}}]]s", 0);
    parse_link_start(&mut state, &wiki());
    assert_eq!(state.scan_position, 11);
    assert_eq!(
        state.nodes,
        vec![Node::Link {
            start: 0,
            end: 11,
            target: "a{{b}}",
            text: vec![
                piece(2, 3, "a"),
                Node::Template {
                    start: 3,
                    end: 8,
                    name: vec![piece(5, 6, "b")],
                    parameters: vec![],
                },
                piece(10, 11, "s"),
            ],
            reparsed: true,
        }]
    );
}

#[test]
fn target_end_without_second_bracket_is_invalid() {
    let mut state = at("[[a]b", 0);
    parse_end(&mut state, &wiki(), 2, 3, None, false);
    assert_eq!(state.scan_position, 1);
    assert!(state.nodes.is_empty());
    assert_eq!(
        state.warnings,
        vec![Warning { start: 0, end: 3, message: WarningMessage::InvalidLinkSyntax }]
    );
}

#[test]
fn target_end_makes_a_category() {
    let mut state = at("x[[Category:a ]]s", 1);
    parse_end(&mut state, &wiki(), 12, 14, Some(Namespace::Category), false);
    assert_eq!(state.scan_position, 16);
    assert_eq!(state.flushed_position, 16);
    assert_eq!(
        state.nodes,
        vec![
            piece(0, 1, "x"),
            Node::Category { start: 1, end: 16, target: "a", ordinal: vec![] },
        ]
    );
}

#[test]
fn target_end_makes_an_image() {
    let mut state = at("[[File:a]]s", 0);
    parse_end(&mut state, &wiki(), 7, 8, Some(Namespace::File), true);
    assert_eq!(state.scan_position, 10);
    assert_eq!(state.nodes, vec![Node::Image { start: 0, end: 10, target: "a", text: vec![] }]);
}

#[test]
fn target_end_of_empty_target() {
    let mut state = at("[[]]", 0);
    parse_end(&mut state, &wiki(), 2, 2, None, false);
    assert_eq!(state.scan_position, 4);
    assert_eq!(
        state.nodes,
        vec![Node::Link {
            start: 0,
            end: 4,
            target: "",
            text: vec![piece(2, 2, "")],
            reparsed: false,
        }]
    );
}

#[test]
fn link_end_makes_a_link_with_its_trail() {
    let mut state = at("[[a |b ]]st.", 7);
    state.flushed_position = 5;
    parse_link_end(&mut state, &wiki(), 0, vec![], None, "a ", false);
    assert_eq!(state.scan_position, 11);
    assert_eq!(state.flushed_position, 11);
    assert_eq!(
        state.nodes,
        vec![Node::Link {
            start: 0,
            end: 11,
            target: "a",
            text: vec![piece(5, 6, "b"), piece(9, 11, "st")],
            reparsed: false,
        }]
    );
}

#[test]
fn link_end_keeps_the_nodes_around_the_link() {
    let mut state = at("x[[a|b]].", 6);
    state.flushed_position = 5;
    parse_link_end(&mut state, &wiki(), 1, vec![piece(0, 1, "x")], None, "a", true);
    assert_eq!(state.scan_position, 8);
    assert_eq!(
        state.nodes,
        vec![
            piece(0, 1, "x"),
            Node::Link {
                start: 1,
                end: 8,
                target: "a",
                text: vec![piece(5, 6, "b")],
                reparsed: true,
            },
        ]
    );
}

#[test]
fn link_end_makes_a_category_without_trail() {
    let mut state = at("[[Category:a|b]]s", 14);
    state.flushed_position = 13;
    parse_link_end(&mut state, &wiki(), 0, vec![], Some(Namespace::Category), "a", false);
    assert_eq!(state.scan_position, 16);
    assert_eq!(state.flushed_position, 16);
    assert_eq!(
        state.nodes,
        vec![Node::Category {
            start: 0,
            end: 16,
            target: "a",
            ordinal: vec![piece(13, 14, "b")],
        }]
    );
}

#[test]
fn link_end_makes_an_image_without_trail() {
    let mut state = at("[[File:a|b]]s", 10);
    state.flushed_position = 9;
    parse_link_end(&mut state, &wiki(), 0, vec![], Some(Namespace::File), "a", false);
    assert_eq!(state.scan_position, 12);
    assert_eq!(
        state.nodes,
        vec![Node::Image { start: 0, end: 12, target: "a", text: vec![piece(9, 10, "b")] }]
    );
}

fn has_white_space_property(character: char) -> bool {
    matches!(
        character as u32,
        0x09..=0x0d
            | 0x20
            | 0x85
            | 0xa0
            | 0x1680
            | 0x2000..=0x200a
            | 0x2028
            | 0x2029
            | 0x202f
            | 0x205f
            | 0x3000
    )
}

#[test]
fn target_loses_every_trailing_white_space_character_and_no_other() {
    for code in 0..=0x10ffff_u32 {
        let character = match char::from_u32(code) {
            Some(character) => character,
            None => continue,
        };
        let target = format!("a{}", character);
        let mut state = at("[[x|y]]", 5);
        state.flushed_position = 4;
        parse_link_end(&mut state, &wiki(), 0, vec![], Some(Namespace::File), &target, false);
        let expected = if has_white_space_property(character) { "a" } else { target.as_str() };
        match &state.nodes[0] {
            Node::Image { target, .. } => assert_eq!(*target, expected, "{:x}", code),
            other => panic!("unexpected node {:?}", other),
        }
    }
}

#[test]
fn target_loses_all_of_its_trailing_white_space() {
    let mut state = at("[[x|y]]", 5);
    state.flushed_position = 4;
    parse_link_end(
        &mut state,
        &wiki(),
        0,
        vec![],
        None,
        " a \u{3000}b\u{85}\u{2028} \t\u{a0}",
        false,
    );
    match &state.nodes[0] {
        Node::Link { target, .. } => assert_eq!(*target, " a \u{3000}b"),
        other => panic!("unexpected node {:?}", other),
    }
}
