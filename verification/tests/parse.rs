use parse_wiki_text::configuration::{Configuration, NamespaceName};
use parse_wiki_text::node::{Namespace, Node, Parameter, Warning, WarningMessage};
use parse_wiki_text::parse::parse;

fn configuration() -> Configuration {
    Configuration::new(
        vec![
            NamespaceName { name: String::from("Category"), namespace: Namespace::Category },
            NamespaceName { name: String::from("File"), namespace: Namespace::File },
            NamespaceName { name: String::from("Image"), namespace: Namespace::File },
        ],
        "abcdefghijklmnopqrstuvwxyz",
    )
}

fn text(start: usize, end: usize, value: &str) -> Node<'_> {
    Node::Text { start, end, value }
}

#[test]
fn plain_text_is_one_text_node() {
    let output = parse(&configuration(), "hello world");
    assert_eq!(output.nodes, vec![text(0, 11, "hello world")]);
    assert!(output.warnings.is_empty());
}

#[test]
fn empty_text_has_no_nodes() {
    let output = parse(&configuration(), "");
    assert!(output.nodes.is_empty());
    assert!(output.warnings.is_empty());
}

#[test]
fn link_with_text_round_trip() {
    let output = parse(&configuration(), "[[Target|Display]]");
    assert_eq!(
        output.nodes,
        vec![Node::Link {
            start: 0,
            end: 18,
            target: "Target",
            text: vec![text(9, 16, "Display")],
            reparsed: false,
        }]
    );
    assert!(output.warnings.is_empty());
}

#[test]
fn category_link() {
    let output = parse(&configuration(), "[[Category:Foo]]");
    assert_eq!(
        output.nodes,
        vec![Node::Category { start: 0, end: 16, target: "Foo", ordinal: vec![] }]
    );
    assert!(output.warnings.is_empty());
}

#[test]
fn five_braces_nest_a_parameter_in_a_template() {
    let output = parse(&configuration(), "{{{{{X}}}}}");
    assert_eq!(
        output.nodes,
        vec![Node::Template {
            start: 0,
            end: 11,
            name: vec![Node::Parameter {
                start: 2,
                end: 9,
                name: vec![text(5, 6, "X")],
                default: None,
            }],
            parameters: vec![],
        }]
    );
    assert!(output.warnings.is_empty());
}

#[test]
fn template_in_target_of_link_with_text() {
    let output = parse(&configuration(), "[[{{T}}|x]]");
    assert_eq!(
        output.nodes,
        vec![Node::Link {
            start: 0,
            end: 11,
            target: "{{T}}",
            text: vec![text(8, 9, "x")],
            reparsed: true,
        }]
    );
    assert!(output.warnings.is_empty());
}

#[test]
fn template_in_target_of_link_without_text() {
    let output = parse(&configuration(), "[[{{T}}]]");
    assert_eq!(
        output.nodes,
        vec![Node::Link {
            start: 0,
            end: 9,
            target: "{{T}}",
            text: vec![Node::Template {
                start: 2,
                end: 7,
                name: vec![text(4, 5, "T")],
                parameters: vec![],
            }],
            reparsed: true,
        }]
    );
    assert!(output.warnings.is_empty());
}

#[test]
fn unterminated_braces_become_text() {
    let input = "{{{{{{X";
    let output = parse(&configuration(), input);
    assert!(!output.warnings.is_empty());
    let mut position = 0;
    for node in &output.nodes {
        match node {
            Node::Text { start, end, value } => {
                assert_eq!(*start, position);
                assert!(*end <= input.len());
                assert_eq!(*value, &input[*start..*end]);
                position = *end;
            }
            other => panic!("unexpected node {:?}", other),
        }
    }
    assert_eq!(position, input.len());
    for warning in &output.warnings {
        assert_eq!(warning.message, WarningMessage::MissingEndTagRewinding);
        assert!(warning.end <= input.len());
    }
}

#[test]
fn parameter_closed_by_two_braces_is_given_up() {
    let output = parse(&configuration(), "{{{X}}");
    assert_eq!(
        output.warnings,
        vec![Warning { start: 4, end: 6, message: WarningMessage::UnexpectedEndTagRewinding }]
    );
    assert_eq!(
        output.nodes,
        vec![
            text(0, 1, "{"),
            Node::Template { start: 1, end: 6, name: vec![text(3, 4, "X")], parameters: vec![] },
        ]
    );
}

#[test]
fn template_with_arguments() {
    let output = parse(&configuration(), "{{ name | first | key = value }}");
    assert_eq!(
        output.nodes,
        vec![Node::Template {
            start: 0,
            end: 32,
            name: vec![text(3, 7, "name")],
            parameters: vec![
                Parameter { start: 10, end: 15, name: None, value: vec![text(10, 15, "first")] },
                Parameter {
                    start: 18,
                    end: 29,
                    name: Some(vec![text(18, 21, "key")]),
                    value: vec![text(24, 29, "value")],
                },
            ],
        }]
    );
    assert!(output.warnings.is_empty());
}

#[test]
fn second_equals_sign_is_text() {
    let output = parse(&configuration(), "{{t|a=b=c}}");
    assert_eq!(
        output.nodes,
        vec![Node::Template {
            start: 0,
            end: 11,
            name: vec![text(2, 3, "t")],
            parameters: vec![Parameter {
                start: 4,
                end: 9,
                name: Some(vec![text(4, 5, "a")]),
                value: vec![text(6, 9, "b=c")],
            }],
        }]
    );
}

#[test]
fn parameter_with_default() {
    let output = parse(&configuration(), "{{{name|default}}}");
    assert_eq!(
        output.nodes,
        vec![Node::Parameter {
            start: 0,
            end: 18,
            name: vec![text(3, 7, "name")],
            default: Some(vec![text(8, 15, "default")]),
        }]
    );
    assert!(output.warnings.is_empty());
}

#[test]
fn second_default_of_parameter_is_useless() {
    let output = parse(&configuration(), "{{{a|b|c}}}");
    assert_eq!(
        output.warnings,
        vec![Warning { start: 6, end: 7, message: WarningMessage::UselessTextInParameter }]
    );
    assert_eq!(
        output.nodes,
        vec![Node::Parameter {
            start: 0,
            end: 11,
            name: vec![text(3, 4, "a")],
            default: Some(vec![text(5, 6, "b")]),
        }]
    );
}

#[test]
fn link_takes_in_its_trail() {
    let output = parse(&configuration(), "[[apple]]s and");
    assert_eq!(
        output.nodes,
        vec![
            Node::Link {
                start: 0,
                end: 10,
                target: "apple",
                text: vec![text(2, 7, "apple"), text(9, 10, "s")],
                reparsed: false,
            },
            text(10, 14, " and"),
        ]
    );
}

#[test]
fn link_with_text_takes_in_its_trail() {
    let output = parse(&configuration(), "[[a|b]]cd!");
    assert_eq!(
        output.nodes,
        vec![
            Node::Link {
                start: 0,
                end: 9,
                target: "a",
                text: vec![text(4, 5, "b"), text(7, 9, "cd")],
                reparsed: false,
            },
            text(9, 10, "!"),
        ]
    );
}

#[test]
fn trail_stops_at_a_character_outside_the_set() {
    let output = parse(&configuration(), "[[a]]b\u{e9}c");
    assert_eq!(
        output.nodes,
        vec![
            Node::Link {
                start: 0,
                end: 6,
                target: "a",
                text: vec![text(2, 3, "a"), text(5, 6, "b")],
                reparsed: false,
            },
            text(6, 9, "\u{e9}c"),
        ]
    );
}

#[test]
fn trail_of_wide_characters() {
    let configuration = Configuration::new(vec![], "\u{e9}x");
    let output = parse(&configuration, "[[a]]\u{e9}x\u{e9}y");
    assert_eq!(
        output.nodes,
        vec![
            Node::Link {
                start: 0,
                end: 10,
                target: "a",
                text: vec![text(2, 3, "a"), text(5, 10, "\u{e9}x\u{e9}")],
                reparsed: false,
            },
            text(10, 11, "y"),
        ]
    );
}

#[test]
fn image_with_caption() {
    let output = parse(&configuration(), "[[File:a.png|caption ]]x");
    assert_eq!(
        output.nodes,
        vec![
            Node::Image {
                start: 0,
                end: 23,
                target: "a.png",
                text: vec![text(13, 20, "caption")],
            },
            text(23, 24, "x"),
        ]
    );
}

#[test]
fn image_without_caption() {
    let output = parse(&configuration(), "[[ file: a.png ]]");
    assert_eq!(
        output.nodes,
        vec![Node::Image { start: 0, end: 17, target: "a.png", text: vec![] }]
    );
}

#[test]
fn category_with_sort_key() {
    let output = parse(&configuration(), "[[category:Foo|bar]]");
    assert_eq!(
        output.nodes,
        vec![Node::Category {
            start: 0,
            end: 20,
            target: "Foo",
            ordinal: vec![text(15, 18, "bar")],
        }]
    );
}

#[test]
fn target_is_trimmed() {
    let output = parse(&configuration(), "[[  a b\u{a0} ]]");
    assert_eq!(
        output.nodes,
        vec![Node::Link {
            start: 0,
            end: 12,
            target: "a b",
            text: vec![text(4, 10, "a b\u{a0} ")],
            reparsed: false,
        }]
    );
}

#[test]
fn line_break_in_target_is_invalid() {
    let output = parse(&configuration(), "[[a\nb]]");
    assert_eq!(
        output.warnings,
        vec![Warning { start: 0, end: 3, message: WarningMessage::InvalidLinkSyntax }]
    );
    assert_eq!(output.nodes, vec![text(0, 7, "[[a\nb]]")]);
}

#[test]
fn single_closing_bracket_is_invalid() {
    let output = parse(&configuration(), "[[a]b");
    assert_eq!(
        output.warnings,
        vec![Warning { start: 0, end: 3, message: WarningMessage::InvalidLinkSyntax }]
    );
    assert_eq!(output.nodes, vec![text(0, 5, "[[a]b")]);
}

#[test]
fn bracket_in_target_is_invalid() {
    let output = parse(&configuration(), "[[a[b]]");
    assert_eq!(
        output.warnings,
        vec![Warning { start: 0, end: 3, message: WarningMessage::InvalidLinkSyntax }]
    );
    assert_eq!(output.nodes, vec![text(0, 7, "[[a[b]]")]);
}

#[test]
fn closing_braces_without_opening_ones_in_target_are_invalid() {
    let output = parse(&configuration(), "[[a}}b]]");
    assert_eq!(output.warnings[0], Warning {
        start: 0,
        end: 5,
        message: WarningMessage::InvalidLinkSyntax,
    });
    assert_eq!(output.warnings[1], Warning {
        start: 3,
        end: 5,
        message: WarningMessage::UnexpectedEndTag,
    });
    assert_eq!(output.nodes, vec![text(0, 8, "[[a}}b]]")]);
}

#[test]
fn link_in_link_gives_up_the_outer_link() {
    let output = parse(&configuration(), "[[a|b[[c]]");
    assert_eq!(
        output.warnings,
        vec![Warning { start: 0, end: 5, message: WarningMessage::InvalidLinkSyntax }]
    );
    assert_eq!(
        output.nodes,
        vec![
            text(0, 5, "[[a|b"),
            Node::Link {
                start: 5,
                end: 10,
                target: "c",
                text: vec![text(7, 8, "c")],
                reparsed: false,
            },
        ]
    );
}

#[test]
fn link_in_caption_of_image() {
    let output = parse(&configuration(), "[[File:a|see [[b]]]]");
    assert_eq!(
        output.nodes,
        vec![Node::Image {
            start: 0,
            end: 20,
            target: "a",
            text: vec![
                text(9, 13, "see "),
                Node::Link {
                    start: 13,
                    end: 18,
                    target: "b",
                    text: vec![text(15, 16, "b")],
                    reparsed: false,
                },
            ],
        }]
    );
    assert!(output.warnings.is_empty());
}

#[test]
fn closing_braces_with_nothing_open() {
    let output = parse(&configuration(), "a}}b");
    assert_eq!(
        output.warnings,
        vec![Warning { start: 1, end: 3, message: WarningMessage::UnexpectedEndTag }]
    );
    assert_eq!(output.nodes, vec![text(0, 4, "a}}b")]);
}

#[test]
fn closing_braces_in_link_inside_template() {
    let output = parse(&configuration(), "{{a|[[b|c}}");
    assert_eq!(
        output.warnings,
        vec![
            Warning { start: 9, end: 11, message: WarningMessage::UnexpectedEndTagRewinding },
            Warning { start: 4, end: 11, message: WarningMessage::MissingEndTagRewinding },
        ]
    );
    assert_eq!(
        output.nodes,
        vec![Node::Template {
            start: 0,
            end: 11,
            name: vec![text(2, 3, "a")],
            parameters: vec![
                Parameter { start: 4, end: 7, name: None, value: vec![text(4, 7, "[[b")] },
                Parameter { start: 8, end: 9, name: None, value: vec![text(8, 9, "c")] },
            ],
        }]
    );
}

#[test]
fn template_in_template() {
    let output = parse(&configuration(), "{{a|{{b}}}}");
    assert_eq!(
        output.nodes,
        vec![Node::Template {
            start: 0,
            end: 11,
            name: vec![text(2, 3, "a")],
            parameters: vec![Parameter {
                start: 4,
                end: 9,
                name: None,
                value: vec![Node::Template {
                    start: 4,
                    end: 9,
                    name: vec![text(6, 7, "b")],
                    parameters: vec![],
                }],
            }],
        }]
    );
}

#[test]
fn nodes_cover_text_around_constructs() {
    let input = "a [[b]] c {{d}} e {{{f}}} g";
    let output = parse(&configuration(), input);
    let mut position = 0;
    for node in &output.nodes {
        let (start, end) = match node {
            Node::Text { start, end, value } => {
                assert_eq!(*value, &input[*start..*end]);
                (*start, *end)
            }
            Node::Link { start, end, .. } => (*start, *end),
            Node::Category { start, end, .. } => (*start, *end),
            Node::Image { start, end, .. } => (*start, *end),
            Node::Template { start, end, .. } => (*start, *end),
            Node::Parameter { start, end, .. } => (*start, *end),
        };
        assert_eq!(start, position);
        position = end;
    }
    assert_eq!(position, input.len());
    assert_eq!(output.nodes.len(), 7);
}

#[test]
fn link_in_template_in_target_is_parsed_again() {
    let output = parse(&configuration(), "[[{{a|[[b{{c}}]]}}]]");
    assert!(output.warnings.is_empty());
    assert_eq!(
        output.nodes,
        vec![Node::Link {
            start: 0,
            end: 20,
            target: "{{a|[[b{{c}}]]}}",
            text: vec![Node::Template {
                start: 2,
                end: 18,
                name: vec![text(4, 5, "a")],
                parameters: vec![Parameter {
                    start: 6,
                    end: 16,
                    name: None,
                    value: vec![Node::Link {
                        start: 6,
                        end: 16,
                        target: "b{{c}}",
                        text: vec![
                            text(8, 9, "b"),
                            Node::Template {
                                start: 9,
                                end: 14,
                                name: vec![text(11, 12, "c")],
                                parameters: vec![],
                            },
                        ],
                        reparsed: true,
                    }],
                }],
            }],
            reparsed: true,
        }]
    );
}

#[test]
fn warnings_of_a_target_parsed_again_are_dropped() {
    let output = parse(&configuration(), "{{a|{{{b|c|d}}}}}");
    assert_eq!(
        output.warnings,
        vec![Warning { start: 10, end: 11, message: WarningMessage::UselessTextInParameter }]
    );
    let output = parse(&configuration(), "[[{{a|{{{b|c|d}}}}}]]");
    assert!(output.warnings.is_empty());
    assert_eq!(output.nodes.len(), 1);
    match &output.nodes[0] {
        Node::Link { start, end, target, text, reparsed } => {
            assert_eq!((*start, *end), (0, 21));
            assert_eq!(*target, "{{a|{{{b|c|d}}}}}");
            assert!(*reparsed);
            assert_eq!(text.len(), 1);
            assert!(matches!(&text[0], Node::Template { start: 2, end: 19, .. }));
        }
        other => panic!("unexpected node {:?}", other),
    }
}

#[test]
fn text_outside_of_ascii() {
    let input = "\u{e9}[[\u{fc}|\u{4e2d} ]]\u{df}{{\u{e4} |\u{1f600}= \u{f6}}}";
    let output = parse(&configuration(), input);
    assert!(output.warnings.is_empty());
    assert_eq!(
        output.nodes,
        vec![
            text(0, 2, "\u{e9}"),
            Node::Link {
                start: 2,
                end: 13,
                target: "\u{fc}",
                text: vec![text(7, 10, "\u{4e2d}")],
                reparsed: false,
            },
            text(13, 15, "\u{df}"),
            Node::Template {
                start: 15,
                end: 31,
                name: vec![text(17, 19, "\u{e4}")],
                parameters: vec![Parameter {
                    start: 21,
                    end: 29,
                    name: Some(vec![text(21, 25, "\u{1f600}")]),
                    value: vec![text(27, 29, "\u{f6}")],
                }],
            },
        ]
    );
}

fn check_sequence(nodes: &[Node], input: &str, low: usize, high: usize) {
    let mut position = low;
    for node in nodes {
        let (start, end) = check_node(node, input);
        assert!(position <= start, "{:?} in {:?}", node, input);
        assert!(end <= high, "{:?} in {:?}", node, input);
        position = end;
    }
}

fn check_node(node: &Node, input: &str) -> (usize, usize) {
    match node {
        Node::Text { start, end, value } => {
            assert!(start <= end && *end <= input.len());
            assert_eq!(*value, &input[*start..*end]);
            (*start, *end)
        }
        Node::Link { start, end, text, .. } => {
            assert!(start <= end && *end <= input.len());
            check_sequence(text, input, *start, *end);
            (*start, *end)
        }
        Node::Category { start, end, ordinal, .. } => {
            assert!(start <= end && *end <= input.len());
            check_sequence(ordinal, input, *start, *end);
            (*start, *end)
        }
        Node::Image { start, end, text, .. } => {
            assert!(start <= end && *end <= input.len());
            check_sequence(text, input, *start, *end);
            (*start, *end)
        }
        Node::Template { start, end, name, parameters } => {
            assert!(start <= end && *end <= input.len());
            check_sequence(name, input, *start, *end);
            for parameter in parameters {
                assert!(*start <= parameter.start && parameter.start <= *end);
                assert!(*start <= parameter.end && parameter.end <= *end);
                if let Some(name) = &parameter.name {
                    check_sequence(name, input, *start, *end);
                }
                check_sequence(&parameter.value, input, *start, *end);
            }
            (*start, *end)
        }
        Node::Parameter { start, end, name, default } => {
            assert!(start <= end && *end <= input.len());
            check_sequence(name, input, *start, *end);
            if let Some(default) = default {
                check_sequence(default, input, *start, *end);
            }
            (*start, *end)
        }
    }
}

fn check_output(input: &str) {
    let output = parse(&configuration(), input);
    let mut position = 0;
    for node in &output.nodes {
        let (start, end) = check_node(node, input);
        assert_eq!(start, position, "{:?} in {:?}", node, input);
        position = end;
    }
    assert_eq!(position, input.len(), "{:?}", input);
    for warning in &output.warnings {
        assert!(warning.start <= warning.end && warning.end <= input.len());
    }
}

#[test]
fn nodes_of_every_short_text_cover_it() {
    let alphabet = ['[', ']', '{', '}', '|', '=', ' ', 'a', '\n'];
    let mut inputs = vec![String::new()];
    for _ in 0..5 {
        let mut longer = Vec::new();
        for input in &inputs {
            for character in alphabet {
                let mut next = input.clone();
                next.push(character);
                longer.push(next);
            }
        }
        for input in &longer {
            check_output(input);
        }
        inputs = longer;
    }
}

#[test]
fn nodes_of_texts_with_links_cover_them() {
    let parts = ["[[", "]]", "{{", "}}", "{{{", "}}}", "|", "=", "File:", "a ", "\u{e9}", "s"];
    let mut inputs = vec![String::new()];
    for _ in 0..4 {
        let mut longer = Vec::new();
        for input in &inputs {
            for part in parts {
                let mut next = input.clone();
                next.push_str(part);
                longer.push(next);
            }
        }
        for input in &longer {
            check_output(input);
        }
        inputs = longer;
    }
}

#[test]
fn many_open_braces_end() {
    let input = "{{".repeat(8);
    check_output(&input);
    let input = "[[a|".repeat(6);
    check_output(&input);
}

#[test]
fn single_brace_in_target_is_text() {
    let output = parse(&configuration(), "[[a{b|c]] [[d}e]]");
    assert!(output.warnings.is_empty());
    assert_eq!(
        output.nodes,
        vec![
            Node::Link {
                start: 0,
                end: 9,
                target: "a{b",
                text: vec![text(6, 7, "c")],
                reparsed: false,
            },
            text(9, 10, " "),
            Node::Link {
                start: 10,
                end: 17,
                target: "d}e",
                text: vec![text(12, 15, "d}e")],
                reparsed: false,
            },
        ]
    );
}
