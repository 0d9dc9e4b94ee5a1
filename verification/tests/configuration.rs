use parse_wiki_text::configuration::{Configuration, NamespaceName};
use parse_wiki_text::link::link_trail_end;
use parse_wiki_text::node::Namespace;

fn name(name: &str, namespace: Namespace) -> NamespaceName {
    NamespaceName { name: String::from(name), namespace }
}

fn configuration() -> Configuration {
    Configuration::new(
        vec![
            name("Category", Namespace::Category),
            name("File", Namespace::File),
            name("Fil", Namespace::Category),
            name("FILE", Namespace::Category),
            name("Cat\u{e9}gorie", Namespace::Category),
        ],
        "ab\u{e9}\u{4e2d}\u{1f600}",
    )
}

#[test]
fn namespace_is_found() {
    assert_eq!(configuration().find_namespace("Category:Foo"), Ok((9, Namespace::Category)));
    assert_eq!(configuration().find_namespace("File:a.png"), Ok((5, Namespace::File)));
}

#[test]
fn namespace_is_found_in_any_case() {
    assert_eq!(configuration().find_namespace("cATEGORY:Foo"), Ok((9, Namespace::Category)));
    assert_eq!(configuration().find_namespace("file:x"), Ok((5, Namespace::File)));
}

#[test]
fn case_of_other_letters_matters() {
    assert_eq!(
        configuration().find_namespace("cat\u{e9}gorie:x"),
        Ok((11, Namespace::Category))
    );
    assert_eq!(configuration().find_namespace("Cat\u{c9}gorie:x"), Err(0));
}

#[test]
fn blanks_after_the_colon_belong_to_the_prefix() {
    assert_eq!(configuration().find_namespace("File: \t a"), Ok((8, Namespace::File)));
    assert_eq!(configuration().find_namespace("File:\na"), Ok((5, Namespace::File)));
    assert_eq!(configuration().find_namespace("File:"), Ok((5, Namespace::File)));
}

#[test]
fn longest_name_decides_and_then_the_first() {
    assert_eq!(configuration().find_namespace("Fil:x"), Ok((4, Namespace::Category)));
    assert_eq!(configuration().find_namespace("FILE:x"), Ok((5, Namespace::File)));
}

#[test]
fn nothing_is_taken_without_a_match() {
    assert_eq!(configuration().find_namespace("Foo"), Err(0));
    assert_eq!(configuration().find_namespace("Category"), Err(0));
    assert_eq!(configuration().find_namespace("Category :x"), Err(0));
    assert_eq!(configuration().find_namespace(" Category:x"), Err(0));
    assert_eq!(configuration().find_namespace(""), Err(0));
    assert_eq!(configuration().find_namespace(":x"), Err(0));
}

#[test]
fn nothing_matches_without_names() {
    let configuration = Configuration::new(vec![], "");
    assert_eq!(configuration.find_namespace("Category:Foo"), Err(0));
    assert!(!configuration.is_link_trail('a'));
}

#[test]
fn trail_characters_are_those_of_the_set() {
    assert!(configuration().is_link_trail('a'));
    assert!(configuration().is_link_trail('\u{e9}'));
    assert!(!configuration().is_link_trail('c'));
    assert!(!configuration().is_link_trail('A'));
    assert!(!configuration().is_link_trail('e'));
}

#[test]
fn trail_ends_at_the_first_other_character() {
    assert_eq!(link_trail_end("xxabac", &configuration(), 2), 5);
    assert_eq!(link_trail_end("xxabac", &configuration(), 5), 5);
    assert_eq!(link_trail_end("xxab", &configuration(), 2), 4);
    assert_eq!(link_trail_end("xxab", &configuration(), 4), 4);
}

#[test]
fn trail_counts_the_bytes_of_each_character() {
    assert_eq!(link_trail_end("a\u{e9}c", &configuration(), 0), 3);
    assert_eq!(link_trail_end("\u{4e2d}c", &configuration(), 0), 3);
    assert_eq!(link_trail_end("\u{1f600}c", &configuration(), 0), 4);
    assert_eq!(link_trail_end("\u{e9}\u{4e2d}\u{1f600}a\u{e8}", &configuration(), 0), 10);
}

#[test]
fn trail_counts_the_bytes_of_every_character() {
    for code in 0..=0x10ffff_u32 {
        let character = match char::from_u32(code) {
            Some(character) => character,
            None => continue,
        };
        let configuration = Configuration::new(vec![], character.encode_utf8(&mut [0; 4]));
        let mut text = String::from("[");
        text.push(character);
        text.push(character);
        text.push(']');
        let width = if code < 0x80 {
            1
        } else if code < 0x800 {
            2
        } else if code < 0x10000 {
            3
        } else {
            4
        };
        let expected = if character == ']' { 4 } else { 1 + 2 * width };
        assert_eq!(link_trail_end(&text, &configuration, 1), expected, "{:x}", code);
    }
}

#[test]
fn new_configuration_holds_the_characters_of_the_trail() {
    let configuration = Configuration::new(vec![name("File", Namespace::File)], "ab\u{e9}a");
    assert_eq!(configuration.namespaces.len(), 1);
    assert_eq!(configuration.link_trail_character_set.len(), 3);
    assert!(configuration.link_trail_character_set.contains(&0x61));
    assert!(configuration.link_trail_character_set.contains(&0x62));
    assert!(configuration.link_trail_character_set.contains(&0xe9));
    assert!(configuration.is_link_trail('a'));
    assert!(configuration.is_link_trail('\u{e9}'));
    assert!(!configuration.is_link_trail('c'));
}

#[test]
fn configuration_is_built_from_its_fields() {
    let configuration = Configuration {
        namespaces: vec![],
        link_trail_character_set: [0x73, 0x1f600].into_iter().collect(),
    };
    assert!(configuration.is_link_trail('s'));
    assert!(configuration.is_link_trail('\u{1f600}'));
    assert!(!configuration.is_link_trail('t'));
    assert_eq!(link_trail_end("s\u{1f600}st", &configuration, 0), 6);
}
