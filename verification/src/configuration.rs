//! What the parser is told about the wiki: the names of its namespaces and
//! the characters that may trail a link.
use crate::node::Namespace;
use crate::text::{
    boundary, lemma_after_ascii_is_boundary, lemma_end_is_boundary, lemma_skip_blanks_forwards,
    skip_blanks_forwards, utf8_width, COLON, SPACE, TAB,
};
use std::collections::HashSet;
use vstd::prelude::*;
use vstd::string::StringSliceAdditionalSpecFns;
use vstd::std_specs::iter::IteratorSpec;
use vstd::utf8::{char_u32_cast, encode_utf8, valid_utf8};

verus! {

/// A namespace name, written without its colon, and what it stands for.
#[derive(Debug)]
pub struct NamespaceName {
    pub name: String,
    pub namespace: Namespace,
}

/// The configuration of a wiki.
#[derive(Debug)]
pub struct Configuration {
    /// The namespace names that classify a link target.
    pub namespaces: Vec<NamespaceName>,
    /// The characters that are absorbed into a link that they follow, each
    /// held as its code point.
    pub link_trail_character_set: HashSet<u32>,
}

/// The mathematical value of a [`NamespaceName`]: the bytes of the name.
pub struct NamespaceNameModel {
    pub name: Seq<u8>,
    pub namespace: Namespace,
}

/// The mathematical value of a [`Configuration`].
pub struct ConfigurationModel {
    pub namespaces: Seq<NamespaceNameModel>,
    pub link_trail: Set<char>,
}

/// An ASCII letter in lower case, any other byte unchanged.
pub open spec fn ascii_lower(byte: u8) -> u8 {
    if 0x41 <= byte <= 0x5a {
        (byte + 0x20) as u8
    } else {
        byte
    }
}

/// `text` starts with `name`, compared without regard to the case of ASCII
/// letters, and a colon follows.
pub open spec fn name_matches(text: Seq<u8>, name: Seq<u8>) -> bool {
    &&& name.len() < text.len()
    &&& forall|i: int|
        0 <= i < name.len() ==> ascii_lower(#[trigger] text[i]) == ascii_lower(name[i])
    &&& text[name.len() as int] == COLON
}

/// The index of the longest name among the first `count` that matches
/// `text`, the earliest of them where several are as long.
pub open spec fn best_match(names: Seq<NamespaceNameModel>, text: Seq<u8>, count: int) -> Option<
    int,
>
    decreases count,
{
    if count <= 0 {
        None
    } else {
        let earlier = best_match(names, text, count - 1);
        let matches = name_matches(text, names[count - 1].name);
        match earlier {
            Some(index) => if matches && names[index].name.len() < names[count - 1].name.len() {
                Some(count - 1)
            } else {
                earlier
            },
            None => if matches {
                Some(count - 1)
            } else {
                None
            },
        }
    }
}

/// The number of bytes taken by the longest run of trail characters at the
/// start of `chars`.
pub open spec fn link_trail_length(chars: Seq<char>, trail: Set<char>) -> int
    decreases chars.len(),
{
    if chars.len() > 0 && trail.contains(chars[0]) {
        utf8_width(chars[0]) + link_trail_length(chars.drop_first(), trail)
    } else {
        0
    }
}

impl ConfigurationModel {
    /// The namespace prefix at the start of `text`: the number of bytes it
    /// takes, and the namespace. A prefix is a configured name, a colon and
    /// the blanks after it; the longest matching name decides. Without a
    /// match nothing is taken.
    pub open spec fn find_namespace(self, text: Seq<u8>) -> (int, Option<Namespace>) {
        match best_match(self.namespaces, text, self.namespaces.len() as int) {
            Some(index) => (
                skip_blanks_forwards(text, self.namespaces[index].name.len() as int + 1),
                Some(self.namespaces[index].namespace),
            ),
            None => (0, None),
        }
    }

    /// Whether `c` may trail a link.
    pub open spec fn is_link_trail(self, c: char) -> bool {
        self.link_trail.contains(c)
    }
}

impl View for NamespaceName {
    type V = NamespaceNameModel;

    open spec fn view(&self) -> NamespaceNameModel {
        NamespaceNameModel { name: encode_utf8(self.name@), namespace: self.namespace }
    }
}

impl View for Configuration {
    type V = ConfigurationModel;

    open spec fn view(&self) -> ConfigurationModel {
        ConfigurationModel {
            namespaces: Seq::new(self.namespaces@.len(), |i: int| self.namespaces@[i]@),
            link_trail: Set::new(|c: char| self.link_trail_character_set@.contains(c as u32)),
        }
    }
}

/// The best match is one of the names, it matches, no longer name matches,
/// and no earlier name of its length matches; without one, no name matches.
pub proof fn lemma_best_match(names: Seq<NamespaceNameModel>, text: Seq<u8>, count: int)
    requires
        0 <= count <= names.len(),
    ensures
        match best_match(names, text, count) {
            Some(index) => {
                &&& 0 <= index < count
                &&& name_matches(text, names[index].name)
                &&& forall|j: int|
                    0 <= j < count && name_matches(text, #[trigger] names[j].name) ==> {
                        ||| names[j].name.len() < names[index].name.len()
                        ||| names[j].name.len() == names[index].name.len() && index <= j
                    }
            },
            None => forall|j: int| 0 <= j < count ==> !name_matches(text, #[trigger] names[j].name),
        },
    decreases count,
{
    if count > 0 {
        lemma_best_match(names, text, count - 1);
    }
}

/// A namespace prefix lies in the text and ends on a boundary.
pub proof fn lemma_find_namespace(configuration: ConfigurationModel, text: Seq<u8>)
    requires
        valid_utf8(text),
    ensures
        boundary(text, configuration.find_namespace(text).0),
{
    let names = configuration.namespaces;
    lemma_best_match(names, text, names.len() as int);
    match best_match(names, text, names.len() as int) {
        Some(index) => {
            let length = names[index].name.len() as int;
            lemma_after_ascii_is_boundary(text, length);
            lemma_skip_blanks_forwards(text, length + 1);
        },
        None => {
            lemma_end_is_boundary(text);
        },
    }
}

/// The run of trail characters at the start of `chars` is a number of
/// whole characters.
pub proof fn lemma_link_trail_length(chars: Seq<char>, trail: Set<char>) -> (count: int)
    ensures
        0 <= count <= chars.len(),
        link_trail_length(chars, trail) == encode_utf8(chars.subrange(0, count)).len(),
    decreases chars.len(),
{
    if chars.len() > 0 && trail.contains(chars[0]) {
        let count = lemma_link_trail_length(chars.drop_first(), trail);
        assert(chars.subrange(0, count + 1).drop_first() =~= chars.drop_first().subrange(
            0,
            count,
        ));
        count + 1
    } else {
        assert(chars.subrange(0, 0) =~= Seq::<char>::empty());
        0
    }
}

fn to_ascii_lower(byte: u8) -> (lower: u8)
    ensures
        lower == ascii_lower(byte),
{
    if 0x41 <= byte && byte <= 0x5a {
        byte + 0x20
    } else {
        byte
    }
}

fn matches_name(text: &[u8], name: &[u8]) -> (matches: bool)
    ensures
        matches == name_matches(text@, name@),
{
    if name.len() >= text.len() {
        return false;
    }
    let mut i: usize = 0;
    while i < name.len()
        invariant
            i <= name.len() < text.len(),
            forall|j: int| 0 <= j < i ==> ascii_lower(#[trigger] text@[j]) == ascii_lower(name@[j]),
        decreases name.len() - i,
    {
        if to_ascii_lower(text[i]) != to_ascii_lower(name[i]) {
            return false;
        }
        i += 1;
    }
    text[name.len()] == COLON
}

impl Configuration {
    /// The configuration of a wiki with the namespace names `namespaces`
    /// whose link trail characters are the characters of `link_trail`.
    pub fn new(namespaces: Vec<NamespaceName>, link_trail: &str) -> (configuration: Configuration)
        ensures
            configuration.namespaces == namespaces,
            forall|c: char| configuration@.is_link_trail(c) <==> link_trail@.contains(c),
    {
        let ghost chars = link_trail@;
        let mut set: HashSet<u32> = HashSet::new();
        let mut iterator = link_trail.chars();
        let ghost mut taken: int = 0;
        loop
            invariant_except_break
                iterator.obeys_prophetic_iter_laws(),
                iterator.remaining() == chars.subrange(taken, chars.len() as int),
            invariant
                0 <= taken <= chars.len(),
                forall|code: u32|
                    set@.contains(code) <==> exists|i: int|
                        0 <= i < taken && #[trigger] (chars[i] as u32) == code,
            ensures
                taken == chars.len(),
            decreases chars.len() - taken,
        {
            match iterator.next() {
                Some(c) => {
                    let ghost before = set@;
                    set.insert(c as u32);
                    proof {
                        assert(c == chars[taken]);
                        assert(chars.subrange(taken, chars.len() as int).drop_first()
                            =~= chars.subrange(taken + 1, chars.len() as int));
                        assert forall|code: u32| set@.contains(code) implies exists|i: int|
                            0 <= i < taken + 1 && #[trigger] (chars[i] as u32) == code by {
                            if before.contains(code) {
                                let i = choose|i: int|
                                    0 <= i < taken && #[trigger] (chars[i] as u32) == code;
                                assert(chars[i] as u32 == code);
                            } else {
                                assert(chars[taken] as u32 == code);
                            }
                        }
                        taken = taken + 1;
                    }
                },
                None => {
                    break ;
                },
            }
        }
        let configuration = Configuration { namespaces, link_trail_character_set: set };
        proof {
            assert forall|c: char| configuration@.is_link_trail(c) <==> chars.contains(c) by {
                if configuration@.is_link_trail(c) {
                    let i = choose|i: int|
                        0 <= i < chars.len() && #[trigger] (chars[i] as u32) == c as u32;
                    char_u32_cast(chars[i], c as u32);
                    char_u32_cast(c, c as u32);
                    assert(chars[i] == c);
                }
                if chars.contains(c) {
                    let i = choose|i: int| 0 <= i < chars.len() && chars[i] == c;
                    assert(chars[i] as u32 == c as u32);
                }
            }
        }
        configuration
    }

    /// Matches the start of `text` against the namespace names. `Ok` holds
    /// the length of the prefix and its namespace, `Err` the length taken
    /// without a match.
    pub fn find_namespace(&self, text: &str) -> (result: Result<(usize, Namespace), usize>)
        ensures
            self@.find_namespace(text.spec_bytes()) == match result {
                Ok((length, namespace)) => (length as int, Some(namespace)),
                Err(length) => (length as int, None::<Namespace>),
            },
    {
        let bytes = text.as_bytes();
        let ghost names = self@.namespaces;
        let mut best: Option<usize> = None;
        let mut i: usize = 0;
        while i < self.namespaces.len()
            invariant
                i <= self.namespaces@.len(),
                names == self@.namespaces,
                bytes@ == text.spec_bytes(),
                match best {
                    Some(index) => index < i && best_match(names, bytes@, i as int) == Some(
                        index as int,
                    ),
                    None => best_match(names, bytes@, i as int) == None::<int>,
                },
            decreases self.namespaces@.len() - i,
        {
            let name = self.namespaces[i].name.as_str().as_bytes();
            assert(name@ == names[i as int].name);
            if matches_name(bytes, name) {
                match best {
                    Some(index) => {
                        if self.namespaces[index].name.as_str().as_bytes().len() < name.len() {
                            best = Some(i);
                        }
                    },
                    None => {
                        best = Some(i);
                    },
                }
            }
            i += 1;
        }
        match best {
            Some(index) => {
                let entry = &self.namespaces[index];
                let name_length = entry.name.as_str().as_bytes().len();
                let total = bytes.len();
                proof {
                    assert(entry@ == names[index as int]);
                    assert(name_length == names[index as int].name.len());
                    lemma_best_match(names, bytes@, names.len() as int);
                    assert(name_matches(bytes@, names[index as int].name));
                    assert(name_length < total);
                    crate::text::lemma_str_valid(text);
                    crate::text::lemma_skip_blanks_forwards(bytes@, name_length + 1);
                }
                let mut length: usize = name_length + 1;
                while length < bytes.len() && (bytes[length] == SPACE || bytes[length] == TAB)
                    invariant
                        name_length + 1 <= length <= bytes@.len(),
                        skip_blanks_forwards(bytes@, name_length + 1) == skip_blanks_forwards(
                            bytes@,
                            length as int,
                        ),
                    decreases bytes@.len() - length,
                {
                    length += 1;
                }
                Ok((length, entry.namespace))
            },
            None => Err(0),
        }
    }

    /// Whether `c` may trail a link.
    pub fn is_link_trail(&self, c: char) -> (found: bool)
        ensures
            found == self@.is_link_trail(c),
    {
        let scalar = c as u32;
        self.link_trail_character_set.contains(&scalar)
    }
}

} // verus!
