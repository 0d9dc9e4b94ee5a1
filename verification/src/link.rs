//! Links `[[target]]` and `[[target|text]]`: how they open and how they
//! close.
use crate::configuration::{
    lemma_find_namespace, lemma_link_trail_length, link_trail_length, Configuration,
    ConfigurationModel,
};
use crate::node::{
    lemma_node_views_empty, lemma_node_views_push, node_views, optional_node_views, Namespace,
    Node, NodeModel, WarningMessage,
};
use crate::parse::{
    lemma_parse_sound, lemma_reparsed_sound, parse_from, parse_model, reparsed_target,
};
use crate::spans::lemma_sound_in_longer;
use crate::state::{OpenNodeType, OpenNodeTypeModel, State, StateModel};
use crate::text::{
    boundary, byte_length, chars_between, has_byte, len_utf8, lemma_after_ascii_is_boundary,
    lemma_ascii_is_boundary, lemma_between_is_valid, lemma_boundary_in_prefix,
    lemma_boundary_of_suffix, lemma_encode_utf8_concat, lemma_encoded_prefix_is_boundary,
    lemma_end_is_boundary, lemma_skip_blanks_forwards, lemma_str_valid, skip_blanks_forwards,
    substring, trim_end, trim_white_space_end, utf8_width, CLOSE_BRACE, CLOSE_BRACKET,
    LINE_FEED, OPEN_BRACE, OPEN_BRACKET, PIPE,
};
use vstd::prelude::*;
use vstd::std_specs::iter::IteratorSpec;
use vstd::string::StringSliceAdditionalSpecFns;
use vstd::utf8::{encode_scalar, encode_utf8, valid_utf8};

verus! {

/// How the scan of a link target ends.
pub enum TargetScan {
    /// The target cannot be completed; `end` is where the scan stopped.
    Invalid { end: int },
    /// A `]` at `end` closes the target.
    Closed { end: int, should_reparse: bool },
    /// A `|` at `end` separates the target from the text of the link.
    Piped { end: int, should_reparse: bool },
}

/// The scan of a link target from `position`, inside `templates` open
/// templates and `parameters` open parameters. Two braces open a template
/// and three a parameter, and closing braces close one; a target that holds
/// opening braces has to be parsed again. The target ends at a `]` or a `|`
/// outside of any braces. A line break, the end of the text, a `[` outside
/// of braces and closing braces without opening ones of their kind make the
/// link invalid. Any other byte, a single brace too, is passed over.
pub open spec fn scan_target(
    text: Seq<u8>,
    position: int,
    templates: int,
    parameters: int,
    should_reparse: bool,
) -> TargetScan
    decreases text.len() - position,
{
    if position < 0 || position >= text.len() || text[position] == LINE_FEED {
        TargetScan::Invalid { end: position }
    } else if text[position] == OPEN_BRACKET && templates == 0 && parameters == 0 {
        TargetScan::Invalid { end: position }
    } else if text[position] == OPEN_BRACE && has_byte(text, position + 1, OPEN_BRACE) {
        if has_byte(text, position + 2, OPEN_BRACE) {
            scan_target(text, position + 3, templates, parameters + 1, true)
        } else {
            scan_target(text, position + 2, templates + 1, parameters, true)
        }
    } else if text[position] == CLOSE_BRACE && has_byte(text, position + 1, CLOSE_BRACE) {
        if has_byte(text, position + 2, CLOSE_BRACE) {
            if parameters <= 0 {
                TargetScan::Invalid { end: position + 3 }
            } else {
                scan_target(text, position + 3, templates, parameters - 1, should_reparse)
            }
        } else {
            if templates <= 0 {
                TargetScan::Invalid { end: position + 2 }
            } else {
                scan_target(text, position + 2, templates - 1, parameters, should_reparse)
            }
        }
    } else if text[position] == CLOSE_BRACKET && templates == 0 && parameters == 0 {
        TargetScan::Closed { end: position, should_reparse }
    } else if text[position] == PIPE && templates == 0 && parameters == 0 {
        TargetScan::Piped { end: position, should_reparse }
    } else {
        scan_target(text, position + 1, templates, parameters, should_reparse)
    }
}

/// What a plain link without a text shows before its trail: the nodes of
/// its target where the target has been parsed again and that gave nodes,
/// and else the target as one text node.
pub open spec fn shown_text(reparsed: Option<Seq<NodeModel>>, literal: NodeModel) -> Seq<
    NodeModel,
> {
    match reparsed {
        Some(nodes) => nodes,
        None => seq![literal],
    }
}

impl StateModel {
    /// The link under the cursor is invalid: this is reported up to `end`,
    /// and the cursor moves on by one byte.
    pub open spec fn unexpected_end(self, end: int) -> StateModel {
        self.warn(self.scan_position, end, WarningMessage::InvalidLinkSyntax).scan_to(
            self.scan_position + 1,
        )
    }

    /// The text that a plain link shows, with a text node for the trail
    /// characters in `[trail_start, trail_end)` where there are any.
    pub open spec fn with_trail(
        self,
        text: Seq<NodeModel>,
        trail_start: int,
        trail_end: int,
    ) -> Seq<NodeModel> {
        if trail_end > trail_start {
            text.push(
                NodeModel::Text {
                    start: trail_start,
                    end: trail_end,
                    value: chars_between(self.text, trail_start, trail_end),
                },
            )
        } else {
            text
        }
    }

    /// The position after the trail characters that start at `position`.
    pub open spec fn trail_end(self, configuration: ConfigurationModel, position: int) -> int {
        position + link_trail_length(
            chars_between(self.text, position, self.text.len() as int),
            configuration.link_trail,
        )
    }

    /// A `]` at `target_end` ends the target `[target_start, target_end)` of
    /// the link that starts under the cursor. Unless a second `]` follows,
    /// the link is invalid. Otherwise the pending text is flushed and the
    /// link becomes a node, by its namespace: a category, an image, or a
    /// plain link. A plain link takes in the trail characters after it and
    /// shows its target as one text node, or `reparsed` where the target
    /// has to be parsed again, and then the trail. The parse goes on after
    /// the link.
    pub open spec fn target_end(
        self,
        configuration: ConfigurationModel,
        target_start: int,
        target_end: int,
        namespace: Option<Namespace>,
        should_reparse: bool,
        reparsed: Seq<NodeModel>,
    ) -> StateModel {
        if !has_byte(self.text, target_end + 1, CLOSE_BRACKET) {
            self.unexpected_end(target_end)
        } else {
            let start = self.scan_position;
            let before = self.flush(start).nodes;
            let trail_start = target_end + 2;
            let raw = chars_between(self.text, target_start, target_end);
            let target = trim_white_space_end(raw);
            match namespace {
                Some(Namespace::Category) => self.with_nodes(
                    before.push(
                        NodeModel::Category {
                            start,
                            end: trail_start,
                            target,
                            ordinal: Seq::empty(),
                        },
                    ),
                ).resume_at(trail_start),
                Some(Namespace::File) => self.with_nodes(
                    before.push(
                        NodeModel::Image { start, end: trail_start, target, text: Seq::empty() },
                    ),
                ).resume_at(trail_start),
                None => {
                    let trail_end = self.trail_end(configuration, trail_start);
                    let shown = shown_text(
                        if should_reparse {
                            Some(reparsed)
                        } else {
                            None
                        },
                        NodeModel::Text { start: target_start, end: target_end, value: raw },
                    );
                    self.with_nodes(
                        before.push(
                            NodeModel::Link {
                                start,
                                end: trail_end,
                                target,
                                text: self.with_trail(shown, trail_start, trail_end),
                                reparsed: should_reparse,
                            },
                        ),
                    ).resume_at(trail_end)
                },
            }
        }
    }

    /// The brackets under the cursor close a link with a text, opened at
    /// `start` in `namespace` with `target`, around which `nodes` had been
    /// produced. The text of the link is what has been produced in it,
    /// without the blanks before the brackets. The link joins `nodes`, by
    /// its namespace: a category, an image, or a plain link, which takes in
    /// the trail characters after it. The parse goes on after the link.
    pub open spec fn link_end(
        self,
        configuration: ConfigurationModel,
        start: int,
        nodes: Seq<NodeModel>,
        namespace: Option<Namespace>,
        target: Seq<char>,
        should_reparse: bool,
    ) -> StateModel {
        let text = self.trimmed_part();
        let end = self.scan_position + 2;
        let target = trim_white_space_end(target);
        match namespace {
            Some(Namespace::Category) => self.with_nodes(
                nodes.push(NodeModel::Category { start, end, target, ordinal: text }),
            ).resume_at(end),
            Some(Namespace::File) => self.with_nodes(
                nodes.push(NodeModel::Image { start, end, target, text }),
            ).resume_at(end),
            None => {
                let trail_end = self.trail_end(configuration, end);
                self.with_nodes(
                    nodes.push(
                        NodeModel::Link {
                            start,
                            end: trail_end,
                            target,
                            text: self.with_trail(text, end, trail_end),
                            reparsed: should_reparse,
                        },
                    ),
                ).resume_at(trail_end)
            },
        }
    }

    /// Whether the innermost open construct is a link that another link
    /// cannot stand in: any link but one to a file.
    pub open spec fn in_plain_link(self) -> bool {
        &&& self.stack.len() > 0
        &&& self.stack.last().type_ matches OpenNodeTypeModel::Link { namespace, .. }
        &&& namespace != Some(Namespace::File)
    }

    /// Where the namespace prefix of the link under the cursor may start:
    /// after the brackets and the blanks behind them.
    pub open spec fn link_name_start(self) -> int {
        skip_blanks_forwards(self.text, self.scan_position + 2)
    }

    /// The namespace of the link under the cursor.
    pub open spec fn link_namespace(self, configuration: ConfigurationModel) -> Option<
        Namespace,
    > {
        configuration.find_namespace(
            self.text.subrange(self.link_name_start(), self.text.len() as int),
        ).1
    }

    /// Where the target of the link under the cursor starts: after the
    /// namespace prefix.
    pub open spec fn link_target_start(self, configuration: ConfigurationModel) -> int {
        self.link_name_start() + configuration.find_namespace(
            self.text.subrange(self.link_name_start(), self.text.len() as int),
        ).0
    }

    /// How the scan of the target of the link under the cursor ends.
    pub open spec fn link_scan(self, configuration: ConfigurationModel) -> TargetScan {
        scan_target(self.text, self.link_target_start(configuration), 0, 0, false)
    }

    /// Brackets under the cursor open a link. In a link that is not a link
    /// to a file this is invalid: the outer link is reported and given up.
    /// Otherwise the target is scanned. An invalid target is reported. A
    /// target that a `]` ends makes a link without a text, and one that a
    /// `|` ends opens a link whose text starts behind it. `reparsed` holds
    /// the nodes of the target for the case that it has to be parsed again.
    pub open spec fn link_start(
        self,
        configuration: ConfigurationModel,
        reparsed: Seq<NodeModel>,
    ) -> StateModel {
        if self.in_plain_link() {
            self.warn(
                self.stack.last().start,
                self.scan_position,
                WarningMessage::InvalidLinkSyntax,
            ).abandon()
        } else {
            let namespace = self.link_namespace(configuration);
            let target_start = self.link_target_start(configuration);
            match self.link_scan(configuration) {
                TargetScan::Invalid { end } => self.unexpected_end(end),
                TargetScan::Closed { end, should_reparse } => self.target_end(
                    configuration,
                    target_start,
                    end,
                    namespace,
                    should_reparse,
                    reparsed,
                ),
                TargetScan::Piped { end, should_reparse } => self.push_open_node(
                    OpenNodeTypeModel::Link {
                        namespace,
                        should_reparse,
                        target: chars_between(self.text, target_start, end),
                    },
                    end + 1,
                ),
            }
        }
    }
}

/// The scan of a target stops in the text, at or after the position where
/// it starts, and where it finds the end of the target, the byte that ends
/// the target stands there.
pub proof fn lemma_scan_target(
    text: Seq<u8>,
    position: int,
    templates: int,
    parameters: int,
    should_reparse: bool,
)
    requires
        0 <= position <= text.len(),
    ensures
        match scan_target(text, position, templates, parameters, should_reparse) {
            TargetScan::Invalid { end } => position <= end <= text.len(),
            TargetScan::Closed { end, .. } => position <= end < text.len() && text[end]
                == CLOSE_BRACKET,
            TargetScan::Piped { end, .. } => position <= end < text.len() && text[end] == PIPE,
        },
    decreases text.len() - position,
{
    if position >= text.len() || text[position] == LINE_FEED {
    } else if text[position] == OPEN_BRACKET && templates == 0 && parameters == 0 {
    } else if text[position] == OPEN_BRACE && has_byte(text, position + 1, OPEN_BRACE) {
        if has_byte(text, position + 2, OPEN_BRACE) {
            lemma_scan_target(text, position + 3, templates, parameters + 1, true);
        } else {
            lemma_scan_target(text, position + 2, templates + 1, parameters, true);
        }
    } else if text[position] == CLOSE_BRACE && has_byte(text, position + 1, CLOSE_BRACE) {
        if has_byte(text, position + 2, CLOSE_BRACE) {
            if parameters > 0 {
                lemma_scan_target(text, position + 3, templates, parameters - 1, should_reparse);
            }
        } else {
            if templates > 0 {
                lemma_scan_target(text, position + 2, templates - 1, parameters, should_reparse);
            }
        }
    } else if text[position] == CLOSE_BRACKET && templates == 0 && parameters == 0 {
    } else if text[position] == PIPE && templates == 0 && parameters == 0 {
    } else {
        lemma_scan_target(text, position + 1, templates, parameters, should_reparse);
    }
}

impl StateModel {
    /// The trail of a link ends in the text, on a boundary.
    pub proof fn lemma_trail_end(self, configuration: ConfigurationModel, position: int)
        requires
            valid_utf8(self.text),
            boundary(self.text, position),
        ensures
            position <= self.trail_end(configuration, position) <= self.text.len(),
            boundary(self.text, self.trail_end(configuration, position)),
    {
        let text = self.text;
        let tail = text.subrange(position, text.len() as int);
        lemma_end_is_boundary(text);
        lemma_between_is_valid(text, position, text.len() as int);
        let chars = chars_between(text, position, text.len() as int);
        vstd::utf8::decode_utf8_encode_utf8(tail);
        let count = lemma_link_trail_length(chars, configuration.link_trail);
        lemma_encoded_prefix_is_boundary(chars, count);
        lemma_boundary_of_suffix(
            text,
            position,
            encode_utf8(chars.subrange(0, count)).len() as int,
        );
    }

    /// The target of the link under the cursor starts behind the brackets,
    /// on a boundary.
    pub proof fn lemma_link_target_start(self, configuration: ConfigurationModel)
        requires
            self.wf(),
            self.at(OPEN_BRACKET),
            self.ahead(1, OPEN_BRACKET),
        ensures
            self.scan_position + 2 <= self.link_target_start(configuration) <= self.text.len(),
            boundary(self.text, self.link_target_start(configuration)),
    {
        let text = self.text;
        lemma_after_ascii_is_boundary(text, self.scan_position + 1);
        lemma_skip_blanks_forwards(text, self.scan_position + 2);
        let name_start = self.link_name_start();
        lemma_end_is_boundary(text);
        lemma_between_is_valid(text, name_start, text.len() as int);
        let tail = text.subrange(name_start, text.len() as int);
        lemma_find_namespace(configuration, tail);
        lemma_boundary_of_suffix(text, name_start, configuration.find_namespace(tail).0);
    }

    /// The end of a target leaves less to do.
    pub proof fn lemma_target_end(
        self,
        configuration: ConfigurationModel,
        target_start: int,
        target_end: int,
        namespace: Option<Namespace>,
        should_reparse: bool,
        reparsed: Seq<NodeModel>,
    )
        requires
            self.wf(),
            self.at(OPEN_BRACKET),
            self.scan_position + 2 <= target_end,
            has_byte(self.text, target_end, CLOSE_BRACKET),
        ensures
            self.advances_to(
                self.target_end(
                    configuration,
                    target_start,
                    target_end,
                    namespace,
                    should_reparse,
                    reparsed,
                ),
            ),
    {
        let next = self.target_end(
            configuration,
            target_start,
            target_end,
            namespace,
            should_reparse,
            reparsed,
        );
        if has_byte(self.text, target_end + 1, CLOSE_BRACKET) {
            lemma_after_ascii_is_boundary(self.text, target_end + 1);
            self.lemma_trail_end(configuration, target_end + 2);
        }
        assert(next.wf());
        self.lemma_advance(next);
    }

    /// Opening a link leaves less to do.
    pub proof fn lemma_link_start(self, configuration: ConfigurationModel, reparsed: Seq<NodeModel>)
        requires
            self.wf(),
            self.at(OPEN_BRACKET),
            self.ahead(1, OPEN_BRACKET),
        ensures
            self.advances_to(self.link_start(configuration, reparsed)),
    {
        let next = self.link_start(configuration, reparsed);
        lemma_ascii_is_boundary(self.text, self.scan_position);
        if self.in_plain_link() {
            assert(self.stack.last().wf(self.text));
            assert(next.wf());
            self.lemma_rewind(next);
        } else {
            self.lemma_link_target_start(configuration);
            let target_start = self.link_target_start(configuration);
            lemma_scan_target(self.text, target_start, 0, 0, false);
            match self.link_scan(configuration) {
                TargetScan::Invalid { end } => {
                    assert(next.wf());
                    self.lemma_advance(next);
                },
                TargetScan::Closed { end, should_reparse } => {
                    self.lemma_target_end(
                        configuration,
                        target_start,
                        end,
                        self.link_namespace(configuration),
                        should_reparse,
                        reparsed,
                    );
                },
                TargetScan::Piped { end, should_reparse } => {
                    lemma_after_ascii_is_boundary(self.text, end);
                    assert(next.stack.drop_last() =~= self.stack);
                    assert(next.wf());
                    self.lemma_open(next);
                },
            }
        }
    }

    /// The state in which closing brackets under the cursor close the
    /// innermost open construct, a link.
    pub open spec fn closed_link(self, configuration: ConfigurationModel) -> StateModel
        recommends
            self.in_link(),
    {
        let open_node = self.stack.last();
        match open_node.type_ {
            OpenNodeTypeModel::Link { namespace, should_reparse, target } => self.pop().link_end(
                configuration,
                open_node.start,
                open_node.nodes,
                namespace,
                target,
                should_reparse,
            ),
            _ => self,
        }
    }

    /// Closing a link leaves less to do.
    pub proof fn lemma_closed_link(self, configuration: ConfigurationModel)
        requires
            self.wf(),
            self.at(CLOSE_BRACKET),
            self.ahead(1, CLOSE_BRACKET),
            self.in_link(),
        ensures
            self.advances_to(self.closed_link(configuration)),
    {
        let next = self.closed_link(configuration);
        lemma_after_ascii_is_boundary(self.text, self.scan_position + 1);
        self.lemma_trail_end(configuration, self.scan_position + 2);
        assert(next.wf());
        self.lemma_close(next);
    }
}

/// The position after the longest run of trail characters that starts at
/// `position`.
pub fn link_trail_end(wiki_text: &str, configuration: &Configuration, position: usize) -> (end:
    usize)
    requires
        boundary(wiki_text.spec_bytes(), position as int),
    ensures
        end == position + link_trail_length(
            chars_between(
                wiki_text.spec_bytes(),
                position as int,
                wiki_text.spec_bytes().len() as int,
            ),
            configuration@.link_trail,
        ),
        position <= end,
        boundary(wiki_text.spec_bytes(), end as int),
{
    proof {
        lemma_str_valid(wiki_text);
        lemma_end_is_boundary(wiki_text.spec_bytes());
    }
    let length = byte_length(wiki_text);
    let tail = substring(wiki_text, position, length);
    let ghost text = wiki_text.spec_bytes();
    let ghost chars = tail@;
    let ghost trail = configuration@.link_trail;
    proof {
        lemma_str_valid(tail);
        assert(chars.subrange(0, 0) =~= Seq::<char>::empty());
        assert(chars.subrange(0, chars.len() as int) =~= chars);
        lemma_encoded_prefix_is_boundary(chars, 0);
    }
    let mut iterator = tail.chars();
    let mut end = position;
    let ghost mut taken: int = 0;
    loop
        invariant_except_break
            iterator.obeys_prophetic_iter_laws(),
            iterator.remaining() == chars.subrange(taken, chars.len() as int),
        invariant
            0 <= taken <= chars.len(),
            end == position + encode_utf8(chars.subrange(0, taken)).len(),
            link_trail_length(chars, trail) == (end - position) + link_trail_length(
                chars.subrange(taken, chars.len() as int),
                trail,
            ),
            encode_utf8(chars) == text.subrange(position as int, text.len() as int),
            boundary(text, position as int),
            valid_utf8(text),
            trail == configuration@.link_trail,
            text.len() == length,
        ensures
            end == position + link_trail_length(chars, trail),
            position <= end,
            boundary(text, end as int),
        decreases chars.len() - taken,
    {
        let ghost rest = chars.subrange(taken, chars.len() as int);
        proof {
            lemma_encoded_prefix_is_boundary(chars, taken);
            lemma_boundary_of_suffix(text, position as int, end - position);
        }
        match iterator.next() {
            Some(c) => {
                if !configuration.is_link_trail(c) {
                    break ;
                }
                proof {
                    assert(c == chars[taken]);
                    assert(rest.drop_first() =~= chars.subrange(taken + 1, chars.len() as int));
                    assert(chars.subrange(0, taken + 1) =~= chars.subrange(0, taken) + seq![c]);
                    lemma_encode_utf8_concat(chars.subrange(0, taken), seq![c]);
                    assert(seq![c].drop_first() =~= Seq::<char>::empty());
                    assert(encode_utf8(seq![c]) =~= encode_scalar(c as u32)) by {
                        reveal_with_fuel(encode_utf8, 2);
                    }
                    lemma_encoded_prefix_is_boundary(chars, taken + 1);
                    assert(encode_utf8(chars.subrange(0, taken + 1)).len() <= encode_utf8(
                        chars,
                    ).len());
                    assert(encode_utf8(chars.subrange(0, taken + 1)).len() == encode_utf8(
                        chars.subrange(0, taken),
                    ).len() + utf8_width(c));
                }
                end += len_utf8(c);
                proof {
                    taken = taken + 1;
                }
            },
            None => {
                break ;
            },
        }
    }
    end
}

/// Reports the link under the cursor as invalid up to
/// `target_end_position` and moves the cursor on by one byte. Where that
/// position lies between the cursor and the end of the text, a sound state
/// stays sound.
pub fn parse_unexpected_end(state: &mut State, target_end_position: usize)
    requires
        old(state)@.wf(),
        old(state).scan_position < old(state)@.text.len(),
    ensures
        final(state)@ == old(state)@.unexpected_end(target_end_position as int),
        final(state)@.wf(),
        final(state).wiki_text == old(state).wiki_text,
        old(state).scan_position <= target_end_position <= old(state)@.text.len() ==> forall|
            origin: int,
        |
            old(state)@.sound(origin) ==> #[trigger] final(state)@.sound(origin),
{
    proof {
        if state.scan_position <= target_end_position <= state@.text.len() {
            assert forall|origin: int| #[trigger]
                state@.sound(origin) implies state@.unexpected_end(
                target_end_position as int,
            ).sound(origin) by {
                state@.lemma_warn_sound(
                    origin,
                    state.scan_position as int,
                    target_end_position as int,
                    WarningMessage::InvalidLinkSyntax,
                );
                state@.warn(
                    state.scan_position as int,
                    target_end_position as int,
                    WarningMessage::InvalidLinkSyntax,
                ).lemma_scan_to_sound(origin, state.scan_position + 1);
            }
        }
    }
    state.warn(state.scan_position, target_end_position, WarningMessage::InvalidLinkSyntax);
    state.scan_position += 1;
}

/// The text that a plain link shows: `text`, and the trail characters in
/// `[trail_start, trail_end)` where there are any.
fn with_trail<'a>(
    state: &State<'a>,
    text: Vec<Node<'a>>,
    trail_start: usize,
    trail_end: usize,
) -> (shown: Vec<Node<'a>>)
    requires
        boundary(state@.text, trail_start as int),
        boundary(state@.text, trail_end as int),
    ensures
        node_views(shown@) == state@.with_trail(
            node_views(text@),
            trail_start as int,
            trail_end as int,
        ),
{
    let mut shown = text;
    if trail_end > trail_start {
        let node = Node::Text {
            start: trail_start,
            end: trail_end,
            value: substring(state.wiki_text, trail_start, trail_end),
        };
        proof {
            lemma_node_views_push(shown@, node);
        }
        shown.push(node);
    }
    shown
}

/// Closes the link with a text whose closing brackets stand under the
/// cursor. The link was opened at `start_position` in `namespace` with
/// `target`, and `nodes` had been produced around it.
pub fn parse_link_end<'a>(
    state: &mut State<'a>,
    configuration: &Configuration,
    start_position: usize,
    nodes: Vec<Node<'a>>,
    namespace: Option<Namespace>,
    target: &'a str,
    should_reparse: bool,
)
    requires
        old(state)@.wf(),
        old(state)@.at(CLOSE_BRACKET),
        old(state)@.ahead(1, CLOSE_BRACKET),
    ensures
        final(state)@ == old(state)@.link_end(
            configuration@,
            start_position as int,
            node_views(nodes@),
            namespace,
            target@,
            should_reparse,
        ),
        final(state)@.wf(),
        final(state).wiki_text == old(state).wiki_text,
{
    proof {
        state@.lemma_cursor_on_ascii();
        lemma_after_ascii_is_boundary(state@.text, state.scan_position + 1);
        state@.lemma_trail_end(configuration@, state.scan_position + 2);
    }
    let inner_end_position = state.skip_whitespace_backwards(state.scan_position);
    state.flush(inner_end_position);
    let end = state.scan_position + 2;
    let text = state.replace_nodes(nodes);
    let target = trim_end(target);
    match namespace {
        None => {
            let trail_end_position = link_trail_end(state.wiki_text, configuration, end);
            let text = with_trail(state, text, end, trail_end_position);
            state.push_node(
                Node::Link {
                    start: start_position,
                    end: trail_end_position,
                    target,
                    text,
                    reparsed: should_reparse,
                },
            );
            state.scan_position = trail_end_position;
            state.flushed_position = trail_end_position;
        },
        Some(Namespace::Category) => {
            state.push_node(Node::Category { start: start_position, end, target, ordinal: text });
            state.scan_position = end;
            state.flushed_position = end;
        },
        Some(Namespace::File) => {
            state.push_node(Node::Image { start: start_position, end, target, text });
            state.scan_position = end;
            state.flushed_position = end;
        },
    }
}

/// What a plain link without a text shows before its trail: `reparsed`
/// where the target has been parsed again and that gave nodes, and else
/// `literal`, the target as one text node.
pub fn literal_or_reparsed<'a>(reparsed: Option<Vec<Node<'a>>>, literal: Node<'a>) -> (shown: Vec<
    Node<'a>,
>)
    ensures
        node_views(shown@) == shown_text(optional_node_views(reparsed), literal@),
{
    match reparsed {
        Some(nodes) => nodes,
        None => {
            let mut shown: Vec<Node<'a>> = Vec::new();
            proof {
                lemma_node_views_empty(shown@);
                lemma_node_views_push(shown@, literal);
            }
            shown.push(literal);
            proof {
                assert(node_views(shown@) =~= seq![literal@]);
            }
            shown
        },
    }
}

/// How the scan of a target ended.
enum TargetEnd {
    Invalid,
    Closed,
    Piped,
}

/// Scans the target of a link from `target_start_position`.
fn scan_link_target(state: &State, target_start_position: usize) -> (scan: (TargetEnd, usize, bool))
    requires
        state@.wf(),
        target_start_position <= state@.text.len(),
    ensures
        scan_target(state@.text, target_start_position as int, 0, 0, false) == match scan.0 {
            TargetEnd::Invalid => TargetScan::Invalid { end: scan.1 as int },
            TargetEnd::Closed => TargetScan::Closed { end: scan.1 as int, should_reparse: scan.2 },
            TargetEnd::Piped => TargetScan::Piped { end: scan.1 as int, should_reparse: scan.2 },
        },
{
    let ghost text = state@.text;
    let ghost start = target_start_position as int;
    let mut position = target_start_position;
    let mut n_templates: usize = 0;
    let mut n_parameters: usize = 0;
    let mut should_reparse = false;
    loop
        invariant
            state@.wf(),
            text == state@.text,
            start == target_start_position,
            start <= position <= text.len(),
            n_templates + n_parameters <= position,
            scan_target(text, start, 0, 0, false) == scan_target(
                text,
                position as int,
                n_templates as int,
                n_parameters as int,
                should_reparse,
            ),
        decreases text.len() - position,
    {
        let outside = n_templates == 0 && n_parameters == 0;
        match state.get_byte(position) {
            None => {
                return (TargetEnd::Invalid, position, should_reparse);
            },
            Some(byte) => {
                if byte == LINE_FEED || (byte == OPEN_BRACKET && outside) {
                    return (TargetEnd::Invalid, position, should_reparse);
                } else if byte == OPEN_BRACE && state.is_byte(position + 1, OPEN_BRACE) {
                    should_reparse = true;
                    if state.is_byte(position + 2, OPEN_BRACE) {
                        position += 3;
                        n_parameters += 1;
                    } else {
                        position += 2;
                        n_templates += 1;
                    }
                } else if byte == CLOSE_BRACE && state.is_byte(position + 1, CLOSE_BRACE) {
                    if state.is_byte(position + 2, CLOSE_BRACE) {
                        position += 3;
                        if n_parameters == 0 {
                            return (TargetEnd::Invalid, position, should_reparse);
                        }
                        n_parameters -= 1;
                    } else {
                        position += 2;
                        if n_templates == 0 {
                            return (TargetEnd::Invalid, position, should_reparse);
                        }
                        n_templates -= 1;
                    }
                } else if byte == CLOSE_BRACKET && outside {
                    return (TargetEnd::Closed, position, should_reparse);
                } else if byte == PIPE && outside {
                    return (TargetEnd::Piped, position, should_reparse);
                } else {
                    position += 1;
                }
            },
        }
    }
}

/// Ends the link under the cursor whose target
/// `[target_start_position, target_end_position)` a `]` ends. A sound state
/// stays sound.
pub fn parse_end<'a>(
    state: &mut State<'a>,
    configuration: &Configuration,
    target_start_position: usize,
    target_end_position: usize,
    namespace: Option<Namespace>,
    should_reparse: bool,
)
    requires
        old(state)@.wf(),
        old(state)@.at(OPEN_BRACKET),
        old(state).scan_position + 2 <= target_start_position <= target_end_position,
        boundary(old(state)@.text, target_start_position as int),
        has_byte(old(state)@.text, target_end_position as int, CLOSE_BRACKET),
    ensures
        final(state)@ == old(state)@.target_end(
            configuration@,
            target_start_position as int,
            target_end_position as int,
            namespace,
            should_reparse,
            parse_model(
                configuration@,
                old(state)@.text.subrange(0, target_end_position as int),
                target_start_position as int,
            ).nodes,
        ),
        final(state)@.wf(),
        final(state).wiki_text == old(state).wiki_text,
        forall|origin: int|
            old(state)@.sound(origin) ==> #[trigger] final(state)@.sound(origin),
    decreases old(state)@.text.len(), 0int,
{
    proof {
        let text = state@.text;
        let start = target_start_position as int;
        let end = target_end_position as int;
        let reparsed = parse_model(configuration@, text.subrange(0, end), start).nodes;
        lemma_ascii_is_boundary(text, end);
        lemma_boundary_in_prefix(text, start, end);
        lemma_parse_sound(configuration@, text.subrange(0, end), start);
        lemma_sound_in_longer(reparsed, text, end, start, end);
        assert forall|origin: int| #[trigger] state@.sound(origin) implies state@.target_end(
            configuration@,
            start,
            end,
            namespace,
            should_reparse,
            reparsed,
        ).sound(origin) by {
            state@.lemma_target_end_sound(
                origin,
                configuration@,
                start,
                end,
                namespace,
                should_reparse,
                reparsed,
            );
        }
    }
    if !state.is_byte(target_end_position + 1, CLOSE_BRACKET) {
        parse_unexpected_end(state, target_end_position);
        return ;
    }
    proof {
        let text = state@.text;
        lemma_ascii_is_boundary(text, state.scan_position as int);
        lemma_ascii_is_boundary(text, target_end_position as int);
        lemma_after_ascii_is_boundary(text, target_end_position + 1);
        state@.lemma_trail_end(configuration@, target_end_position + 2);
        lemma_end_is_boundary(text);
    }
    let start_position = state.scan_position;
    state.flush(start_position);
    let trail_start_position = target_end_position + 2;
    let value = substring(state.wiki_text, target_start_position, target_end_position);
    let target = trim_end(value);
    match namespace {
        Some(Namespace::Category) => {
            let ordinal: Vec<Node> = Vec::new();
            proof {
                lemma_node_views_empty(ordinal@);
            }
            state.push_node(
                Node::Category {
                    start: start_position,
                    end: trail_start_position,
                    target,
                    ordinal,
                },
            );
            state.scan_position = trail_start_position;
            state.flushed_position = trail_start_position;
        },
        Some(Namespace::File) => {
            let text: Vec<Node> = Vec::new();
            proof {
                lemma_node_views_empty(text@);
            }
            state.push_node(
                Node::Image { start: start_position, end: trail_start_position, target, text },
            );
            state.scan_position = trail_start_position;
            state.flushed_position = trail_start_position;
        },
        None => {
            let trail_end_position = link_trail_end(
                state.wiki_text,
                configuration,
                trail_start_position,
            );
            let literal = Node::Text {
                start: target_start_position,
                end: target_end_position,
                value,
            };
            let reparsed = if should_reparse {
                proof {
                    lemma_boundary_in_prefix(
                        state@.text,
                        target_start_position as int,
                        target_end_position as int,
                    );
                }
                let prefix = substring(state.wiki_text, 0, target_end_position);
                Some(parse_from(configuration, prefix, target_start_position).nodes)
            } else {
                None
            };
            let shown = literal_or_reparsed(reparsed, literal);
            let text = with_trail(state, shown, trail_start_position, trail_end_position);
            state.push_node(
                Node::Link {
                    start: start_position,
                    end: trail_end_position,
                    target,
                    text,
                    reparsed: should_reparse,
                },
            );
            state.scan_position = trail_end_position;
            state.flushed_position = trail_end_position;
        },
    }
}

/// Whether the innermost open construct is a link that another link cannot
/// stand in.
fn in_plain_link(state: &State) -> (plain: bool)
    ensures
        plain == state@.in_plain_link(),
{
    let stack_length = state.stack.len();
    if stack_length == 0 {
        return false;
    }
    proof {
        crate::state::lemma_open_node_views_drop_last(state.stack@);
    }
    match &state.stack[stack_length - 1].type_ {
        OpenNodeType::Link { namespace: Some(Namespace::File), .. } => false,
        OpenNodeType::Link { .. } => true,
        _ => false,
    }
}

/// Handles the brackets under the cursor that open a link: scans the
/// target, and ends the link, or opens it for its text, or reports it as
/// invalid. In a link that is not a link to a file, the outer link is given
/// up instead. A sound state stays sound.
pub fn parse_link_start<'a>(state: &mut State<'a>, configuration: &Configuration)
    requires
        old(state)@.wf(),
        old(state)@.at(OPEN_BRACKET),
        old(state)@.ahead(1, OPEN_BRACKET),
    ensures
        final(state)@ == old(state)@.link_start(
            configuration@,
            reparsed_target(old(state)@, configuration@),
        ),
        final(state)@.wf(),
        final(state).wiki_text == old(state).wiki_text,
        forall|origin: int|
            old(state)@.sound(origin) ==> #[trigger] final(state)@.sound(origin),
    decreases old(state)@.text.len(), 1int,
{
    proof {
        lemma_reparsed_sound(state@, configuration@);
        assert forall|origin: int| #[trigger] state@.sound(origin) implies state@.link_start(
            configuration@,
            reparsed_target(state@, configuration@),
        ).sound(origin) by {
            state@.lemma_link_start_sound(
                origin,
                configuration@,
                reparsed_target(state@, configuration@),
            );
        }
    }
    proof {
        lemma_ascii_is_boundary(state@.text, state.scan_position as int);
    }
    if in_plain_link(state) {
        let scan_position = state.scan_position;
        let open_node = state.pop_open_node();
        state.warn(open_node.start, scan_position, WarningMessage::InvalidLinkSyntax);
        proof {
            assert(old(state)@.stack.last().wf(state@.text));
            assert forall|i: int| 0 <= i < state@.stack.len() implies (
            #[trigger] state@.stack[i]).start + 2 <= open_node.start by {
                assert(state@.stack[i] == old(state)@.stack[i]);
            }
        }
        state.rewind(open_node.nodes, open_node.start);
        proof {
            assert(state@ == old(state)@.link_start(
                configuration@,
                reparsed_target(old(state)@, configuration@),
            ));
        }
        return ;
    }
    proof {
        let text = state@.text;
        state@.lemma_link_target_start(configuration@);
        lemma_after_ascii_is_boundary(text, state.scan_position + 1);
        lemma_skip_blanks_forwards(text, state.scan_position + 2);
        lemma_end_is_boundary(text);
        lemma_scan_target(text, state@.link_target_start(configuration@), 0, 0, false);
    }
    let name_start_position = state.skip_whitespace_forwards(state.scan_position + 2);
    let tail = substring(state.wiki_text, name_start_position, byte_length(state.wiki_text));
    let (length, namespace) = match configuration.find_namespace(tail) {
        Ok((length, namespace)) => (length, Some(namespace)),
        Err(length) => (length, None),
    };
    let target_start_position = name_start_position + length;
    let (kind, target_end_position, should_reparse) = scan_link_target(
        state,
        target_start_position,
    );
    match kind {
        TargetEnd::Invalid => {
            parse_unexpected_end(state, target_end_position);
        },
        TargetEnd::Closed => {
            parse_end(
                state,
                configuration,
                target_start_position,
                target_end_position,
                namespace,
                should_reparse,
            );
        },
        TargetEnd::Piped => {
            proof {
                lemma_ascii_is_boundary(state@.text, target_end_position as int);
                lemma_after_ascii_is_boundary(state@.text, target_end_position as int);
            }
            let target = substring(state.wiki_text, target_start_position, target_end_position);
            state.push_open_node(
                OpenNodeType::Link { namespace, should_reparse, target },
                target_end_position + 1,
            );
        },
    }
    proof {
        assert(state@ == old(state)@.link_start(
            configuration@,
            reparsed_target(old(state)@, configuration@),
        ));
    }
}

} // verus!
