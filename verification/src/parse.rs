//! The parse of a whole text: the loop that looks at the byte under the
//! cursor and hands over to the routine that the byte calls for.
use crate::configuration::{Configuration, ConfigurationModel};
use crate::link::{lemma_scan_target, parse_link_end, parse_link_start, TargetScan};
use crate::node::{node_views, Node, NodeModel, Warning, WarningMessage};
use crate::state::{Innermost, OpenNode, OpenNodeType, State, StateModel};
use crate::template::{
    parse_parameter_name_end, parse_parameter_separator, parse_template_end,
    parse_template_separator, parse_template_start,
};
use crate::spans::{
    lemma_sound_in_longer, lemma_tiles_spanned, sound_in, spanned, tiles, warning_sound,
};
use crate::text::{
    boundary, byte_at, byte_length, lemma_ascii_is_boundary, lemma_boundary_in_prefix,
    lemma_end_is_boundary, lemma_str_valid, CLOSE_BRACE, CLOSE_BRACKET, EQUALS, OPEN_BRACE,
    OPEN_BRACKET, PIPE,
};
use vstd::utf8::valid_utf8;
use vstd::prelude::*;
use vstd::string::StringSliceAdditionalSpecFns;

verus! {

/// What a parse gives: the nodes of the text and the issues found in it.
#[derive(Debug)]
pub struct Output<'a> {
    pub nodes: Vec<Node<'a>>,
    pub warnings: Vec<Warning>,
}

impl StateModel {
    /// The cursor has reached the end of the text and nothing is open.
    pub open spec fn finished(self) -> bool {
        self.scan_position >= self.text.len() && self.stack.len() == 0
    }

    /// What the byte under the cursor calls for. Two brackets open a link
    /// and, in a link, two closing brackets close it. Two braces open a
    /// template or a parameter, two closing braces end one. A `|` separates
    /// the parts of a template or a parameter, an `=` may end the name of
    /// an argument. At the end of the text the innermost open construct is
    /// reported and given up. Any other byte is passed over.
    pub open spec fn dispatch(
        self,
        configuration: ConfigurationModel,
        reparsed: Seq<NodeModel>,
    ) -> StateModel {
        let passed = self.scan_to(self.scan_position + 1);
        match byte_at(self.text, self.scan_position) {
            None => if self.stack.len() == 0 {
                self
            } else {
                self.warn(
                    self.stack.last().start,
                    self.scan_position,
                    WarningMessage::MissingEndTagRewinding,
                ).abandon()
            },
            Some(byte) => if byte == OPEN_BRACKET {
                if self.ahead(1, OPEN_BRACKET) {
                    self.link_start(configuration, reparsed)
                } else {
                    passed
                }
            } else if byte == CLOSE_BRACKET {
                if self.in_link() && self.ahead(1, CLOSE_BRACKET) {
                    self.closed_link(configuration)
                } else {
                    passed
                }
            } else if byte == OPEN_BRACE {
                if self.ahead(1, OPEN_BRACE) {
                    self.template_start()
                } else {
                    passed
                }
            } else if byte == CLOSE_BRACE {
                if self.ahead(1, CLOSE_BRACE) {
                    self.template_end()
                } else {
                    passed
                }
            } else if byte == PIPE {
                if self.in_template() {
                    self.template_separator()
                } else if self.in_parameter() {
                    self.parameter_separator()
                } else {
                    passed
                }
            } else if byte == EQUALS {
                self.parameter_name_end()
            } else {
                passed
            },
        }
    }

    /// One step of the parse: what the byte under the cursor calls for;
    /// where that returns the cursor to the start of a construct given up,
    /// the first byte of the construct is passed over.
    pub open spec fn step(
        self,
        configuration: ConfigurationModel,
        reparsed: Seq<NodeModel>,
    ) -> StateModel {
        self.follow(self.dispatch(configuration, reparsed))
    }

    /// A step keeps the warnings found so far, in their order.
    pub proof fn lemma_step_keeps_warnings(
        self,
        configuration: ConfigurationModel,
        reparsed: Seq<NodeModel>,
    )
        ensures
            self.warnings.is_prefix_of(self.step(configuration, reparsed).warnings),
    {
        let next = self.step(configuration, reparsed);
        assert(next.warnings == self.warnings || next.warnings.drop_last() == self.warnings);
    }

    /// Every step of an unfinished parse leaves less to do.
    pub proof fn lemma_dispatch(self, configuration: ConfigurationModel, reparsed: Seq<NodeModel>)
        requires
            self.wf(),
            !self.finished(),
        ensures
            self.advances_to(self.dispatch(configuration, reparsed)),
    {
        let next = self.dispatch(configuration, reparsed);
        let passed = self.scan_to(self.scan_position + 1);
        match byte_at(self.text, self.scan_position) {
            None => {
                assert(self.stack.last().wf(self.text));
                assert(next.wf());
                self.lemma_rewind(next);
            },
            Some(byte) => {
                assert(passed.wf());
                self.lemma_advance(passed);
                if byte == OPEN_BRACKET {
                    if self.ahead(1, OPEN_BRACKET) {
                        self.lemma_link_start(configuration, reparsed);
                    }
                } else if byte == CLOSE_BRACKET {
                    if self.in_link() && self.ahead(1, CLOSE_BRACKET) {
                        self.lemma_closed_link(configuration);
                    }
                } else if byte == OPEN_BRACE {
                    if self.ahead(1, OPEN_BRACE) {
                        self.lemma_template_start();
                    }
                } else if byte == CLOSE_BRACE {
                    if self.ahead(1, CLOSE_BRACE) {
                        self.lemma_template_end();
                    }
                } else if byte == PIPE {
                    if self.in_template() {
                        self.lemma_template_separator();
                    } else if self.in_parameter() {
                        self.lemma_parameter_separator();
                    }
                } else if byte == EQUALS {
                    self.lemma_parameter_name_end();
                }
            },
        }
    }
}

/// The nodes of the target of the link that opens under the cursor of
/// `state`, parsed as text of its own: the parse of the text up to the end
/// of the target, from the start of the target.
pub open spec fn reparsed_target(state: StateModel, configuration: ConfigurationModel) -> Seq<
    NodeModel,
>
    decreases state.text.len(), 0int, 0nat,
{
    if state.wf() && state.at(OPEN_BRACKET) && state.ahead(1, OPEN_BRACKET) {
        match state.link_scan(configuration) {
            TargetScan::Closed { end, .. } => {
                proof {
                    state.lemma_link_target_start(configuration);
                    lemma_scan_target(
                        state.text,
                        state.link_target_start(configuration),
                        0,
                        0,
                        false,
                    );
                }
                parse_model(
                    configuration,
                    state.text.subrange(0, end),
                    state.link_target_start(configuration),
                ).nodes
            },
            _ => Seq::empty(),
        }
    } else {
        Seq::empty()
    }
}

/// The state in which the parse that stands at `state` ends.
pub open spec fn run(state: StateModel, configuration: ConfigurationModel) -> StateModel
    decreases state.text.len(), 1int, state.measure(),
{
    if state.wf() && !state.finished() {
        let reparsed = reparsed_target(state, configuration);
        proof {
            state.lemma_dispatch(configuration, reparsed);
        }
        run(state.step(configuration, reparsed), configuration)
    } else {
        state
    }
}

/// The state at the end of the parse of `text` from `start`: the parse
/// runs until the end of the text is reached with nothing open, and the
/// text that is then pending is flushed.
pub open spec fn parse_model(
    configuration: ConfigurationModel,
    text: Seq<u8>,
    start: int,
) -> StateModel
    decreases text.len(), 2int, 0nat,
{
    run(StateModel::initial(text, start), configuration).flush(text.len() as int)
}

/// The nodes of a link target that is parsed again are sound and lie in
/// the target.
pub proof fn lemma_reparsed_sound(state: StateModel, configuration: ConfigurationModel)
    requires
        state.wf(),
        state.at(OPEN_BRACKET),
        state.ahead(1, OPEN_BRACKET),
    ensures
        state.reparsed_sound(configuration, reparsed_target(state, configuration)),
    decreases state.text.len(), 0int, 0nat,
{
    let text = state.text;
    match state.link_scan(configuration) {
        TargetScan::Closed { end, .. } => {
            let start = state.link_target_start(configuration);
            state.lemma_link_target_start(configuration);
            lemma_scan_target(text, start, 0, 0, false);
            lemma_ascii_is_boundary(text, end);
            lemma_boundary_in_prefix(text, start, end);
            let prefix = text.subrange(0, end);
            lemma_parse_sound(configuration, prefix, start);
            lemma_sound_in_longer(
                parse_model(configuration, prefix, start).nodes,
                text,
                end,
                start,
                end,
            );
        },
        _ => {},
    }
}

/// A parse keeps a sound state sound, and ends at the end of the text
/// with nothing open.
pub proof fn lemma_run_sound(state: StateModel, configuration: ConfigurationModel, origin: int)
    requires
        state.wf(),
        state.sound(origin),
    ensures
        run(state, configuration).wf(),
        run(state, configuration).sound(origin),
        run(state, configuration).finished(),
        run(state, configuration).text == state.text,
    decreases state.text.len(), 1int, state.measure(),
{
    if !state.finished() {
        let reparsed = reparsed_target(state, configuration);
        state.lemma_dispatch(configuration, reparsed);
        if state.at(OPEN_BRACKET) && state.ahead(1, OPEN_BRACKET) {
            lemma_reparsed_sound(state, configuration);
        }
        state.lemma_step_sound(origin, configuration, reparsed);
        lemma_run_sound(state.step(configuration, reparsed), configuration, origin);
    }
}

/// The nodes of a parse lie side by side from the start of the parse to the
/// end of the text, each of them is sound, their spans make up the text
/// that was parsed, and the warnings lie in the text.
pub proof fn lemma_parse_sound(configuration: ConfigurationModel, text: Seq<u8>, start: int)
    requires
        valid_utf8(text),
        text.len() + 3 <= usize::MAX,
        boundary(text, start),
    ensures
        tiles(parse_model(configuration, text, start).nodes, start, text.len() as int),
        sound_in(parse_model(configuration, text, start).nodes, text, start, text.len() as int),
        spanned(parse_model(configuration, text, start).nodes, text) == text.subrange(
            start,
            text.len() as int,
        ),
        forall|i: int|
            0 <= i < parse_model(configuration, text, start).warnings.len() ==> warning_sound(
                #[trigger] parse_model(configuration, text, start).warnings[i],
                text.len() as int,
            ),
    decreases text.len(), 2int, 0nat,
{
    let initial = StateModel::initial(text, start);
    assert(initial.sound(start));
    lemma_run_sound(initial, configuration, start);
    run(initial, configuration).lemma_flush_sound(start, text.len() as int);
    lemma_tiles_spanned(
        parse_model(configuration, text, start).nodes,
        text,
        start,
        text.len() as int,
    );
}

/// Parses `wiki_text` from `start_position` to its end. The nodes lie side
/// by side from `start_position` to the end of the text, each of them is
/// sound, and the warnings lie in the text.
pub fn parse_from<'a>(
    configuration: &Configuration,
    wiki_text: &'a str,
    start_position: usize,
) -> (output: Output<'a>)
    requires
        wiki_text.spec_bytes().len() + 3 <= usize::MAX,
        boundary(wiki_text.spec_bytes(), start_position as int),
    ensures
        node_views(output.nodes@) == parse_model(
            configuration@,
            wiki_text.spec_bytes(),
            start_position as int,
        ).nodes,
        output.warnings@ == parse_model(
            configuration@,
            wiki_text.spec_bytes(),
            start_position as int,
        ).warnings,
        tiles(
            node_views(output.nodes@),
            start_position as int,
            wiki_text.spec_bytes().len() as int,
        ),
        sound_in(
            node_views(output.nodes@),
            wiki_text.spec_bytes(),
            start_position as int,
            wiki_text.spec_bytes().len() as int,
        ),
        forall|i: int|
            0 <= i < output.warnings@.len() ==> warning_sound(
                #[trigger] output.warnings@[i],
                wiki_text.spec_bytes().len() as int,
            ),
    decreases wiki_text.spec_bytes().len(), 2int,
{
    proof {
        lemma_str_valid(wiki_text);
        lemma_parse_sound(configuration@, wiki_text.spec_bytes(), start_position as int);
    }
    let mut state = State::new(wiki_text, start_position);
    let ghost initial = state@;
    let length = byte_length(wiki_text);
    loop
        invariant
            state@.wf(),
            state.wiki_text == wiki_text,
            length == state@.text.len(),
            run(state@, configuration@) == run(initial, configuration@),
        ensures
            state@ == run(initial, configuration@),
            state@.wf(),
            state.wiki_text == wiki_text,
            state.scan_position == length,
        decreases state@.measure(),
    {
        let ghost before = state@;
        let ghost reparsed = reparsed_target(before, configuration@);
        proof {
            if !before.finished() {
                before.lemma_dispatch(configuration@, reparsed);
            }
        }
        let scan_position = state.scan_position;
        match state.get_byte(scan_position) {
            None => {
                if state.stack.len() == 0 {
                    break ;
                }
                let open_node = state.pop_open_node();
                state.warn(
                    open_node.start,
                    scan_position,
                    WarningMessage::MissingEndTagRewinding,
                );
                proof {
                    assert(before.stack.last().wf(before.text));
                    assert forall|i: int| 0 <= i < state@.stack.len() implies (
                    #[trigger] state@.stack[i]).start + 2 <= open_node.start by {
                        assert(state@.stack[i] == before.stack[i]);
                    }
                }
                state.rewind(open_node.nodes, open_node.start);
            },
            Some(byte) => {
                if byte == OPEN_BRACKET && state.is_byte(scan_position + 1, OPEN_BRACKET) {
                    parse_link_start(&mut state, configuration);
                } else if byte == CLOSE_BRACKET && state.is_byte(scan_position + 1, CLOSE_BRACKET) {
                    match state.innermost() {
                        Innermost::Link => {
                            let OpenNode { start, nodes, type_ } = state.pop_open_node();
                            match type_ {
                                OpenNodeType::Link { namespace, should_reparse, target } => {
                                    parse_link_end(
                                        &mut state,
                                        configuration,
                                        start,
                                        nodes,
                                        namespace,
                                        target,
                                        should_reparse,
                                    );
                                },
                                _ => {
                                    state.scan_position = scan_position + 1;
                                },
                            }
                        },
                        _ => {
                            state.scan_position = scan_position + 1;
                        },
                    }
                } else if byte == OPEN_BRACE && state.is_byte(scan_position + 1, OPEN_BRACE) {
                    parse_template_start(&mut state);
                } else if byte == CLOSE_BRACE && state.is_byte(scan_position + 1, CLOSE_BRACE) {
                    parse_template_end(&mut state);
                } else if byte == PIPE {
                    match state.innermost() {
                        Innermost::Template => {
                            parse_template_separator(&mut state);
                        },
                        Innermost::Parameter => {
                            parse_parameter_separator(&mut state);
                        },
                        _ => {
                            state.scan_position = scan_position + 1;
                        },
                    }
                } else if byte == EQUALS {
                    parse_parameter_name_end(&mut state);
                } else {
                    state.scan_position = scan_position + 1;
                }
            },
        }
        proof {
            assert(state@ == before.dispatch(configuration@, reparsed));
        }
        if state.scan_position <= scan_position {
            state.scan_position += 1;
        }
        proof {
            assert(state@ == before.step(configuration@, reparsed));
        }
    }
    proof {
        lemma_end_is_boundary(state@.text);
    }
    state.flush(length);
    Output { nodes: state.nodes, warnings: state.warnings }
}

/// Parses `wiki_text`. The nodes lie side by side from the start of the
/// text to its end, each of them is sound, and the warnings lie in the
/// text.
pub fn parse<'a>(configuration: &Configuration, wiki_text: &'a str) -> (output: Output<'a>)
    requires
        wiki_text.spec_bytes().len() + 3 <= usize::MAX,
    ensures
        node_views(output.nodes@) == parse_model(configuration@, wiki_text.spec_bytes(), 0).nodes,
        output.warnings@ == parse_model(configuration@, wiki_text.spec_bytes(), 0).warnings,
        tiles(node_views(output.nodes@), 0, wiki_text.spec_bytes().len() as int),
        sound_in(
            node_views(output.nodes@),
            wiki_text.spec_bytes(),
            0,
            wiki_text.spec_bytes().len() as int,
        ),
        forall|i: int|
            0 <= i < output.warnings@.len() ==> warning_sound(
                #[trigger] output.warnings@[i],
                wiki_text.spec_bytes().len() as int,
            ),
{
    proof {
        lemma_str_valid(wiki_text);
        lemma_end_is_boundary(wiki_text.spec_bytes());
    }
    parse_from(configuration, wiki_text, 0)
}

} // verus!
