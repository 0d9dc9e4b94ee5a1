//! Templates `{{name|argument|name=value}}` and parameters
//! `{{{name|default}}}`: how they open, how their parts are separated and
//! how they close.
use crate::node::{
    lemma_node_views_empty, lemma_parameter_views_drop_last, lemma_parameter_views_empty,
    lemma_parameter_views_push, node_views, parameter_views, Node, NodeModel, Parameter,
    ParameterModel, WarningMessage,
};
use crate::state::{
    Innermost, OpenNode, OpenNodeModel, OpenNodeType, OpenNodeTypeModel, State, StateModel,
};
use crate::text::{
    boundary, has_byte, lemma_after_ascii_is_boundary, lemma_ascii_is_boundary,
    lemma_skip_blanks_backwards, lemma_skip_blanks_forwards, skip_blanks_backwards,
    skip_blanks_forwards, CLOSE_BRACE, EQUALS, OPEN_BRACE, PIPE,
};
use vstd::pervasive::unreached;
use vstd::prelude::*;

verus! {

/// Whether the first pair of closing braces at or after `position` starts a
/// run of three.
pub open spec fn closes_with_three(text: Seq<u8>, position: int) -> bool
    decreases text.len() - position,
{
    if position < 0 || position >= text.len() {
        false
    } else if text[position] == CLOSE_BRACE && has_byte(text, position + 1, CLOSE_BRACE) {
        has_byte(text, position + 2, CLOSE_BRACE)
    } else {
        closes_with_three(text, position + 1)
    }
}

/// Three closing braces stand at `at`, at or after `position`, with no pair
/// of closing braces between `position` and them.
pub open spec fn three_close_first(text: Seq<u8>, position: int, at: int) -> bool {
    &&& position <= at
    &&& has_byte(text, at, CLOSE_BRACE)
    &&& has_byte(text, at + 1, CLOSE_BRACE)
    &&& has_byte(text, at + 2, CLOSE_BRACE)
    &&& forall|before: int|
        position <= before < at ==> !(has_byte(text, before, CLOSE_BRACE) && #[trigger] has_byte(
            text,
            before + 1,
            CLOSE_BRACE,
        ))
}

/// The first pair of closing braces at or after `position` starts a run of
/// three exactly if three closing braces stand somewhere at or after
/// `position` with no pair of closing braces before them.
pub proof fn lemma_closes_with_three(text: Seq<u8>, position: int)
    requires
        0 <= position,
    ensures
        closes_with_three(text, position) <==> exists|at: int|
            #[trigger] three_close_first(text, position, at),
    decreases text.len() - position,
{
    if position >= text.len() {
    } else if text[position] == CLOSE_BRACE && has_byte(text, position + 1, CLOSE_BRACE) {
        if has_byte(text, position + 2, CLOSE_BRACE) {
            assert(three_close_first(text, position, position));
        } else {
            assert forall|at: int| !#[trigger] three_close_first(text, position, at) by {
                if position < at {
                    assert(has_byte(text, position + 1, CLOSE_BRACE));
                }
            }
        }
    } else {
        lemma_closes_with_three(text, position + 1);
        if closes_with_three(text, position + 1) {
            let at = choose|at: int| #[trigger] three_close_first(text, position + 1, at);
            assert(three_close_first(text, position, at));
        } else {
            assert forall|at: int| !#[trigger] three_close_first(text, position, at) by {
                if three_close_first(text, position, at) {
                    assert(three_close_first(text, position + 1, at));
                }
            }
        }
    }
}

impl StateModel {
    /// The braces under the cursor open a parameter: there are three of
    /// them, unless there are five and the first closing braces after them
    /// come in three, so that the inner construct is the parameter.
    pub open spec fn opens_parameter(self) -> bool {
        &&& self.ahead(2, OPEN_BRACE)
        &&& !(self.ahead(3, OPEN_BRACE) && self.ahead(4, OPEN_BRACE) && closes_with_three(
            self.text,
            self.scan_position + 5,
        ))
    }

    /// The state with `type_` as what is gathered of the innermost open
    /// construct, no nodes, and the cursor and flush boundary at `position`.
    pub open spec fn continue_with(self, type_: OpenNodeTypeModel, position: int) -> StateModel {
        StateModel {
            stack: self.stack.drop_last().push(OpenNodeModel { type_, ..self.stack.last() }),
            nodes: Seq::empty(),
            scan_position: position,
            flushed_position: position,
            ..self
        }
    }

    /// The innermost open construct is closed as `node`, which joins the
    /// nodes saved with the construct, and the parse goes on at `position`.
    pub open spec fn close_with(self, node: NodeModel, position: int) -> StateModel {
        StateModel {
            stack: self.stack.drop_last(),
            nodes: self.stack.last().nodes.push(node),
            scan_position: position,
            flushed_position: position,
            ..self
        }
    }

    /// The innermost open construct is given up: the parse returns to
    /// where it started, with the nodes saved with it.
    pub open spec fn abandon(self) -> StateModel {
        self.pop().rewind(self.stack.last().nodes, self.stack.last().start)
    }

    /// A template or a parameter opens at the cursor; the blanks after the
    /// braces are skipped.
    pub open spec fn template_start(self) -> StateModel {
        if self.opens_parameter() {
            self.push_open_node(
                OpenNodeTypeModel::Parameter { name: None, default: None },
                skip_blanks_forwards(self.text, self.scan_position + 3),
            )
        } else {
            self.push_open_node(
                OpenNodeTypeModel::Template { name: None, parameters: Seq::empty() },
                skip_blanks_forwards(self.text, self.scan_position + 2),
            )
        }
    }

    /// The nodes of the part that ends under the cursor: what has been
    /// produced, and the pending text without the blanks at its end.
    pub open spec fn trimmed_part(self) -> Seq<NodeModel> {
        self.flush(skip_blanks_backwards(self.text, self.scan_position)).nodes
    }

    /// The nodes of the part that ends under the cursor, blanks included.
    pub open spec fn whole_part(self) -> Seq<NodeModel> {
        self.flush(self.scan_position).nodes
    }

    /// The arguments of the open template once the part under way has
    /// ended: it is the value of the last argument, which ends before the
    /// blanks in front of the cursor.
    pub open spec fn ended_argument(self, parameters: Seq<ParameterModel>) -> Seq<ParameterModel> {
        parameters.drop_last().push(
            ParameterModel {
                end: skip_blanks_backwards(self.text, self.scan_position),
                value: self.trimmed_part(),
                ..parameters.last()
            },
        )
    }

    /// A `|` in a template ends the name of the template, or else the value
    /// of its last argument, and starts a new argument after the blanks
    /// that follow.
    pub open spec fn template_separator(self) -> StateModel
        recommends
            self.in_template(),
    {
        let next = skip_blanks_forwards(self.text, self.scan_position + 1);
        let started = ParameterModel { start: next, end: 0, name: None, value: Seq::empty() };
        match self.stack.last().type_ {
            OpenNodeTypeModel::Template { name: None, parameters } => self.continue_with(
                OpenNodeTypeModel::Template {
                    name: Some(self.trimmed_part()),
                    parameters: parameters.push(started),
                },
                next,
            ),
            OpenNodeTypeModel::Template { name: Some(name), parameters } => self.continue_with(
                OpenNodeTypeModel::Template {
                    name: Some(name),
                    parameters: self.ended_argument(parameters).push(started),
                },
                next,
            ),
            _ => self,
        }
    }

    /// The cursor is in an argument of a template that has no name yet.
    pub open spec fn in_unnamed_argument(self) -> bool {
        &&& self.stack.len() > 0
        &&& self.stack.last().type_ matches OpenNodeTypeModel::Template {
            name: Some(_),
            parameters,
        }
        &&& parameters.len() > 0
        &&& parameters.last().name is None
    }

    /// An `=` in an argument without a name ends the name of the argument;
    /// its value starts after the blanks that follow. Any other `=` is
    /// passed over.
    pub open spec fn parameter_name_end(self) -> StateModel {
        if self.in_unnamed_argument() {
            let parameters = self.stack.last().type_->Template_parameters;
            self.continue_with(
                OpenNodeTypeModel::Template {
                    name: self.stack.last().type_->Template_name,
                    parameters: parameters.drop_last().push(
                        ParameterModel { name: Some(self.trimmed_part()), ..parameters.last() },
                    ),
                },
                skip_blanks_forwards(self.text, self.scan_position + 1),
            )
        } else {
            self.scan_to(self.scan_position + 1)
        }
    }

    /// A `|` in a parameter ends its name. A later one ends a default value
    /// and is reported, since a parameter has one default at most.
    pub open spec fn parameter_separator(self) -> StateModel
        recommends
            self.in_parameter(),
    {
        match self.stack.last().type_ {
            OpenNodeTypeModel::Parameter { name: None, default } => self.continue_with(
                OpenNodeTypeModel::Parameter { name: Some(self.trimmed_part()), default },
                self.scan_position + 1,
            ),
            OpenNodeTypeModel::Parameter { name: Some(name), default } => self.warn(
                self.scan_position,
                self.scan_position + 1,
                WarningMessage::UselessTextInParameter,
            ).continue_with(
                OpenNodeTypeModel::Parameter { name: Some(name), default: Some(self.whole_part()) },
                self.scan_position + 1,
            ),
            _ => self,
        }
    }

    /// Whether an end tag under the cursor can close a construct that
    /// encloses the innermost one: a template, or a parameter where three
    /// braces stand under the cursor.
    pub open spec fn closes_enclosing(self) -> bool {
        exists|i: int|
            0 <= i < self.stack.len() - 1 && match (#[trigger] self.stack[i]).type_ {
                OpenNodeTypeModel::Template { .. } => true,
                OpenNodeTypeModel::Parameter { .. } => self.ahead(2, CLOSE_BRACE),
                OpenNodeTypeModel::Link { .. } => false,
            }
    }

    /// Closing braces under the cursor. In a parameter, three braces close
    /// it, and two give it up. In a template, two braces close it. Anywhere
    /// else the braces are reported and passed over.
    pub open spec fn template_end(self) -> StateModel {
        if self.stack.len() == 0 {
            self.warn(
                self.scan_position,
                self.scan_position + 2,
                WarningMessage::UnexpectedEndTag,
            ).scan_to(self.scan_position + 2)
        } else {
            let open_node = self.stack.last();
            match open_node.type_ {
                OpenNodeTypeModel::Parameter { name, default } => if self.ahead(2, CLOSE_BRACE) {
                    let end = self.scan_position + 3;
                    let node = match name {
                        Some(name) => NodeModel::Parameter {
                            start: open_node.start,
                            end,
                            name,
                            default: Some(
                                match default {
                                    Some(default) => default,
                                    None => self.whole_part(),
                                },
                            ),
                        },
                        None => NodeModel::Parameter {
                            start: open_node.start,
                            end,
                            name: self.trimmed_part(),
                            default: None,
                        },
                    };
                    self.close_with(node, end)
                } else {
                    self.warn(
                        self.scan_position,
                        self.scan_position + 2,
                        WarningMessage::UnexpectedEndTagRewinding,
                    ).abandon()
                },
                OpenNodeTypeModel::Template { name, parameters } => {
                    let end = self.scan_position + 2;
                    let node = match name {
                        Some(name) => NodeModel::Template {
                            start: open_node.start,
                            end,
                            name,
                            parameters: self.ended_argument(parameters),
                        },
                        None => NodeModel::Template {
                            start: open_node.start,
                            end,
                            name: self.trimmed_part(),
                            parameters,
                        },
                    };
                    self.close_with(node, end)
                },
                OpenNodeTypeModel::Link { .. } => self.warn(
                    self.scan_position,
                    self.scan_position + 2,
                    if self.closes_enclosing() {
                        WarningMessage::UnexpectedEndTagRewinding
                    } else {
                        WarningMessage::UnexpectedEndTag
                    },
                ).scan_to(self.scan_position + 2),
            }
        }
    }
}

impl StateModel {
    /// Where the cursor stands on an ASCII byte, the positions around it
    /// are boundaries, and so are those that end the blanks before it and
    /// after it.
    pub proof fn lemma_cursor_on_ascii(self)
        requires
            self.wf(),
            self.scan_position < self.text.len(),
            self.text[self.scan_position] < 0x80,
        ensures
            boundary(self.text, self.scan_position),
            boundary(self.text, self.scan_position + 1),
            boundary(self.text, skip_blanks_backwards(self.text, self.scan_position)),
            boundary(self.text, skip_blanks_forwards(self.text, self.scan_position + 1)),
            skip_blanks_backwards(self.text, self.scan_position) <= self.scan_position,
            self.scan_position + 1 <= skip_blanks_forwards(self.text, self.scan_position + 1)
                <= self.text.len(),
    {
        lemma_ascii_is_boundary(self.text, self.scan_position);
        lemma_after_ascii_is_boundary(self.text, self.scan_position);
        lemma_skip_blanks_backwards(self.text, self.scan_position);
        lemma_skip_blanks_forwards(self.text, self.scan_position + 1);
    }
}

impl StateModel {
    /// Opening a template or a parameter leaves less to do.
    pub proof fn lemma_template_start(self)
        requires
            self.wf(),
            self.at(OPEN_BRACE),
            self.ahead(1, OPEN_BRACE),
        ensures
            self.advances_to(self.template_start()),
    {
        let next = self.template_start();
        self.lemma_cursor_on_ascii();
        lemma_after_ascii_is_boundary(self.text, self.scan_position + 1);
        lemma_skip_blanks_forwards(self.text, self.scan_position + 2);
        if self.ahead(2, OPEN_BRACE) {
            lemma_after_ascii_is_boundary(self.text, self.scan_position + 2);
            lemma_skip_blanks_forwards(self.text, self.scan_position + 3);
        }
        assert(next.stack.drop_last() =~= self.stack);
        assert(next.wf());
        self.lemma_open(next);
    }

    /// A separator in a template leaves less to do.
    pub proof fn lemma_template_separator(self)
        requires
            self.wf(),
            self.at(PIPE),
            self.in_template(),
        ensures
            self.advances_to(self.template_separator()),
    {
        let next = self.template_separator();
        self.lemma_cursor_on_ascii();
        assert(next.wf());
        self.lemma_advance(next);
    }

    /// An `=` leaves less to do.
    pub proof fn lemma_parameter_name_end(self)
        requires
            self.wf(),
            self.at(EQUALS),
        ensures
            self.advances_to(self.parameter_name_end()),
    {
        let next = self.parameter_name_end();
        self.lemma_cursor_on_ascii();
        assert(next.wf());
        self.lemma_advance(next);
    }

    /// A separator in a parameter leaves less to do.
    pub proof fn lemma_parameter_separator(self)
        requires
            self.wf(),
            self.at(PIPE),
            self.in_parameter(),
        ensures
            self.advances_to(self.parameter_separator()),
    {
        let next = self.parameter_separator();
        self.lemma_cursor_on_ascii();
        assert(next.wf());
        self.lemma_advance(next);
    }

    /// Closing braces leave less to do.
    pub proof fn lemma_template_end(self)
        requires
            self.wf(),
            self.at(CLOSE_BRACE),
            self.ahead(1, CLOSE_BRACE),
        ensures
            self.advances_to(self.template_end()),
    {
        let next = self.template_end();
        self.lemma_cursor_on_ascii();
        lemma_after_ascii_is_boundary(self.text, self.scan_position + 1);
        if self.ahead(2, CLOSE_BRACE) {
            lemma_after_ascii_is_boundary(self.text, self.scan_position + 2);
        }
        if self.in_parameter() {
            if self.ahead(2, CLOSE_BRACE) {
                assert(next.wf());
                self.lemma_close(next);
            } else {
                assert(self.stack.last().wf(self.text));
                assert(next.wf());
                self.lemma_rewind(next);
            }
        } else if self.in_template() {
            assert(next.wf());
            self.lemma_close(next);
        } else {
            assert(next.wf());
            self.lemma_advance(next);
        }
    }
}

/// Whether the first pair of closing braces at or after `position` starts a
/// run of three.
fn first_close_has_three(state: &State, position: usize) -> (three: bool)
    requires
        state@.wf(),
    ensures
        three == closes_with_three(state@.text, position as int),
{
    let mut s = position;
    while state.get_byte(s).is_some()
        invariant
            state@.wf(),
            position <= s,
            closes_with_three(state@.text, position as int) == closes_with_three(
                state@.text,
                s as int,
            ),
        decreases state@.text.len() - s,
    {
        if state.is_byte(s, CLOSE_BRACE) && state.is_byte(s + 1, CLOSE_BRACE) {
            return state.is_byte(s + 2, CLOSE_BRACE);
        }
        s += 1;
    }
    false
}

/// Opens the template or parameter whose braces stand under the cursor. A
/// sound state stays sound.
pub fn parse_template_start(state: &mut State)
    requires
        old(state)@.wf(),
        old(state)@.at(OPEN_BRACE),
        old(state)@.ahead(1, OPEN_BRACE),
    ensures
        final(state)@ == old(state)@.template_start(),
        final(state)@.wf(),
        final(state).wiki_text == old(state).wiki_text,
        forall|origin: int|
            old(state)@.sound(origin) ==> #[trigger] final(state)@.sound(origin),
{
    proof {
        assert forall|origin: int| #[trigger] state@.sound(origin) implies
            state@.template_start().sound(origin) by {
            state@.lemma_template_start_sound(origin);
        }
    }
    let scan_position = state.scan_position;
    let mut is_parameter = false;
    if state.is_byte(scan_position + 2, OPEN_BRACE) {
        is_parameter = true;
        if state.is_byte(scan_position + 3, OPEN_BRACE) && state.is_byte(
            scan_position + 4,
            OPEN_BRACE,
        ) {
            is_parameter = !first_close_has_three(state, scan_position + 5);
        }
    }
    proof {
        let text = state@.text;
        state@.lemma_cursor_on_ascii();
        lemma_after_ascii_is_boundary(text, scan_position + 1);
        lemma_skip_blanks_forwards(text, scan_position + 2);
        if is_parameter {
            lemma_after_ascii_is_boundary(text, scan_position + 2);
            lemma_skip_blanks_forwards(text, scan_position + 3);
        }
    }
    if is_parameter {
        let position = state.skip_whitespace_forwards(scan_position + 3);
        state.push_open_node(OpenNodeType::Parameter { name: None, default: None }, position);
    } else {
        let position = state.skip_whitespace_forwards(scan_position + 2);
        let parameters: Vec<Parameter> = Vec::new();
        proof {
            lemma_parameter_views_empty(parameters@);
        }
        state.push_open_node(OpenNodeType::Template { name: None, parameters }, position);
    }
    proof {
        assert(state@ == old(state)@.template_start());
    }
}

/// Ends the last argument in `parameters` at `end` with `value`.
fn end_argument<'a>(parameters: &mut Vec<Parameter<'a>>, end: usize, value: Vec<Node<'a>>)
    requires
        old(parameters)@.len() > 0,
    ensures
        parameter_views(final(parameters)@) == parameter_views(old(parameters)@).drop_last().push(
            ParameterModel {
                end: end as int,
                value: node_views(value@),
                ..parameter_views(old(parameters)@).last()
            },
        ),
{
    proof {
        lemma_parameter_views_drop_last(parameters@);
    }
    let mut parameter = parameters.pop().unwrap();
    parameter.end = end;
    parameter.value = value;
    proof {
        lemma_parameter_views_push(parameters@, parameter);
    }
    parameters.push(parameter);
}

/// Handles a `|` in a template: the name of the template or the value of
/// its last argument ends, and a new argument starts. A sound state stays
/// sound.
pub fn parse_template_separator(state: &mut State)
    requires
        old(state)@.wf(),
        old(state)@.at(PIPE),
        old(state)@.in_template(),
    ensures
        final(state)@ == old(state)@.template_separator(),
        final(state)@.wf(),
        final(state).wiki_text == old(state).wiki_text,
        forall|origin: int|
            old(state)@.sound(origin) ==> #[trigger] final(state)@.sound(origin),
{
    proof {
        assert forall|origin: int| #[trigger] state@.sound(origin) implies
            state@.template_separator().sound(origin) by {
            state@.lemma_template_separator_sound(origin);
        }
    }
    proof {
        state@.lemma_cursor_on_ascii();
    }
    let position = state.skip_whitespace_backwards(state.scan_position);
    state.flush(position);
    let next = state.skip_whitespace_forwards(state.scan_position + 1);
    let part = state.take_nodes();
    let OpenNode { start, nodes, type_ } = state.pop_open_node();
    match type_ {
        OpenNodeType::Template { name, mut parameters } => {
            let name = match name {
                None => Some(part),
                Some(name) => {
                    end_argument(&mut parameters, position, part);
                    Some(name)
                },
            };
            let value: Vec<Node> = Vec::new();
            let started = Parameter { start: next, end: 0, name: None, value };
            proof {
                lemma_node_views_empty(started.value@);
                lemma_parameter_views_push(parameters@, started);
            }
            parameters.push(started);
            state.push_open(
                OpenNode { start, nodes, type_: OpenNodeType::Template { name, parameters } },
            );
        },
        _ => unreached(),
    }
    state.scan_position = next;
    state.flushed_position = next;
    proof {
        assert(state@.stack =~= old(state)@.template_separator().stack);
        assert(state@ == old(state)@.template_separator());
        assert(state@.wf());
    }
}

/// Whether the innermost open construct is a template with a name whose
/// last argument has no name yet.
fn in_unnamed_argument(state: &State) -> (unnamed: bool)
    requires
        state@.wf(),
    ensures
        unnamed == state@.in_unnamed_argument(),
{
    let stack_length = state.stack.len();
    if stack_length == 0 {
        return false;
    }
    proof {
        crate::state::lemma_open_node_views_drop_last(state.stack@);
    }
    match &state.stack[stack_length - 1].type_ {
        OpenNodeType::Template { name: Some(_), parameters } => {
            proof {
                assert(state@.stack.last().wf(state@.text));
                lemma_parameter_views_drop_last(parameters@);
            }
            parameters[parameters.len() - 1].name.is_none()
        },
        _ => false,
    }
}

/// Handles an `=`: in an argument of a template that has no name yet, the
/// name ends here; anywhere else the `=` is passed over. A sound state stays
/// sound.
pub fn parse_parameter_name_end(state: &mut State)
    requires
        old(state)@.wf(),
        old(state)@.at(EQUALS),
    ensures
        final(state)@ == old(state)@.parameter_name_end(),
        final(state)@.wf(),
        final(state).wiki_text == old(state).wiki_text,
        forall|origin: int|
            old(state)@.sound(origin) ==> #[trigger] final(state)@.sound(origin),
{
    proof {
        assert forall|origin: int| #[trigger] state@.sound(origin) implies
            state@.parameter_name_end().sound(origin) by {
            state@.lemma_parameter_name_end_sound(origin);
        }
    }
    if !in_unnamed_argument(state) {
        state.scan_position += 1;
        proof {
            assert(state@ == old(state)@.parameter_name_end());
        }
        return ;
    }
    proof {
        state@.lemma_cursor_on_ascii();
    }
    let position = state.skip_whitespace_backwards(state.scan_position);
    state.flush(position);
    let next = state.skip_whitespace_forwards(state.scan_position + 1);
    let part = state.take_nodes();
    let OpenNode { start, nodes, type_ } = state.pop_open_node();
    match type_ {
        OpenNodeType::Template { name, mut parameters } => {
            proof {
                lemma_parameter_views_drop_last(parameters@);
            }
            let mut parameter = parameters.pop().unwrap();
            parameter.name = Some(part);
            proof {
                lemma_parameter_views_push(parameters@, parameter);
            }
            parameters.push(parameter);
            state.push_open(
                OpenNode { start, nodes, type_: OpenNodeType::Template { name, parameters } },
            );
        },
        _ => unreached(),
    }
    state.scan_position = next;
    state.flushed_position = next;
    proof {
        assert(state@.stack =~= old(state)@.parameter_name_end().stack);
        assert(state@ == old(state)@.parameter_name_end());
        assert(state@.wf());
    }
}

/// Handles a `|` in a parameter: its name ends here, or else a default
/// value that is reported as useless. A sound state stays sound.
pub fn parse_parameter_separator(state: &mut State)
    requires
        old(state)@.wf(),
        old(state)@.at(PIPE),
        old(state)@.in_parameter(),
    ensures
        final(state)@ == old(state)@.parameter_separator(),
        final(state)@.wf(),
        final(state).wiki_text == old(state).wiki_text,
        forall|origin: int|
            old(state)@.sound(origin) ==> #[trigger] final(state)@.sound(origin),
{
    proof {
        assert forall|origin: int| #[trigger] state@.sound(origin) implies
            state@.parameter_separator().sound(origin) by {
            state@.lemma_parameter_separator_sound(origin);
        }
    }
    proof {
        state@.lemma_cursor_on_ascii();
    }
    let scan_position = state.scan_position;
    let OpenNode { start, nodes, type_ } = state.pop_open_node();
    match type_ {
        OpenNodeType::Parameter { name, default } => {
            let type_ = match name {
                None => {
                    let position = state.skip_whitespace_backwards(scan_position);
                    state.flush(position);
                    let part = state.take_nodes();
                    OpenNodeType::Parameter { name: Some(part), default }
                },
                Some(name) => {
                    state.flush(scan_position);
                    let part = state.take_nodes();
                    state.warn(
                        scan_position,
                        scan_position + 1,
                        WarningMessage::UselessTextInParameter,
                    );
                    OpenNodeType::Parameter { name: Some(name), default: Some(part) }
                },
            };
            state.push_open(OpenNode { start, nodes, type_ });
        },
        _ => unreached(),
    }
    state.scan_position = scan_position + 1;
    state.flushed_position = scan_position + 1;
    proof {
        assert(state@.stack =~= old(state)@.parameter_separator().stack);
        assert(state@ == old(state)@.parameter_separator());
        assert(state@.wf());
    }
}

/// Whether an end tag under the cursor can close a construct that encloses
/// the innermost one.
fn closes_enclosing(state: &State) -> (found: bool)
    requires
        state@.wf(),
    ensures
        found == state@.closes_enclosing(),
{
    let three = state.is_byte(state.scan_position + 2, CLOSE_BRACE);
    let enclosing = if state.stack.len() > 0 {
        state.stack.len() - 1
    } else {
        0
    };
    let mut i: usize = 0;
    while i < enclosing
        invariant
            state@.wf(),
            enclosing < state.stack@.len() || enclosing == 0,
            enclosing >= state.stack@.len() - 1,
            three == state@.ahead(2, CLOSE_BRACE),
            forall|j: int|
                0 <= j < i ==> match (#[trigger] state@.stack[j]).type_ {
                    OpenNodeTypeModel::Template { .. } => false,
                    OpenNodeTypeModel::Parameter { .. } => !three,
                    OpenNodeTypeModel::Link { .. } => true,
                },
        decreases enclosing - i,
    {
        assert(state@.stack[i as int] == state.stack@[i as int]@);
        match &state.stack[i].type_ {
            OpenNodeType::Template { .. } => {
                return true;
            },
            OpenNodeType::Parameter { .. } => {
                if three {
                    return true;
                }
            },
            OpenNodeType::Link { .. } => {},
        }
        i += 1;
    }
    false
}

/// Handles closing braces under the cursor: they close the innermost
/// construct if it is a template or, with three braces, a parameter; two
/// braces in a parameter give it up; anywhere else they are reported and
/// passed over. A sound state stays sound.
pub fn parse_template_end(state: &mut State)
    requires
        old(state)@.wf(),
        old(state)@.at(CLOSE_BRACE),
        old(state)@.ahead(1, CLOSE_BRACE),
    ensures
        final(state)@ == old(state)@.template_end(),
        final(state)@.wf(),
        final(state).wiki_text == old(state).wiki_text,
        forall|origin: int|
            old(state)@.sound(origin) ==> #[trigger] final(state)@.sound(origin),
{
    proof {
        assert forall|origin: int| #[trigger] state@.sound(origin) implies
            state@.template_end().sound(origin) by {
            state@.lemma_template_end_sound(origin);
        }
    }
    proof {
        state@.lemma_cursor_on_ascii();
        lemma_after_ascii_is_boundary(state@.text, state.scan_position + 1);
    }
    let scan_position = state.scan_position;
    match state.innermost() {
        Innermost::Parameter => {
            let OpenNode { start, nodes, type_ } = state.pop_open_node();
            if state.is_byte(scan_position + 2, CLOSE_BRACE) {
                proof {
                    lemma_after_ascii_is_boundary(state@.text, scan_position + 2);
                }
                let end = scan_position + 3;
                match type_ {
                    OpenNodeType::Parameter { name: Some(name), default } => {
                        state.flush(scan_position);
                        let part = state.replace_nodes(nodes);
                        let default = match default {
                            Some(default) => default,
                            None => part,
                        };
                        state.push_node(
                            Node::Parameter { start, end, name, default: Some(default) },
                        );
                    },
                    OpenNodeType::Parameter { name: None, default } => {
                        let position = state.skip_whitespace_backwards(scan_position);
                        state.flush(position);
                        let part = state.replace_nodes(nodes);
                        state.push_node(Node::Parameter { start, end, name: part, default: None });
                    },
                    _ => unreached(),
                }
                state.scan_position = end;
                state.flushed_position = end;
            } else {
                state.warn(
                    scan_position,
                    scan_position + 2,
                    WarningMessage::UnexpectedEndTagRewinding,
                );
                proof {
                    assert(old(state)@.stack.last().wf(state@.text));
                    assert forall|i: int| 0 <= i < state@.stack.len() implies (
                    #[trigger] state@.stack[i]).start + 2 <= start by {
                        assert(state@.stack[i] == old(state)@.stack[i]);
                    }
                }
                state.rewind(nodes, start);
            }
        },
        Innermost::Template => {
            let OpenNode { start, nodes, type_ } = state.pop_open_node();
            let position = state.skip_whitespace_backwards(scan_position);
            state.flush(position);
            let end = scan_position + 2;
            let part = state.replace_nodes(nodes);
            match type_ {
                OpenNodeType::Template { name: Some(name), mut parameters } => {
                    end_argument(&mut parameters, position, part);
                    state.push_node(Node::Template { start, end, name, parameters });
                },
                OpenNodeType::Template { name: None, parameters } => {
                    state.push_node(Node::Template { start, end, name: part, parameters });
                },
                _ => unreached(),
            }
            state.scan_position = end;
            state.flushed_position = end;
        },
        _ => {
            let message = if closes_enclosing(state) {
                WarningMessage::UnexpectedEndTagRewinding
            } else {
                WarningMessage::UnexpectedEndTag
            };
            state.warn(scan_position, scan_position + 2, message);
            state.scan_position = scan_position + 2;
        },
    }
    proof {
        assert(state@ == old(state)@.template_end());
        assert(state@.wf());
    }
}

} // verus!
