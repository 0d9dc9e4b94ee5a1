//! The state of a parse and the primitives that every routine builds on.
use crate::node::{
    lemma_node_views_empty, lemma_node_views_push, node_views, optional_node_views,
    parameter_views, Namespace, Node, NodeModel, Parameter, ParameterModel, Warning,
    WarningMessage,
};
use crate::text::{
    boundary, byte_at, chars_between, has_byte, lemma_str_valid, skip_blanks_backwards,
    skip_blanks_forwards, substring, SPACE, TAB,
};
use vstd::prelude::*;
use vstd::string::StringSliceAdditionalSpecFns;
use vstd::utf8::valid_utf8;

verus! {

/// What kind of construct is open, and what has been gathered of it.
#[derive(Debug, PartialEq, Eq)]
pub enum OpenNodeType<'a> {
    Link { namespace: Option<Namespace>, should_reparse: bool, target: &'a str },
    Template { name: Option<Vec<Node<'a>>>, parameters: Vec<Parameter<'a>> },
    Parameter { name: Option<Vec<Node<'a>>>, default: Option<Vec<Node<'a>>> },
}

/// A construct that has been opened at `start` and not yet closed. `nodes`
/// holds what had been produced around it before it opened.
#[derive(Debug, PartialEq, Eq)]
pub struct OpenNode<'a> {
    pub start: usize,
    pub nodes: Vec<Node<'a>>,
    pub type_: OpenNodeType<'a>,
}

/// The state of a parse of `wiki_text`.
#[derive(Debug)]
pub struct State<'a> {
    pub wiki_text: &'a str,
    /// The cursor.
    pub scan_position: usize,
    /// The text before this position has been turned into nodes.
    pub flushed_position: usize,
    /// The nodes produced in the innermost open construct.
    pub nodes: Vec<Node<'a>>,
    /// The open constructs, the innermost last.
    pub stack: Vec<OpenNode<'a>>,
    pub warnings: Vec<Warning>,
}

/// The mathematical value of an [`OpenNodeType`].
pub enum OpenNodeTypeModel {
    Link { namespace: Option<Namespace>, should_reparse: bool, target: Seq<char> },
    Template { name: Option<Seq<NodeModel>>, parameters: Seq<ParameterModel> },
    Parameter { name: Option<Seq<NodeModel>>, default: Option<Seq<NodeModel>> },
}

/// The mathematical value of an [`OpenNode`].
pub struct OpenNodeModel {
    pub start: int,
    pub nodes: Seq<NodeModel>,
    pub type_: OpenNodeTypeModel,
}

/// The mathematical value of a [`State`]; `text` holds the bytes of the
/// text.
pub struct StateModel {
    pub text: Seq<u8>,
    pub scan_position: int,
    pub flushed_position: int,
    pub nodes: Seq<NodeModel>,
    pub stack: Seq<OpenNodeModel>,
    pub warnings: Seq<Warning>,
}

/// Which kind of construct is open innermost.
#[derive(Clone, Copy, Debug, PartialEq, Eq)]
pub enum Innermost {
    Nothing,
    Link,
    Template,
    Parameter,
}

impl OpenNodeTypeModel {
    /// A template that has a name has an argument in progress.
    pub open spec fn wf(self) -> bool {
        match self {
            OpenNodeTypeModel::Template { name: Some(_), parameters } => parameters.len() > 0,
            _ => true,
        }
    }
}

impl OpenNodeModel {
    /// The construct starts on a boundary of `text`.
    pub open spec fn wf(self, text: Seq<u8>) -> bool {
        &&& boundary(text, self.start)
        &&& self.type_.wf()
    }
}

impl StateModel {
    /// The state at the start of a parse of `text` from `position`.
    pub open spec fn initial(text: Seq<u8>, position: int) -> StateModel {
        StateModel {
            text,
            scan_position: position,
            flushed_position: position,
            nodes: Seq::empty(),
            stack: Seq::empty(),
            warnings: Seq::empty(),
        }
    }

    /// The positions lie in the text, offsets past them fit the machine,
    /// nothing has been flushed beyond the cursor or inside a character, and
    /// each open construct starts at least two bytes before the next one
    /// and before the flushed text.
    pub open spec fn wf(self) -> bool {
        &&& valid_utf8(self.text)
        &&& self.text.len() + 3 <= usize::MAX
        &&& 0 <= self.flushed_position <= self.scan_position <= self.text.len()
        &&& boundary(self.text, self.flushed_position)
        &&& forall|i: int| 0 <= i < self.stack.len() ==> (#[trigger] self.stack[i]).wf(self.text)
        &&& forall|i: int, j: int|
            0 <= i < j < self.stack.len() ==> (#[trigger] self.stack[i]).start + 2 <= (
            #[trigger] self.stack[j]).start
        &&& forall|i: int|
            0 <= i < self.stack.len() ==> (#[trigger] self.stack[i]).start + 2
                <= self.flushed_position
    }

    /// The byte under the cursor is `byte`.
    pub open spec fn at(self, byte: u8) -> bool {
        byte_at(self.text, self.scan_position) == Some(byte)
    }

    /// The byte `offset` positions after the cursor is `byte`.
    pub open spec fn ahead(self, offset: int, byte: u8) -> bool {
        byte_at(self.text, self.scan_position + offset) == Some(byte)
    }

    /// The innermost open construct is a template.
    pub open spec fn in_template(self) -> bool {
        self.stack.len() > 0 && self.stack.last().type_ is Template
    }

    /// The innermost open construct is a parameter.
    pub open spec fn in_parameter(self) -> bool {
        self.stack.len() > 0 && self.stack.last().type_ is Parameter
    }

    /// The innermost open construct is a link.
    pub open spec fn in_link(self) -> bool {
        self.stack.len() > 0 && self.stack.last().type_ is Link
    }

    /// The state with the cursor at `position`.
    pub open spec fn scan_to(self, position: int) -> StateModel {
        StateModel { scan_position: position, ..self }
    }

    /// The state with the cursor and the flush boundary at `position`.
    pub open spec fn resume_at(self, position: int) -> StateModel {
        StateModel { scan_position: position, flushed_position: position, ..self }
    }

    /// The state with a warning added.
    pub open spec fn warn(self, start: int, end: int, message: WarningMessage) -> StateModel {
        StateModel {
            warnings: self.warnings.push(
                Warning { start: start as usize, end: end as usize, message },
            ),
            ..self
        }
    }

    /// The state without its innermost open construct.
    pub open spec fn pop(self) -> StateModel {
        StateModel { stack: self.stack.drop_last(), ..self }
    }

    /// The state with `open_node` as its innermost open construct.
    pub open spec fn push(self, open_node: OpenNodeModel) -> StateModel {
        StateModel { stack: self.stack.push(open_node), ..self }
    }

    /// The state with `nodes` as the nodes of the innermost open construct.
    pub open spec fn with_nodes(self, nodes: Seq<NodeModel>) -> StateModel {
        StateModel { nodes, ..self }
    }

    /// The text between the flush boundary and `end` becomes a text node,
    /// if there is any, and the flush boundary moves to `end`.
    pub open spec fn flush(self, end: int) -> StateModel {
        if end > self.flushed_position {
            StateModel {
                nodes: self.nodes.push(
                    NodeModel::Text {
                        start: self.flushed_position,
                        end,
                        value: chars_between(self.text, self.flushed_position, end),
                    },
                ),
                flushed_position: end,
                ..self
            }
        } else {
            self
        }
    }

    /// A second flush at the same position changes nothing.
    pub proof fn lemma_flush_again(self, end: int)
        ensures
            self.flush(end).flush(end) == self.flush(end),
    {
    }

    /// A construct opens at the cursor: the pending text is flushed, the
    /// nodes produced so far are saved with the construct, and the parse
    /// goes on at `inner_start` with no nodes.
    pub open spec fn push_open_node(
        self,
        type_: OpenNodeTypeModel,
        inner_start: int,
    ) -> StateModel {
        let flushed = self.flush(self.scan_position);
        StateModel {
            stack: self.stack.push(
                OpenNodeModel { start: self.scan_position, nodes: flushed.nodes, type_ },
            ),
            nodes: Seq::empty(),
            scan_position: inner_start,
            flushed_position: inner_start,
            ..self
        }
    }

    /// The nodes produced so far are dropped for `nodes`, and the cursor and
    /// the flush boundary return to `position`.
    pub open spec fn rewind(self, nodes: Seq<NodeModel>, position: int) -> StateModel {
        StateModel { nodes, scan_position: position, flushed_position: position, ..self }
    }
}

impl<'a> View for OpenNodeType<'a> {
    type V = OpenNodeTypeModel;

    open spec fn view(&self) -> OpenNodeTypeModel {
        match self {
            OpenNodeType::Link { namespace, should_reparse, target } => OpenNodeTypeModel::Link {
                namespace: *namespace,
                should_reparse: *should_reparse,
                target: target@,
            },
            OpenNodeType::Template { name, parameters } => OpenNodeTypeModel::Template {
                name: optional_node_views(*name),
                parameters: parameter_views(parameters@),
            },
            OpenNodeType::Parameter { name, default } => OpenNodeTypeModel::Parameter {
                name: optional_node_views(*name),
                default: optional_node_views(*default),
            },
        }
    }
}

impl<'a> View for OpenNode<'a> {
    type V = OpenNodeModel;

    open spec fn view(&self) -> OpenNodeModel {
        OpenNodeModel {
            start: self.start as int,
            nodes: node_views(self.nodes@),
            type_: self.type_@,
        }
    }
}

/// The models of a stack of open constructs.
pub open spec fn open_node_views<'a>(stack: Seq<OpenNode<'a>>) -> Seq<OpenNodeModel> {
    Seq::new(stack.len(), |i: int| stack[i]@)
}

impl<'a> View for State<'a> {
    type V = StateModel;

    open spec fn view(&self) -> StateModel {
        StateModel {
            text: self.wiki_text.spec_bytes(),
            scan_position: self.scan_position as int,
            flushed_position: self.flushed_position as int,
            nodes: node_views(self.nodes@),
            stack: open_node_views(self.stack@),
            warnings: self.warnings@,
        }
    }
}

/// The models of an extended stack extend the models of the stack.
pub proof fn lemma_open_node_views_push<'a>(stack: Seq<OpenNode<'a>>, open_node: OpenNode<'a>)
    ensures
        open_node_views(stack.push(open_node)) == open_node_views(stack).push(open_node@),
{
    assert(open_node_views(stack.push(open_node)) =~= open_node_views(stack).push(open_node@));
}

/// The models of a shortened stack are the models of the stack, shortened.
pub proof fn lemma_open_node_views_drop_last<'a>(stack: Seq<OpenNode<'a>>)
    requires
        stack.len() > 0,
    ensures
        open_node_views(stack.drop_last()) == open_node_views(stack).drop_last(),
        open_node_views(stack).last() == stack.last()@,
{
    assert(open_node_views(stack.drop_last()) =~= open_node_views(stack).drop_last());
}

/// The position after the blanks that start at `position`.
pub fn skip_whitespace_forwards(wiki_text: &str, position: usize) -> (end: usize)
    ensures
        end == skip_blanks_forwards(wiki_text.spec_bytes(), position as int),
{
    let bytes = wiki_text.as_bytes();
    let mut end = position;
    while end < bytes.len() && (bytes[end] == SPACE || bytes[end] == TAB)
        invariant
            bytes@ == wiki_text.spec_bytes(),
            position <= end,
            skip_blanks_forwards(bytes@, position as int) == skip_blanks_forwards(
                bytes@,
                end as int,
            ),
        decreases bytes@.len() - end,
    {
        end += 1;
    }
    end
}

/// The position before the blanks that end at `position`.
pub fn skip_whitespace_backwards(wiki_text: &str, position: usize) -> (start: usize)
    requires
        position <= wiki_text.spec_bytes().len(),
    ensures
        start == skip_blanks_backwards(wiki_text.spec_bytes(), position as int),
{
    let bytes = wiki_text.as_bytes();
    let mut start = position;
    while start > 0 && (bytes[start - 1] == SPACE || bytes[start - 1] == TAB)
        invariant
            bytes@ == wiki_text.spec_bytes(),
            start <= position <= bytes@.len(),
            skip_blanks_backwards(bytes@, position as int) == skip_blanks_backwards(
                bytes@,
                start as int,
            ),
        decreases start,
    {
        start -= 1;
    }
    start
}

impl<'a> State<'a> {
    /// The state at the start of a parse of `wiki_text` from
    /// `start_position`.
    pub fn new(wiki_text: &'a str, start_position: usize) -> (state: State<'a>)
        requires
            wiki_text.spec_bytes().len() + 3 <= usize::MAX,
            boundary(wiki_text.spec_bytes(), start_position as int),
        ensures
            state@ == StateModel::initial(wiki_text.spec_bytes(), start_position as int),
            state.wiki_text == wiki_text,
            state@.wf(),
            state@.sound(start_position as int),
    {
        let state = State {
            wiki_text,
            scan_position: start_position,
            flushed_position: start_position,
            nodes: Vec::new(),
            stack: Vec::new(),
            warnings: Vec::new(),
        };
        proof {
            lemma_str_valid(wiki_text);
            lemma_node_views_empty(state.nodes@);
            assert(state@.stack =~= Seq::empty());
            assert(state@.warnings =~= Seq::empty());
        }
        state
    }

    /// The byte at `position`, or `None` past the end of the text.
    pub fn get_byte(&self, position: usize) -> (byte: Option<u8>)
        ensures
            byte == byte_at(self@.text, position as int),
    {
        crate::text::get_byte(self.wiki_text, position)
    }

    /// The position after the blanks that start at `position`.
    pub fn skip_whitespace_forwards(&self, position: usize) -> (end: usize)
        ensures
            end == skip_blanks_forwards(self@.text, position as int),
    {
        skip_whitespace_forwards(self.wiki_text, position)
    }

    /// The position before the blanks that end at `position`.
    pub fn skip_whitespace_backwards(&self, position: usize) -> (start: usize)
        requires
            position <= self@.text.len(),
        ensures
            start == skip_blanks_backwards(self@.text, position as int),
    {
        skip_whitespace_backwards(self.wiki_text, position)
    }

    /// Adds a warning.
    pub fn warn(&mut self, start: usize, end: usize, message: WarningMessage)
        ensures
            final(self)@ == old(self)@.warn(start as int, end as int, message),
            final(self).wiki_text == old(self).wiki_text,
    {
        self.warnings.push(Warning { start, end, message });
    }

    /// Turns the text between the flush boundary and `end_position` into a
    /// text node, if there is any, and moves the flush boundary there.
    pub fn flush(&mut self, end_position: usize)
        requires
            old(self)@.wf(),
            end_position > old(self).flushed_position ==> boundary(
                old(self)@.text,
                end_position as int,
            ),
        ensures
            final(self)@ == old(self)@.flush(end_position as int),
            final(self).wiki_text == old(self).wiki_text,
            end_position <= old(self).scan_position ==> final(self)@.wf(),
    {
        if end_position > self.flushed_position {
            let value = substring(self.wiki_text, self.flushed_position, end_position);
            let node = Node::Text { start: self.flushed_position, end: end_position, value };
            proof {
                lemma_node_views_push(self.nodes@, node);
            }
            self.nodes.push(node);
            self.flushed_position = end_position;
        }
    }

    /// Opens a construct at the cursor and moves on to
    /// `inner_start_position`.
    pub fn push_open_node(&mut self, type_: OpenNodeType<'a>, inner_start_position: usize)
        requires
            old(self)@.wf(),
            type_@.wf(),
            boundary(old(self)@.text, old(self).scan_position as int),
            boundary(old(self)@.text, inner_start_position as int),
            old(self).scan_position + 2 <= inner_start_position,
        ensures
            final(self)@ == old(self)@.push_open_node(type_@, inner_start_position as int),
            final(self).wiki_text == old(self).wiki_text,
            final(self)@.wf(),
    {
        let scan_position = self.scan_position;
        self.flush(scan_position);
        let mut nodes: Vec<Node<'a>> = Vec::new();
        proof {
            lemma_node_views_empty(nodes@);
        }
        core::mem::swap(&mut nodes, &mut self.nodes);
        let open_node = OpenNode { start: scan_position, nodes, type_ };
        proof {
            lemma_open_node_views_push(self.stack@, open_node);
        }
        self.stack.push(open_node);
        self.scan_position = inner_start_position;
        self.flushed_position = inner_start_position;
    }

    /// Whether the byte at `position` is `byte`.
    pub fn is_byte(&self, position: usize, byte: u8) -> (found: bool)
        ensures
            found == has_byte(self@.text, position as int, byte),
    {
        match crate::text::get_byte(self.wiki_text, position) {
            Some(other) => other == byte,
            None => false,
        }
    }

    /// Which kind of construct is open innermost.
    pub fn innermost(&self) -> (kind: Innermost)
        ensures
            kind is Nothing <==> self@.stack.len() == 0,
            kind is Link <==> self@.in_link(),
            kind is Template <==> self@.in_template(),
            kind is Parameter <==> self@.in_parameter(),
    {
        let stack_length = self.stack.len();
        if stack_length == 0 {
            return Innermost::Nothing;
        }
        proof {
            lemma_open_node_views_drop_last(self.stack@);
        }
        match &self.stack[stack_length - 1].type_ {
            OpenNodeType::Link { .. } => Innermost::Link,
            OpenNodeType::Template { .. } => Innermost::Template,
            OpenNodeType::Parameter { .. } => Innermost::Parameter,
        }
    }

    /// Hands out the nodes produced so far and goes on with none.
    pub fn take_nodes(&mut self) -> (nodes: Vec<Node<'a>>)
        ensures
            node_views(nodes@) == old(self)@.nodes,
            final(self)@ == old(self)@.with_nodes(Seq::empty()),
            final(self).wiki_text == old(self).wiki_text,
    {
        let mut nodes: Vec<Node<'a>> = Vec::new();
        proof {
            lemma_node_views_empty(nodes@);
        }
        core::mem::swap(&mut nodes, &mut self.nodes);
        nodes
    }

    /// Hands out the nodes produced so far and goes on with `nodes`.
    pub fn replace_nodes(&mut self, nodes: Vec<Node<'a>>) -> (replaced: Vec<Node<'a>>)
        ensures
            node_views(replaced@) == old(self)@.nodes,
            final(self)@ == old(self)@.with_nodes(node_views(nodes@)),
            final(self).wiki_text == old(self).wiki_text,
    {
        let mut replaced = nodes;
        core::mem::swap(&mut replaced, &mut self.nodes);
        replaced
    }

    /// Adds a node to the nodes produced so far.
    pub fn push_node(&mut self, node: Node<'a>)
        ensures
            final(self)@ == old(self)@.with_nodes(old(self)@.nodes.push(node@)),
            final(self).wiki_text == old(self).wiki_text,
    {
        proof {
            lemma_node_views_push(self.nodes@, node);
        }
        self.nodes.push(node);
    }

    /// Takes the innermost open construct off the stack.
    pub fn pop_open_node(&mut self) -> (open_node: OpenNode<'a>)
        requires
            old(self)@.stack.len() > 0,
        ensures
            open_node@ == old(self)@.stack.last(),
            final(self)@ == old(self)@.pop(),
            final(self).wiki_text == old(self).wiki_text,
            old(self)@.wf() ==> final(self)@.wf(),
    {
        proof {
            lemma_open_node_views_drop_last(self.stack@);
        }
        let open_node = self.stack.pop().unwrap();
        open_node
    }

    /// Puts an open construct on the stack.
    pub fn push_open(&mut self, open_node: OpenNode<'a>)
        ensures
            final(self)@ == old(self)@.push(open_node@),
            final(self).wiki_text == old(self).wiki_text,
    {
        proof {
            lemma_open_node_views_push(self.stack@, open_node);
        }
        self.stack.push(open_node);
    }

    /// Gives up the nodes produced so far for `nodes` and returns to
    /// `position`.
    pub fn rewind(&mut self, nodes: Vec<Node<'a>>, position: usize)
        requires
            old(self)@.wf(),
            boundary(old(self)@.text, position as int),
            forall|i: int|
                0 <= i < old(self)@.stack.len() ==> (#[trigger] old(self)@.stack[i]).start + 2
                    <= position,
        ensures
            final(self)@ == old(self)@.rewind(node_views(nodes@), position as int),
            final(self).wiki_text == old(self).wiki_text,
            final(self)@.wf(),
    {
        self.nodes = nodes;
        self.scan_position = position;
        self.flushed_position = position;
    }
}

} // verus!
