//! The nodes of the syntax tree, the warnings, and their models.
use vstd::prelude::*;

verus! {

/// The classification of a link target by its prefix.
#[derive(Clone, Copy, Debug, PartialEq, Eq)]
pub enum Namespace {
    Category,
    File,
}

/// The kinds of issue found in the markup.
#[derive(Clone, Copy, Debug, PartialEq, Eq)]
pub enum WarningMessage {
    /// A link could not be completed.
    InvalidLinkSyntax,
    /// The text ended while a construct was still open.
    MissingEndTagRewinding,
    /// An end tag matched nothing that is open.
    UnexpectedEndTag,
    /// An end tag matched an enclosing construct while an inner one was open.
    UnexpectedEndTagRewinding,
    /// A parameter received more than one default value.
    UselessTextInParameter,
}

/// An issue found in the range `[start, end)` of the text.
#[derive(Clone, Copy, Debug, PartialEq, Eq)]
pub struct Warning {
    pub start: usize,
    pub end: usize,
    pub message: WarningMessage,
}

/// An element of the syntax tree, spanning `[start, end)` of the text.
#[derive(Debug, PartialEq, Eq)]
pub enum Node<'a> {
    /// Plain text: `value` is the text of the span.
    Text { start: usize, end: usize, value: &'a str },
    /// A link to `target`, shown as `text`. `reparsed` tells that the target
    /// holds braces and has to be read as markup.
    Link { start: usize, end: usize, target: &'a str, text: Vec<Node<'a>>, reparsed: bool },
    /// A link that puts the page into the category `target`, sorted under
    /// `ordinal`.
    Category { start: usize, end: usize, target: &'a str, ordinal: Vec<Node<'a>> },
    /// A link that shows the file `target`, with the caption `text`.
    Image { start: usize, end: usize, target: &'a str, text: Vec<Node<'a>> },
    /// A call of the template `name` with `parameters` as its arguments.
    Template { start: usize, end: usize, name: Vec<Node<'a>>, parameters: Vec<Parameter<'a>> },
    /// A use of the parameter `name`, with what stands for it by default.
    Parameter {
        start: usize,
        end: usize,
        name: Vec<Node<'a>>,
        default: Option<Vec<Node<'a>>>,
    },
}

/// An argument of a template; `name` is absent for a positional argument.
#[derive(Debug, PartialEq, Eq)]
pub struct Parameter<'a> {
    pub start: usize,
    pub end: usize,
    pub name: Option<Vec<Node<'a>>>,
    pub value: Vec<Node<'a>>,
}

/// The mathematical value of a [`Node`].
pub enum NodeModel {
    Text { start: int, end: int, value: Seq<char> },
    Link { start: int, end: int, target: Seq<char>, text: Seq<NodeModel>, reparsed: bool },
    Category { start: int, end: int, target: Seq<char>, ordinal: Seq<NodeModel> },
    Image { start: int, end: int, target: Seq<char>, text: Seq<NodeModel> },
    Template { start: int, end: int, name: Seq<NodeModel>, parameters: Seq<ParameterModel> },
    Parameter { start: int, end: int, name: Seq<NodeModel>, default: Option<Seq<NodeModel>> },
}

/// The mathematical value of a [`Parameter`].
pub struct ParameterModel {
    pub start: int,
    pub end: int,
    pub name: Option<Seq<NodeModel>>,
    pub value: Seq<NodeModel>,
}

impl NodeModel {
    /// The position at which the node starts.
    pub open spec fn start(self) -> int {
        match self {
            NodeModel::Text { start, .. } => start,
            NodeModel::Link { start, .. } => start,
            NodeModel::Category { start, .. } => start,
            NodeModel::Image { start, .. } => start,
            NodeModel::Template { start, .. } => start,
            NodeModel::Parameter { start, .. } => start,
        }
    }

    /// The position at which the node ends.
    pub open spec fn end(self) -> int {
        match self {
            NodeModel::Text { end, .. } => end,
            NodeModel::Link { end, .. } => end,
            NodeModel::Category { end, .. } => end,
            NodeModel::Image { end, .. } => end,
            NodeModel::Template { end, .. } => end,
            NodeModel::Parameter { end, .. } => end,
        }
    }
}

impl<'a> View for Node<'a> {
    type V = NodeModel;

    open spec fn view(&self) -> NodeModel
        decreases self,
    {
        match self {
            Node::Text { start, end, value } => NodeModel::Text {
                start: *start as int,
                end: *end as int,
                value: value@,
            },
            Node::Link { start, end, target, text, reparsed } => NodeModel::Link {
                start: *start as int,
                end: *end as int,
                target: target@,
                text: node_views(text@),
                reparsed: *reparsed,
            },
            Node::Category { start, end, target, ordinal } => NodeModel::Category {
                start: *start as int,
                end: *end as int,
                target: target@,
                ordinal: node_views(ordinal@),
            },
            Node::Image { start, end, target, text } => NodeModel::Image {
                start: *start as int,
                end: *end as int,
                target: target@,
                text: node_views(text@),
            },
            Node::Template { start, end, name, parameters } => NodeModel::Template {
                start: *start as int,
                end: *end as int,
                name: node_views(name@),
                parameters: parameter_views(parameters@),
            },
            Node::Parameter { start, end, name, default } => NodeModel::Parameter {
                start: *start as int,
                end: *end as int,
                name: node_views(name@),
                default: match default {
                    Some(nodes) => Some(node_views(nodes@)),
                    None => None,
                },
            },
        }
    }
}

impl<'a> View for Parameter<'a> {
    type V = ParameterModel;

    open spec fn view(&self) -> ParameterModel
        decreases self,
    {
        ParameterModel {
            start: self.start as int,
            end: self.end as int,
            name: match self.name {
                Some(nodes) => Some(node_views(nodes@)),
                None => None,
            },
            value: node_views(self.value@),
        }
    }
}

/// The models of a sequence of nodes.
pub open spec fn node_views<'a>(nodes: Seq<Node<'a>>) -> Seq<NodeModel>
    decreases nodes,
{
    Seq::new(
        nodes.len(),
        |i: int|
            if 0 <= i < nodes.len() {
                nodes[i]@
            } else {
                arbitrary()
            },
    )
}

/// The models of a sequence of template arguments.
pub open spec fn parameter_views<'a>(parameters: Seq<Parameter<'a>>) -> Seq<ParameterModel>
    decreases parameters,
{
    Seq::new(
        parameters.len(),
        |i: int|
            if 0 <= i < parameters.len() {
                parameters[i]@
            } else {
                arbitrary()
            },
    )
}

/// The model of an optional sequence of nodes.
pub open spec fn optional_node_views<'a>(nodes: Option<Vec<Node<'a>>>) -> Option<Seq<NodeModel>> {
    match nodes {
        Some(nodes) => Some(node_views(nodes@)),
        None => None,
    }
}

/// The models of an extended sequence extend the models of the sequence.
pub proof fn lemma_node_views_push<'a>(nodes: Seq<Node<'a>>, node: Node<'a>)
    ensures
        node_views(nodes.push(node)) == node_views(nodes).push(node@),
{
    assert(node_views(nodes.push(node)) =~= node_views(nodes).push(node@));
}

/// The empty sequence has the empty model.
pub proof fn lemma_node_views_empty<'a>(nodes: Seq<Node<'a>>)
    requires
        nodes.len() == 0,
    ensures
        node_views(nodes) == Seq::<NodeModel>::empty(),
{
    assert(node_views(nodes) =~= Seq::<NodeModel>::empty());
}

/// The models of an extended argument list extend the models of the list.
pub proof fn lemma_parameter_views_push<'a>(
    parameters: Seq<Parameter<'a>>,
    parameter: Parameter<'a>,
)
    ensures
        parameter_views(parameters.push(parameter)) == parameter_views(parameters).push(
            parameter@,
        ),
{
    assert(parameter_views(parameters.push(parameter)) =~= parameter_views(parameters).push(
        parameter@,
    ));
}

/// The models of a shortened argument list are the models of the list,
/// shortened.
pub proof fn lemma_parameter_views_drop_last<'a>(parameters: Seq<Parameter<'a>>)
    requires
        parameters.len() > 0,
    ensures
        parameter_views(parameters.drop_last()) == parameter_views(parameters).drop_last(),
        parameter_views(parameters).last() == parameters.last()@,
{
    assert(parameter_views(parameters.drop_last()) =~= parameter_views(parameters).drop_last());
}

/// The empty argument list has the empty model.
pub proof fn lemma_parameter_views_empty<'a>(parameters: Seq<Parameter<'a>>)
    requires
        parameters.len() == 0,
    ensures
        parameter_views(parameters) == Seq::<ParameterModel>::empty(),
{
    assert(parameter_views(parameters) =~= Seq::<ParameterModel>::empty());
}

} // verus!
