//! Where the nodes lie: every node in the text and in the node that holds
//! it, the nodes of a sequence one after the other, every text node with
//! the text of its span, and the nodes of a whole parse side by side from
//! the start of the text to its end.
use crate::configuration::ConfigurationModel;
use crate::link::{lemma_scan_target, shown_text, TargetScan};
use crate::node::{Namespace, NodeModel, ParameterModel, Warning, WarningMessage};
use crate::state::{OpenNodeTypeModel, StateModel};
use crate::text::{
    boundary, byte_at, chars_between, has_byte, is_blank, lemma_after_ascii_is_boundary,
    lemma_skip_blanks_backwards, lemma_skip_blanks_backwards_stops, lemma_skip_blanks_forwards,
    skip_blanks_backwards, skip_blanks_forwards, CLOSE_BRACE, CLOSE_BRACKET, EQUALS, OPEN_BRACE,
    OPEN_BRACKET, PIPE,
};
use vstd::prelude::*;

verus! {

/// The nodes lie in `[low, high]`, one after the other.
pub open spec fn in_order(nodes: Seq<NodeModel>, low: int, high: int) -> bool {
    &&& forall|i: int|
        0 <= i < nodes.len() ==> low <= (#[trigger] nodes[i]).start() <= nodes[i].end() <= high
    &&& forall|i: int, j: int|
        0 <= i < j < nodes.len() ==> (#[trigger] nodes[i]).end() <= (#[trigger] nodes[j]).start()
}

/// The node lies in `text`, a text node holds the text of its span, and
/// what a node holds lies in its span, in order, and is sound itself.
pub open spec fn node_sound(node: NodeModel, text: Seq<u8>) -> bool
    decreases node,
{
    &&& 0 <= node.start() <= node.end() <= text.len()
    &&& match node {
        NodeModel::Text { start, end, value } => value == chars_between(text, start, end),
        NodeModel::Link { start, end, text: shown, .. } => sound_in(shown, text, start, end),
        NodeModel::Category { start, end, ordinal, .. } => sound_in(ordinal, text, start, end),
        NodeModel::Image { start, end, text: shown, .. } => sound_in(shown, text, start, end),
        NodeModel::Template { start, end, name, parameters } => {
            &&& sound_in(name, text, start, end)
            &&& forall|i: int|
                0 <= i < parameters.len() ==> {
                    &&& start <= (#[trigger] parameters[i]).end <= end
                    &&& parameter_sound(parameters[i], text, start, end)
                }
        },
        NodeModel::Parameter { start, end, name, default } => {
            &&& sound_in(name, text, start, end)
            &&& match default {
                Some(default) => sound_in(default, text, start, end),
                None => true,
            }
        },
    }
}

/// The nodes are sound and lie in `[low, high]`, one after the other.
pub open spec fn sound_in(nodes: Seq<NodeModel>, text: Seq<u8>, low: int, high: int) -> bool
    decreases nodes,
{
    &&& in_order(nodes, low, high)
    &&& forall|i: int| 0 <= i < nodes.len() ==> node_sound(#[trigger] nodes[i], text)
}

/// The argument starts in `[low, high]`, and its name and its value are
/// sound and lie there.
pub open spec fn parameter_sound(
    parameter: ParameterModel,
    text: Seq<u8>,
    low: int,
    high: int,
) -> bool
    decreases parameter,
{
    &&& low <= parameter.start <= high
    &&& sound_in(parameter.value, text, low, high)
    &&& match parameter.name {
        Some(name) => sound_in(name, text, low, high),
        None => true,
    }
}

/// The nodes lie side by side from `from` to `to`.
pub open spec fn tiles(nodes: Seq<NodeModel>, from: int, to: int) -> bool {
    &&& nodes.len() == 0 ==> from == to
    &&& nodes.len() > 0 ==> nodes.first().start() == from && nodes.last().end() == to
    &&& forall|i: int|
        0 <= i < nodes.len() - 1 ==> (#[trigger] nodes[i]).end() == nodes[i + 1].start()
}

/// The bytes of the spans of the nodes, one span after the other.
pub open spec fn spanned(nodes: Seq<NodeModel>, text: Seq<u8>) -> Seq<u8>
    decreases nodes.len(),
{
    if nodes.len() == 0 {
        Seq::empty()
    } else {
        spanned(nodes.drop_last(), text) + text.subrange(nodes.last().start(), nodes.last().end())
    }
}

/// The spans of nodes that lie side by side make up the text between the
/// start of the first and the end of the last, with no gap and no overlap.
pub proof fn lemma_tiles_spanned(nodes: Seq<NodeModel>, text: Seq<u8>, from: int, to: int)
    requires
        tiles(nodes, from, to),
        in_order(nodes, from, to),
        0 <= from,
        to <= text.len(),
    ensures
        spanned(nodes, text) == text.subrange(from, to),
    decreases nodes.len(),
{
    if nodes.len() == 0 {
        assert(text.subrange(from, to) =~= Seq::<u8>::empty());
    } else {
        let last = nodes.last();
        let rest = nodes.drop_last();
        assert(nodes[nodes.len() - 1] == last);
        if rest.len() == 0 {
            assert(spanned(rest, text) =~= Seq::<u8>::empty());
            assert(nodes.first() == last);
        } else {
            assert(rest.last() == nodes[nodes.len() - 2]);
            assert(rest.first() == nodes.first());
            assert forall|i: int| 0 <= i < rest.len() - 1 implies (#[trigger] rest[i]).end()
                == rest[i + 1].start() by {
                assert(rest[i] == nodes[i]);
                assert(rest[i + 1] == nodes[i + 1]);
            }
            assert forall|i: int| 0 <= i < rest.len() implies from <= (#[trigger] rest[i]).start()
                <= rest[i].end() <= last.start() by {
                assert(rest[i] == nodes[i]);
            }
            assert forall|i: int, j: int| 0 <= i < j < rest.len() implies (#[trigger] rest[i]).end()
                <= (#[trigger] rest[j]).start() by {
                assert(rest[i] == nodes[i]);
                assert(rest[j] == nodes[j]);
            }
            lemma_tiles_spanned(rest, text, from, last.start());
        }
        assert(spanned(nodes, text) =~= text.subrange(from, to));
    }
}

/// What has been gathered of an open construct is sound and lies in
/// `[low, high]`; a template has no arguments before it has a name, and its
/// arguments but the last have ended there.
pub open spec fn gathered_sound(
    type_: OpenNodeTypeModel,
    text: Seq<u8>,
    low: int,
    high: int,
) -> bool {
    match type_ {
        OpenNodeTypeModel::Link { .. } => true,
        OpenNodeTypeModel::Template { name, parameters } => {
            &&& match name {
                Some(name) => sound_in(name, text, low, high),
                None => parameters.len() == 0,
            }
            &&& forall|i: int|
                0 <= i < parameters.len() ==> parameter_sound(
                    #[trigger] parameters[i],
                    text,
                    low,
                    high,
                )
            &&& forall|i: int|
                0 <= i < parameters.len() - 1 ==> low <= (#[trigger] parameters[i]).end <= high
        },
        OpenNodeTypeModel::Parameter { name, default } => {
            &&& match name {
                Some(name) => sound_in(name, text, low, high),
                None => true,
            }
            &&& match default {
                Some(default) => sound_in(default, text, low, high),
                None => true,
            }
        },
    }
}

/// The warning lies in a text of `length` bytes.
pub open spec fn warning_sound(warning: Warning, length: int) -> bool {
    warning.start <= warning.end <= length
}

impl StateModel {
    /// The lowest position of what is produced inside `depth` open
    /// constructs of a parse that started at `origin`.
    pub open spec fn floor(self, origin: int, depth: int) -> int {
        if depth <= 0 {
            origin
        } else {
            self.stack[depth - 1].start + 2
        }
    }

    /// The highest position of what has been produced inside `depth` open
    /// constructs.
    pub open spec fn ceiling(self, depth: int) -> int {
        if depth >= self.stack.len() {
            self.flushed_position
        } else {
            self.stack[depth].start
        }
    }

    /// The nodes produced outside of all open constructs.
    pub open spec fn outer_nodes(self) -> Seq<NodeModel> {
        if self.stack.len() == 0 {
            self.nodes
        } else {
            self.stack[0].nodes
        }
    }

    /// The open construct at `depth` lies where it belongs: the nodes saved
    /// with it are sound and lie between the start of the construct around
    /// them and its own start; what has been gathered of it is sound and
    /// lies between its start and the start of the construct in it, or the
    /// flush boundary; its second byte is no blank.
    pub open spec fn frame_sound(self, origin: int, depth: int) -> bool {
        &&& sound_in(
            self.stack[depth].nodes,
            self.text,
            self.floor(origin, depth),
            self.stack[depth].start,
        )
        &&& gathered_sound(
            self.stack[depth].type_,
            self.text,
            self.stack[depth].start + 2,
            self.ceiling(depth + 1),
        )
        &&& !is_blank(self.text[self.stack[depth].start + 1])
    }

    /// Everything in the state of a parse that started at `origin` lies
    /// where it belongs: the nodes produced in the innermost open construct
    /// are sound and lie between its start and the flush boundary; every
    /// open construct lies where it belongs; the nodes outside of all
    /// constructs lie side by side from `origin`; the warnings lie in the
    /// text.
    pub open spec fn sound(self, origin: int) -> bool {
        &&& 0 <= origin <= self.ceiling(0)
        &&& sound_in(
            self.nodes,
            self.text,
            self.floor(origin, self.stack.len() as int),
            self.flushed_position,
        )
        &&& forall|i: int| 0 <= i < self.stack.len() ==> #[trigger] self.frame_sound(origin, i)
        &&& tiles(self.outer_nodes(), origin, self.ceiling(0))
        &&& forall|i: int|
            0 <= i < self.warnings.len() ==> warning_sound(
                #[trigger] self.warnings[i],
                self.text.len() as int,
            )
    }
}

/// Nodes that are sound between two positions are sound between
/// positions further apart.
pub proof fn lemma_sound_in_wider(
    nodes: Seq<NodeModel>,
    text: Seq<u8>,
    low: int,
    high: int,
    lower: int,
    higher: int,
)
    requires
        sound_in(nodes, text, low, high),
        lower <= low,
        high <= higher,
    ensures
        sound_in(nodes, text, lower, higher),
{
}

/// A sound node after sound nodes makes sound nodes.
pub proof fn lemma_sound_in_push(
    nodes: Seq<NodeModel>,
    text: Seq<u8>,
    low: int,
    high: int,
    node: NodeModel,
    higher: int,
)
    requires
        sound_in(nodes, text, low, high),
        node_sound(node, text),
        low <= node.start(),
        high <= node.start(),
        node.end() <= higher,
    ensures
        sound_in(nodes.push(node), text, low, higher),
{
}

/// A node that starts where tiling nodes end goes on tiling.
pub proof fn lemma_tiles_push(nodes: Seq<NodeModel>, from: int, to: int, node: NodeModel)
    requires
        tiles(nodes, from, to),
        node.start() == to,
    ensures
        tiles(nodes.push(node), from, node.end()),
{
}

/// What has been gathered in a range has been gathered in a range that
/// ends later.
pub proof fn lemma_gathered_sound_wider(
    type_: OpenNodeTypeModel,
    text: Seq<u8>,
    low: int,
    high: int,
    higher: int,
)
    requires
        gathered_sound(type_, text, low, high),
        high <= higher,
    ensures
        gathered_sound(type_, text, low, higher),
{
    match type_ {
        OpenNodeTypeModel::Template { name, parameters } => {
            assert forall|i: int| 0 <= i < parameters.len() implies parameter_sound(
                #[trigger] parameters[i],
                text,
                low,
                higher,
            ) by {
                assert(parameter_sound(parameters[i], text, low, high));
            }
        },
        _ => {},
    }
}

impl StateModel {
    /// The depth at which the parse stands: the number of open constructs.
    pub open spec fn depth(self) -> int {
        self.stack.len() as int
    }

    /// The open constructs below `count` that `next` shares with this state
    /// lie where they belong in `next`, where what is in them ends no
    /// earlier than it did.
    pub proof fn lemma_frames_kept(self, origin: int, next: StateModel, count: int)
        requires
            self.sound(origin),
            next.text == self.text,
            0 <= count <= self.stack.len(),
            count <= next.stack.len(),
            forall|i: int| 0 <= i < count ==> #[trigger] next.stack[i] == self.stack[i],
            count > 0 ==> self.ceiling(count) <= next.ceiling(count),
        ensures
            forall|i: int| 0 <= i < count ==> #[trigger] next.frame_sound(origin, i),
    {
        assert forall|i: int| 0 <= i < count implies #[trigger] next.frame_sound(origin, i) by {
            assert(self.frame_sound(origin, i));
            assert(next.stack[i] == self.stack[i]);
            if i > 0 {
                assert(next.stack[i - 1] == self.stack[i - 1]);
            }
            if i + 1 < count {
                assert(next.stack[i + 1] == self.stack[i + 1]);
            }
            lemma_gathered_sound_wider(
                self.stack[i].type_,
                self.text,
                self.stack[i].start + 2,
                self.ceiling(i + 1),
                next.ceiling(i + 1),
            );
        }
    }

    /// After a flush the nodes are sound up to the new flush boundary, and
    /// outside of all constructs they go on tiling.
    pub proof fn lemma_flush_sound(self, origin: int, end: int)
        requires
            self.wf(),
            self.sound(origin),
            end <= self.text.len(),
        ensures
            self.flush(end).flushed_position >= self.flushed_position,
            self.flush(end).flushed_position >= end,
            self.flush(end).flushed_position == end || self.flush(end) == self,
            sound_in(
                self.flush(end).nodes,
                self.text,
                self.floor(origin, self.depth()),
                self.flush(end).flushed_position,
            ),
            self.stack.len() == 0 ==> tiles(
                self.flush(end).nodes,
                origin,
                self.flush(end).flushed_position,
            ),
    {
        if end > self.flushed_position {
            let node = NodeModel::Text {
                start: self.flushed_position,
                end,
                value: chars_between(self.text, self.flushed_position, end),
            };
            if self.stack.len() > 0 {
                assert(self.stack[self.depth() - 1].start + 2 <= self.flushed_position);
            }
            lemma_sound_in_push(
                self.nodes,
                self.text,
                self.floor(origin, self.depth()),
                self.flushed_position,
                node,
                end,
            );
            if self.stack.len() == 0 {
                lemma_tiles_push(self.nodes, origin, self.flushed_position, node);
            }
        }
    }

    /// A state that differs from a sound one in its cursor alone is sound.
    pub proof fn lemma_scan_to_sound(self, origin: int, position: int)
        requires
            self.sound(origin),
        ensures
            self.scan_to(position).sound(origin),
    {
        let next = self.scan_to(position);
        self.lemma_frames_kept(origin, next, self.depth());
    }

    /// A warning in the text keeps a sound state sound.
    pub proof fn lemma_warn_sound(
        self,
        origin: int,
        start: int,
        end: int,
        message: WarningMessage,
    )
        requires
            self.wf(),
            self.sound(origin),
            0 <= start <= end <= self.text.len(),
        ensures
            self.warn(start, end, message).sound(origin),
    {
        let next = self.warn(start, end, message);
        self.lemma_frames_kept(origin, next, self.depth());
    }

    /// Opening a construct keeps a sound state sound.
    pub proof fn lemma_push_open_node_sound(
        self,
        origin: int,
        type_: OpenNodeTypeModel,
        inner_start: int,
    )
        requires
            self.wf(),
            self.sound(origin),
            self.scan_position + 2 <= inner_start <= self.text.len(),
            gathered_sound(type_, self.text, self.scan_position + 2, inner_start),
            !is_blank(self.text[self.scan_position + 1]),
        ensures
            self.push_open_node(type_, inner_start).sound(origin),
    {
        let next = self.push_open_node(type_, inner_start);
        let depth = self.depth();
        self.lemma_flush_sound(origin, self.scan_position);
        assert(next.stack.drop_last() =~= self.stack);
        self.lemma_frames_kept(origin, next, depth);
        assert(next.floor(origin, depth) == self.floor(origin, depth));
        assert(next.frame_sound(origin, depth));
    }

    /// Giving up the innermost open construct keeps a sound state sound.
    pub proof fn lemma_abandon_sound(self, origin: int)
        requires
            self.wf(),
            self.sound(origin),
            self.stack.len() > 0,
        ensures
            self.abandon().sound(origin),
    {
        let next = self.abandon();
        let depth = self.depth();
        assert(self.stack[depth - 1] == self.stack.last());
        assert(self.frame_sound(origin, depth - 1));
        self.lemma_frames_kept(origin, next, depth - 1);
    }
}

impl StateModel {
    /// Going on in the innermost open construct with more gathered of it
    /// keeps a sound state sound.
    pub proof fn lemma_continue_with_sound(
        self,
        origin: int,
        type_: OpenNodeTypeModel,
        position: int,
    )
        requires
            self.wf(),
            self.sound(origin),
            self.stack.len() > 0,
            self.flushed_position <= position <= self.text.len(),
            gathered_sound(type_, self.text, self.stack.last().start + 2, position),
        ensures
            self.continue_with(type_, position).sound(origin),
    {
        let next = self.continue_with(type_, position);
        let depth = self.depth();
        assert(self.stack[depth - 1] == self.stack.last());
        assert(self.frame_sound(origin, depth - 1));
        assert(self.stack[depth - 1].start + 2 <= self.flushed_position);
        self.lemma_frames_kept(origin, next, depth - 1);
        assert(next.floor(origin, depth - 1) == self.floor(origin, depth - 1));
        assert(next.stack[depth - 1].nodes == self.stack[depth - 1].nodes);
        assert(next.frame_sound(origin, depth - 1));
    }

    /// Closing the innermost open construct as a sound node keeps a sound
    /// state sound.
    pub proof fn lemma_close_with_sound(self, origin: int, node: NodeModel, position: int)
        requires
            self.wf(),
            self.sound(origin),
            self.stack.len() > 0,
            self.flushed_position <= position <= self.text.len(),
            node.start() == self.stack.last().start,
            node.end() == position,
            node_sound(node, self.text),
        ensures
            self.close_with(node, position).sound(origin),
    {
        let next = self.close_with(node, position);
        let depth = self.depth();
        let open_node = self.stack.last();
        assert(self.stack[depth - 1] == open_node);
        assert(self.frame_sound(origin, depth - 1));
        assert(open_node.start + 2 <= self.flushed_position);
        if depth > 1 {
            assert(self.stack[depth - 2].start + 2 <= self.stack[depth - 1].start);
        }
        lemma_sound_in_push(
            open_node.nodes,
            self.text,
            self.floor(origin, depth - 1),
            open_node.start,
            node,
            position,
        );
        if depth == 1 {
            lemma_tiles_push(open_node.nodes, origin, open_node.start, node);
        }
        self.lemma_frames_kept(origin, next, depth - 1);
    }

    /// The state after a construct that starts under the cursor has become
    /// `node` and the parse has moved on to `position`.
    pub open spec fn emit(self, node: NodeModel, position: int) -> StateModel {
        self.with_nodes(self.flush(self.scan_position).nodes.push(node)).resume_at(position)
    }

    /// A sound node for a construct that starts under the cursor keeps a
    /// sound state sound.
    pub proof fn lemma_emit_sound(self, origin: int, node: NodeModel, position: int)
        requires
            self.wf(),
            self.sound(origin),
            self.scan_position <= position <= self.text.len(),
            node.start() == self.scan_position,
            node.end() == position,
            node_sound(node, self.text),
        ensures
            self.emit(node, position).sound(origin),
    {
        let next = self.emit(node, position);
        let depth = self.depth();
        self.lemma_flush_sound(origin, self.scan_position);
        let flushed = self.flush(self.scan_position);
        if depth > 0 {
            assert(self.stack[depth - 1].start + 2 <= self.flushed_position);
        }
        lemma_sound_in_push(
            flushed.nodes,
            self.text,
            self.floor(origin, depth),
            self.scan_position,
            node,
            position,
        );
        if depth == 0 {
            lemma_tiles_push(flushed.nodes, origin, self.scan_position, node);
        }
        self.lemma_frames_kept(origin, next, depth);
    }

    /// The part that ends under the cursor is sound and lies between the
    /// start of the innermost open construct and the cursor.
    pub proof fn lemma_part_sound(self, origin: int)
        requires
            self.wf(),
            self.sound(origin),
            self.stack.len() > 0,
        ensures
            sound_in(
                self.trimmed_part(),
                self.text,
                self.stack.last().start + 2,
                self.scan_position,
            ),
            sound_in(self.whole_part(), self.text, self.stack.last().start + 2, self.scan_position),
            self.stack.last().start + 2 <= skip_blanks_backwards(self.text, self.scan_position)
                <= self.scan_position,
    {
        let depth = self.depth();
        let start = self.stack.last().start;
        assert(self.stack[depth - 1] == self.stack.last());
        assert(self.frame_sound(origin, depth - 1));
        assert(start + 2 <= self.flushed_position);
        lemma_skip_blanks_backwards(self.text, self.scan_position);
        lemma_skip_blanks_backwards_stops(self.text, self.scan_position, start + 2);
        self.lemma_flush_sound(origin, skip_blanks_backwards(self.text, self.scan_position));
        self.lemma_flush_sound(origin, self.scan_position);
        lemma_sound_in_wider(
            self.trimmed_part(),
            self.text,
            start + 2,
            self.flush(skip_blanks_backwards(self.text, self.scan_position)).flushed_position,
            start + 2,
            self.scan_position,
        );
    }

    /// Opening a template or a parameter keeps a sound state sound.
    pub proof fn lemma_template_start_sound(self, origin: int)
        requires
            self.wf(),
            self.sound(origin),
            self.at(OPEN_BRACE),
            self.ahead(1, OPEN_BRACE),
        ensures
            self.template_start().sound(origin),
    {
        lemma_skip_blanks_forwards(self.text, self.scan_position + 2);
        if self.ahead(2, OPEN_BRACE) {
            lemma_skip_blanks_forwards(self.text, self.scan_position + 3);
        }
        if self.opens_parameter() {
            self.lemma_push_open_node_sound(
                origin,
                OpenNodeTypeModel::Parameter { name: None, default: None },
                skip_blanks_forwards(self.text, self.scan_position + 3),
            );
        } else {
            self.lemma_push_open_node_sound(
                origin,
                OpenNodeTypeModel::Template { name: None, parameters: Seq::empty() },
                skip_blanks_forwards(self.text, self.scan_position + 2),
            );
        }
    }

    /// The arguments of the open template, once the one under way has
    /// ended under the cursor, are sound and have ended.
    pub proof fn lemma_ended_argument_sound(
        self,
        origin: int,
        name: Option<Seq<NodeModel>>,
        parameters: Seq<ParameterModel>,
        high: int,
    )
        requires
            self.wf(),
            self.sound(origin),
            self.stack.len() > 0,
            self.stack.last().type_ == (OpenNodeTypeModel::Template { name, parameters }),
            parameters.len() > 0,
            self.scan_position <= high,
        ensures
            forall|i: int|
                0 <= i < parameters.len() ==> {
                    &&& parameter_sound(
                        #[trigger] self.ended_argument(parameters)[i],
                        self.text,
                        self.stack.last().start + 2,
                        high,
                    )
                    &&& self.stack.last().start + 2 <= self.ended_argument(parameters)[i].end
                        <= high
                },
            self.ended_argument(parameters).len() == parameters.len(),
            match name {
                Some(name) => sound_in(name, self.text, self.stack.last().start + 2, high),
                None => true,
            },
    {
        let depth = self.depth();
        let low = self.stack.last().start + 2;
        assert(self.stack[depth - 1] == self.stack.last());
        assert(self.frame_sound(origin, depth - 1));
        assert(self.ceiling(depth) == self.flushed_position);
        self.lemma_part_sound(origin);
        lemma_gathered_sound_wider(
            self.stack.last().type_,
            self.text,
            low,
            self.flushed_position,
            high,
        );
        lemma_sound_in_wider(self.trimmed_part(), self.text, low, self.scan_position, low, high);
        let ended = self.ended_argument(parameters);
        assert forall|i: int| 0 <= i < parameters.len() implies {
            &&& parameter_sound(#[trigger] ended[i], self.text, low, high)
            &&& low <= ended[i].end <= high
        } by {
            assert(parameter_sound(parameters[i], self.text, low, high));
            if i < parameters.len() - 1 {
                assert(ended[i] == parameters[i]);
            }
        }
    }

    /// A separator in a template keeps a sound state sound.
    pub proof fn lemma_template_separator_sound(self, origin: int)
        requires
            self.wf(),
            self.sound(origin),
            self.at(PIPE),
            self.in_template(),
        ensures
            self.template_separator().sound(origin),
    {
        let depth = self.depth();
        let low = self.stack.last().start + 2;
        let next = skip_blanks_forwards(self.text, self.scan_position + 1);
        lemma_skip_blanks_forwards(self.text, self.scan_position + 1);
        assert(self.stack[depth - 1] == self.stack.last());
        assert(self.frame_sound(origin, depth - 1));
        self.lemma_part_sound(origin);
        lemma_sound_in_wider(self.trimmed_part(), self.text, low, self.scan_position, low, next);
        let started = ParameterModel { start: next, end: 0, name: None, value: Seq::empty() };
        match self.stack.last().type_ {
            OpenNodeTypeModel::Template { name: None, parameters } => {
                let gathered = OpenNodeTypeModel::Template {
                    name: Some(self.trimmed_part()),
                    parameters: parameters.push(started),
                };
                lemma_gathered_sound_wider(
                    self.stack.last().type_,
                    self.text,
                    low,
                    self.flushed_position,
                    next,
                );
                assert(gathered_sound(gathered, self.text, low, next));
                self.lemma_continue_with_sound(origin, gathered, next);
            },
            OpenNodeTypeModel::Template { name: Some(name), parameters } => {
                assert(self.stack.last().type_.wf());
                self.lemma_ended_argument_sound(origin, Some(name), parameters, next);
                let gathered = OpenNodeTypeModel::Template {
                    name: Some(name),
                    parameters: self.ended_argument(parameters).push(started),
                };
                assert(gathered_sound(gathered, self.text, low, next));
                self.lemma_continue_with_sound(origin, gathered, next);
            },
            _ => {},
        }
    }

    /// An `=` keeps a sound state sound.
    pub proof fn lemma_parameter_name_end_sound(self, origin: int)
        requires
            self.wf(),
            self.sound(origin),
            self.at(EQUALS),
        ensures
            self.parameter_name_end().sound(origin),
    {
        if self.in_unnamed_argument() {
            let depth = self.depth();
            let low = self.stack.last().start + 2;
            let next = skip_blanks_forwards(self.text, self.scan_position + 1);
            lemma_skip_blanks_forwards(self.text, self.scan_position + 1);
            assert(self.stack[depth - 1] == self.stack.last());
            assert(self.frame_sound(origin, depth - 1));
            self.lemma_part_sound(origin);
            lemma_sound_in_wider(
                self.trimmed_part(),
                self.text,
                low,
                self.scan_position,
                low,
                next,
            );
            lemma_gathered_sound_wider(
                self.stack.last().type_,
                self.text,
                low,
                self.flushed_position,
                next,
            );
            let parameters = self.stack.last().type_->Template_parameters;
            let named = parameters.drop_last().push(
                ParameterModel { name: Some(self.trimmed_part()), ..parameters.last() },
            );
            let gathered = OpenNodeTypeModel::Template {
                name: self.stack.last().type_->Template_name,
                parameters: named,
            };
            assert forall|i: int| 0 <= i < named.len() implies parameter_sound(
                #[trigger] named[i],
                self.text,
                low,
                next,
            ) by {
                assert(parameter_sound(parameters[i], self.text, low, next));
            }
            assert forall|i: int| 0 <= i < named.len() - 1 implies low <= (#[trigger] named[i]).end
                <= next by {
                assert(named[i] == parameters[i]);
            }
            assert(gathered_sound(gathered, self.text, low, next));
            self.lemma_continue_with_sound(origin, gathered, next);
        } else {
            self.lemma_scan_to_sound(origin, self.scan_position + 1);
        }
    }

    /// A separator in a parameter keeps a sound state sound.
    pub proof fn lemma_parameter_separator_sound(self, origin: int)
        requires
            self.wf(),
            self.sound(origin),
            self.at(PIPE),
            self.in_parameter(),
        ensures
            self.parameter_separator().sound(origin),
    {
        let depth = self.depth();
        let low = self.stack.last().start + 2;
        let next = self.scan_position + 1;
        assert(self.stack[depth - 1] == self.stack.last());
        assert(self.frame_sound(origin, depth - 1));
        self.lemma_part_sound(origin);
        lemma_sound_in_wider(self.trimmed_part(), self.text, low, self.scan_position, low, next);
        lemma_sound_in_wider(self.whole_part(), self.text, low, self.scan_position, low, next);
        lemma_gathered_sound_wider(
            self.stack.last().type_,
            self.text,
            low,
            self.flushed_position,
            next,
        );
        match self.stack.last().type_ {
            OpenNodeTypeModel::Parameter { name: None, default } => {
                let gathered = OpenNodeTypeModel::Parameter {
                    name: Some(self.trimmed_part()),
                    default,
                };
                self.lemma_continue_with_sound(origin, gathered, next);
            },
            OpenNodeTypeModel::Parameter { name: Some(name), default } => {
                let warned = self.warn(
                    self.scan_position,
                    next,
                    WarningMessage::UselessTextInParameter,
                );
                self.lemma_warn_sound(
                    origin,
                    self.scan_position,
                    next,
                    WarningMessage::UselessTextInParameter,
                );
                let gathered = OpenNodeTypeModel::Parameter {
                    name: Some(name),
                    default: Some(self.whole_part()),
                };
                assert(warned.stack == self.stack);
                warned.lemma_continue_with_sound(origin, gathered, next);
            },
            _ => {},
        }
    }

    /// Closing braces keep a sound state sound.
    pub proof fn lemma_template_end_sound(self, origin: int)
        requires
            self.wf(),
            self.sound(origin),
            self.at(CLOSE_BRACE),
            self.ahead(1, CLOSE_BRACE),
        ensures
            self.template_end().sound(origin),
    {
        let depth = self.depth();
        if depth == 0 || self.in_link() {
            let message = if depth > 0 && self.closes_enclosing() {
                WarningMessage::UnexpectedEndTagRewinding
            } else {
                WarningMessage::UnexpectedEndTag
            };
            self.lemma_warn_sound(origin, self.scan_position, self.scan_position + 2, message);
            self.warn(self.scan_position, self.scan_position + 2, message).lemma_scan_to_sound(
                origin,
                self.scan_position + 2,
            );
        } else {
            let open_node = self.stack.last();
            let low = open_node.start + 2;
            assert(self.stack[depth - 1] == open_node);
            assert(self.frame_sound(origin, depth - 1));
            assert(self.ceiling(depth) == self.flushed_position);
            self.lemma_part_sound(origin);
            match open_node.type_ {
                OpenNodeTypeModel::Parameter { name, default } => {
                    if self.ahead(2, CLOSE_BRACE) {
                        let end = self.scan_position + 3;
                        lemma_gathered_sound_wider(
                            open_node.type_,
                            self.text,
                            low,
                            self.flushed_position,
                            end,
                        );
                        lemma_sound_in_wider(
                            self.trimmed_part(),
                            self.text,
                            low,
                            self.scan_position,
                            open_node.start,
                            end,
                        );
                        lemma_sound_in_wider(
                            self.whole_part(),
                            self.text,
                            low,
                            self.scan_position,
                            open_node.start,
                            end,
                        );
                        match name {
                            Some(name) => {
                                lemma_sound_in_wider(
                                    name,
                                    self.text,
                                    low,
                                    end,
                                    open_node.start,
                                    end,
                                );
                                match default {
                                    Some(default) => {
                                        lemma_sound_in_wider(
                                            default,
                                            self.text,
                                            low,
                                            end,
                                            open_node.start,
                                            end,
                                        );
                                    },
                                    None => {},
                                }
                            },
                            None => {},
                        }
                        let next = self.template_end();
                        let node = next.nodes.last();
                        assert(node_sound(node, self.text));
                        assert(next == self.close_with(node, end));
                        self.lemma_close_with_sound(origin, node, end);
                    } else {
                        self.lemma_warn_sound(
                            origin,
                            self.scan_position,
                            self.scan_position + 2,
                            WarningMessage::UnexpectedEndTagRewinding,
                        );
                        self.warn(
                            self.scan_position,
                            self.scan_position + 2,
                            WarningMessage::UnexpectedEndTagRewinding,
                        ).lemma_abandon_sound(origin);
                    }
                },
                OpenNodeTypeModel::Template { name, parameters } => {
                    let end = self.scan_position + 2;
                    let next = self.template_end();
                    let node = next.nodes.last();
                    lemma_gathered_sound_wider(
                        open_node.type_,
                        self.text,
                        low,
                        self.flushed_position,
                        end,
                    );
                    lemma_sound_in_wider(
                        self.trimmed_part(),
                        self.text,
                        low,
                        self.scan_position,
                        open_node.start,
                        end,
                    );
                    match name {
                        Some(name) => {
                            assert(open_node.type_.wf());
                            self.lemma_ended_argument_sound(origin, Some(name), parameters, end);
                            lemma_sound_in_wider(name, self.text, low, end, open_node.start, end);
                            let ended = self.ended_argument(parameters);
                            assert forall|i: int| 0 <= i < ended.len() implies {
                                &&& open_node.start <= (#[trigger] ended[i]).end <= end
                                &&& parameter_sound(ended[i], self.text, open_node.start, end)
                            } by {
                                lemma_parameter_sound_wider(
                                    ended[i],
                                    self.text,
                                    low,
                                    end,
                                    open_node.start,
                                    end,
                                );
                            }
                        },
                        None => {
                            assert forall|i: int| 0 <= i < parameters.len() implies {
                                &&& open_node.start <= (#[trigger] parameters[i]).end <= end
                                &&& parameter_sound(parameters[i], self.text, open_node.start, end)
                            } by {
                                lemma_parameter_sound_wider(
                                    parameters[i],
                                    self.text,
                                    low,
                                    end,
                                    open_node.start,
                                    end,
                                );
                            }
                        },
                    }
                    assert(node_sound(node, self.text));
                    assert(next == self.close_with(node, end));
                    self.lemma_close_with_sound(origin, node, end);
                },
                _ => {},
            }
        }
    }
}

/// An argument that is sound between two positions is sound between
/// positions further apart.
pub proof fn lemma_parameter_sound_wider(
    parameter: ParameterModel,
    text: Seq<u8>,
    low: int,
    high: int,
    lower: int,
    higher: int,
)
    requires
        parameter_sound(parameter, text, low, high),
        lower <= low,
        high <= higher,
    ensures
        parameter_sound(parameter, text, lower, higher),
{
}

impl StateModel {
    /// Whether `reparsed` can stand for the target of the link under the
    /// cursor: it is sound and lies in the target.
    pub open spec fn reparsed_sound(
        self,
        configuration: ConfigurationModel,
        reparsed: Seq<NodeModel>,
    ) -> bool {
        match self.link_scan(configuration) {
            TargetScan::Closed { end, .. } => sound_in(
                reparsed,
                self.text,
                self.link_target_start(configuration),
                end,
            ),
            _ => true,
        }
    }

    /// The text that a plain link shows is sound with its trail.
    pub proof fn lemma_with_trail_sound(
        self,
        shown: Seq<NodeModel>,
        low: int,
        high: int,
        trail_start: int,
        trail_end: int,
    )
        requires
            sound_in(shown, self.text, low, high),
            low <= high <= trail_start <= trail_end <= self.text.len(),
            0 <= low,
        ensures
            sound_in(self.with_trail(shown, trail_start, trail_end), self.text, low, trail_end),
    {
        if trail_end > trail_start {
            let node = NodeModel::Text {
                start: trail_start,
                end: trail_end,
                value: chars_between(self.text, trail_start, trail_end),
            };
            lemma_sound_in_push(shown, self.text, low, high, node, trail_end);
        }
    }

    /// The end of a target keeps a sound state sound.
    pub proof fn lemma_target_end_sound(
        self,
        origin: int,
        configuration: ConfigurationModel,
        target_start: int,
        target_end: int,
        namespace: Option<Namespace>,
        should_reparse: bool,
        reparsed: Seq<NodeModel>,
    )
        requires
            self.wf(),
            self.sound(origin),
            self.at(OPEN_BRACKET),
            self.scan_position + 2 <= target_start <= target_end,
            has_byte(self.text, target_end, CLOSE_BRACKET),
            should_reparse ==> sound_in(reparsed, self.text, target_start, target_end),
        ensures
            self.target_end(
                configuration,
                target_start,
                target_end,
                namespace,
                should_reparse,
                reparsed,
            ).sound(origin),
    {
        let next = self.target_end(
            configuration,
            target_start,
            target_end,
            namespace,
            should_reparse,
            reparsed,
        );
        if !has_byte(self.text, target_end + 1, CLOSE_BRACKET) {
            self.lemma_warn_sound(
                origin,
                self.scan_position,
                target_end,
                WarningMessage::InvalidLinkSyntax,
            );
            self.warn(
                self.scan_position,
                target_end,
                WarningMessage::InvalidLinkSyntax,
            ).lemma_scan_to_sound(origin, self.scan_position + 1);
        } else {
            let start = self.scan_position;
            let trail_start = target_end + 2;
            lemma_after_ascii_is_boundary(self.text, target_end + 1);
            self.lemma_trail_end(configuration, trail_start);
            let trail_end = self.trail_end(configuration, trail_start);
            let node = next.nodes.last();
            match namespace {
                Some(_) => {
                    assert(node_sound(node, self.text));
                    assert(next == self.emit(node, trail_start));
                    self.lemma_emit_sound(origin, node, trail_start);
                },
                None => {
                    let raw = NodeModel::Text {
                        start: target_start,
                        end: target_end,
                        value: chars_between(self.text, target_start, target_end),
                    };
                    let shown = shown_text(
                        if should_reparse {
                            Some(reparsed)
                        } else {
                            None
                        },
                        raw,
                    );
                    assert(sound_in(shown, self.text, target_start, target_end));
                    lemma_sound_in_wider(
                        shown,
                        self.text,
                        target_start,
                        target_end,
                        start,
                        target_end,
                    );
                    self.lemma_with_trail_sound(shown, start, target_end, trail_start, trail_end);
                    assert(node_sound(node, self.text));
                    assert(next == self.emit(node, trail_end));
                    self.lemma_emit_sound(origin, node, trail_end);
                },
            }
        }
    }

    /// Opening a link keeps a sound state sound.
    pub proof fn lemma_link_start_sound(
        self,
        origin: int,
        configuration: ConfigurationModel,
        reparsed: Seq<NodeModel>,
    )
        requires
            self.wf(),
            self.sound(origin),
            self.at(OPEN_BRACKET),
            self.ahead(1, OPEN_BRACKET),
            self.reparsed_sound(configuration, reparsed),
        ensures
            self.link_start(configuration, reparsed).sound(origin),
    {
        let depth = self.depth();
        if self.in_plain_link() {
            assert(self.stack[depth - 1] == self.stack.last());
            assert(self.frame_sound(origin, depth - 1));
            assert(self.stack[depth - 1].start + 2 <= self.flushed_position);
            assert(self.stack.last().wf(self.text));
            self.lemma_warn_sound(
                origin,
                self.stack.last().start,
                self.scan_position,
                WarningMessage::InvalidLinkSyntax,
            );
            self.warn(
                self.stack.last().start,
                self.scan_position,
                WarningMessage::InvalidLinkSyntax,
            ).lemma_abandon_sound(origin);
        } else {
            self.lemma_link_target_start(configuration);
            let target_start = self.link_target_start(configuration);
            lemma_scan_target(self.text, target_start, 0, 0, false);
            match self.link_scan(configuration) {
                TargetScan::Invalid { end } => {
                    self.lemma_warn_sound(
                        origin,
                        self.scan_position,
                        end,
                        WarningMessage::InvalidLinkSyntax,
                    );
                    self.warn(
                        self.scan_position,
                        end,
                        WarningMessage::InvalidLinkSyntax,
                    ).lemma_scan_to_sound(origin, self.scan_position + 1);
                },
                TargetScan::Closed { end, should_reparse } => {
                    self.lemma_target_end_sound(
                        origin,
                        configuration,
                        target_start,
                        end,
                        self.link_namespace(configuration),
                        should_reparse,
                        reparsed,
                    );
                },
                TargetScan::Piped { end, should_reparse } => {
                    self.lemma_push_open_node_sound(
                        origin,
                        OpenNodeTypeModel::Link {
                            namespace: self.link_namespace(configuration),
                            should_reparse,
                            target: chars_between(self.text, target_start, end),
                        },
                        end + 1,
                    );
                },
            }
        }
    }

    /// Closing a link keeps a sound state sound.
    pub proof fn lemma_closed_link_sound(self, origin: int, configuration: ConfigurationModel)
        requires
            self.wf(),
            self.sound(origin),
            self.at(CLOSE_BRACKET),
            self.ahead(1, CLOSE_BRACKET),
            self.in_link(),
        ensures
            self.closed_link(configuration).sound(origin),
    {
        let depth = self.depth();
        let open_node = self.stack.last();
        let end = self.scan_position + 2;
        let next = self.closed_link(configuration);
        assert(self.stack[depth - 1] == open_node);
        assert(self.frame_sound(origin, depth - 1));
        assert(open_node.start + 2 <= self.flushed_position);
        self.lemma_part_sound(origin);
        assert(self.pop().trimmed_part() == self.trimmed_part());
        lemma_after_ascii_is_boundary(self.text, self.scan_position + 1);
        self.lemma_trail_end(configuration, end);
        let trail_end = self.trail_end(configuration, end);
        assert(self.pop().trail_end(configuration, end) == trail_end);
        lemma_sound_in_wider(
            self.trimmed_part(),
            self.text,
            open_node.start + 2,
            self.scan_position,
            open_node.start,
            end,
        );
        let node = next.nodes.last();
        match open_node.type_ {
            OpenNodeTypeModel::Link { namespace: None, .. } => {
                self.lemma_with_trail_sound(
                    self.trimmed_part(),
                    open_node.start,
                    end,
                    end,
                    trail_end,
                );
                assert(self.pop().with_trail(self.trimmed_part(), end, trail_end)
                    == self.with_trail(self.trimmed_part(), end, trail_end));
                assert(node_sound(node, self.text));
                assert(next == self.close_with(node, trail_end));
                self.lemma_close_with_sound(origin, node, trail_end);
            },
            OpenNodeTypeModel::Link { namespace: Some(_), .. } => {
                assert(node_sound(node, self.text));
                assert(next == self.close_with(node, end));
                self.lemma_close_with_sound(origin, node, end);
            },
            _ => {},
        }
    }

    /// A step keeps a sound state sound.
    pub proof fn lemma_step_sound(
        self,
        origin: int,
        configuration: ConfigurationModel,
        reparsed: Seq<NodeModel>,
    )
        requires
            self.wf(),
            self.sound(origin),
            !self.finished(),
            self.at(OPEN_BRACKET) && self.ahead(1, OPEN_BRACKET) ==> self.reparsed_sound(
                configuration,
                reparsed,
            ),
        ensures
            self.dispatch(configuration, reparsed).sound(origin),
            self.step(configuration, reparsed).sound(origin),
    {
        let next = self.dispatch(configuration, reparsed);
        let depth = self.depth();
        match byte_at(self.text, self.scan_position) {
            None => {
                assert(self.stack[depth - 1] == self.stack.last());
                assert(self.frame_sound(origin, depth - 1));
                assert(self.stack[depth - 1].start + 2 <= self.flushed_position);
                self.lemma_warn_sound(
                    origin,
                    self.stack.last().start,
                    self.scan_position,
                    WarningMessage::MissingEndTagRewinding,
                );
                self.warn(
                    self.stack.last().start,
                    self.scan_position,
                    WarningMessage::MissingEndTagRewinding,
                ).lemma_abandon_sound(origin);
            },
            Some(byte) => {
                self.lemma_scan_to_sound(origin, self.scan_position + 1);
                if byte == OPEN_BRACKET {
                    if self.ahead(1, OPEN_BRACKET) {
                        self.lemma_link_start_sound(origin, configuration, reparsed);
                    }
                } else if byte == CLOSE_BRACKET {
                    if self.in_link() && self.ahead(1, CLOSE_BRACKET) {
                        self.lemma_closed_link_sound(origin, configuration);
                    }
                } else if byte == OPEN_BRACE {
                    if self.ahead(1, OPEN_BRACE) {
                        self.lemma_template_start_sound(origin);
                    }
                } else if byte == CLOSE_BRACE {
                    if self.ahead(1, CLOSE_BRACE) {
                        self.lemma_template_end_sound(origin);
                    }
                } else if byte == PIPE {
                    if self.in_template() {
                        self.lemma_template_separator_sound(origin);
                    } else if self.in_parameter() {
                        self.lemma_parameter_separator_sound(origin);
                    }
                } else if byte == EQUALS {
                    self.lemma_parameter_name_end_sound(origin);
                }
            },
        }
        next.lemma_scan_to_sound(origin, next.scan_position + 1);
    }
}

/// A node that is sound in the first `length` bytes of a text is sound in
/// the text.
pub proof fn lemma_node_sound_in_longer(node: NodeModel, text: Seq<u8>, length: int)
    requires
        0 <= length <= text.len(),
        node_sound(node, text.subrange(0, length)),
    ensures
        node_sound(node, text),
    decreases node,
{
    let prefix = text.subrange(0, length);
    match node {
        NodeModel::Text { start, end, value } => {
            assert(prefix.subrange(start, end) =~= text.subrange(start, end));
        },
        NodeModel::Link { start, end, text: shown, .. } => {
            lemma_sound_in_longer(shown, text, length, start, end);
        },
        NodeModel::Category { start, end, ordinal, .. } => {
            lemma_sound_in_longer(ordinal, text, length, start, end);
        },
        NodeModel::Image { start, end, text: shown, .. } => {
            lemma_sound_in_longer(shown, text, length, start, end);
        },
        NodeModel::Template { start, end, name, parameters } => {
            lemma_sound_in_longer(name, text, length, start, end);
            assert forall|i: int| 0 <= i < parameters.len() implies parameter_sound(
                #[trigger] parameters[i],
                text,
                start,
                end,
            ) by {
                assert(parameter_sound(parameters[i], prefix, start, end));
                lemma_sound_in_longer(parameters[i].value, text, length, start, end);
                match parameters[i].name {
                    Some(name) => {
                        lemma_sound_in_longer(name, text, length, start, end);
                    },
                    None => {},
                }
            }
        },
        NodeModel::Parameter { start, end, name, default } => {
            lemma_sound_in_longer(name, text, length, start, end);
            match default {
                Some(default) => {
                    lemma_sound_in_longer(default, text, length, start, end);
                },
                None => {},
            }
        },
    }
}

/// Nodes that are sound in the first `length` bytes of a text are sound in
/// the text.
pub proof fn lemma_sound_in_longer(
    nodes: Seq<NodeModel>,
    text: Seq<u8>,
    length: int,
    low: int,
    high: int,
)
    requires
        0 <= length <= text.len(),
        sound_in(nodes, text.subrange(0, length), low, high),
    ensures
        sound_in(nodes, text, low, high),
    decreases nodes,
{
    assert forall|i: int| 0 <= i < nodes.len() implies node_sound(#[trigger] nodes[i], text) by {
        lemma_node_sound_in_longer(nodes[i], text, length);
    }
}

} // verus!
