//! Why a parse ends: a measure of what is left to do that every step makes
//! smaller, even a step that gives up a construct and returns to where it
//! started.
use crate::state::{OpenNodeModel, StateModel};
use vstd::arithmetic::power2::{
    lemma_pow2_pos, lemma_pow2_strictly_increases, lemma_pow2_unfold, pow2,
};
use vstd::prelude::*;

verus! {

/// The weight of the open constructs in a text of `length` bytes: a
/// construct weighs the more the earlier it starts, and twice as much as
/// anything that starts after it.
pub open spec fn stack_weight(stack: Seq<OpenNodeModel>, length: int) -> nat
    decreases stack.len(),
{
    if stack.len() == 0 {
        0
    } else {
        stack_weight(stack.drop_last(), length) + pow2((length - stack.last().start) as nat)
    }
}

impl StateModel {
    /// What is left to do: the weight of the open constructs and that of
    /// the cursor.
    pub open spec fn measure(self) -> nat {
        stack_weight(self.stack, self.text.len() as int) + pow2(
            (self.text.len() + 1 - self.scan_position) as nat,
        )
    }

    /// The state after a step that led to `next`: where the step did not
    /// move the cursor forwards, the byte under it is passed over.
    pub open spec fn follow(self, next: StateModel) -> StateModel {
        if next.scan_position <= self.scan_position {
            next.scan_to(next.scan_position + 1)
        } else {
            next
        }
    }

    /// A step from this state to `next` keeps the text and the state well
    /// formed, and leaves less to do.
    pub open spec fn advances_to(self, next: StateModel) -> bool {
        &&& next.text == self.text
        &&& next.wf()
        &&& self.follow(next).wf()
        &&& self.follow(next).measure() < self.measure()
    }

    /// A step that moves the cursor forwards and keeps the open constructs
    /// where they started leaves less to do.
    pub proof fn lemma_advance(self, next: StateModel)
        requires
            self.wf(),
            next.wf(),
            next.text == self.text,
            next.scan_position > self.scan_position,
            next.stack.len() == self.stack.len(),
            forall|i: int|
                0 <= i < self.stack.len() ==> (#[trigger] next.stack[i]).start
                    == self.stack[i].start,
        ensures
            self.advances_to(next),
    {
        let length = self.text.len() as int;
        lemma_same_weight(self.stack, next.stack, length);
        lemma_pow2_strictly_increases(
            (length + 1 - next.scan_position) as nat,
            (length + 1 - self.scan_position) as nat,
        );
    }

    /// A step that opens a construct under the cursor leaves less to do.
    pub proof fn lemma_open(self, next: StateModel)
        requires
            self.wf(),
            next.wf(),
            next.text == self.text,
            next.scan_position >= self.scan_position + 2,
            next.stack.len() == self.stack.len() + 1,
            next.stack.drop_last() == self.stack,
            next.stack.last().start == self.scan_position,
        ensures
            self.advances_to(next),
    {
        let length = self.text.len() as int;
        lemma_pow2_unfold((length + 1 - self.scan_position) as nat);
        lemma_pow2_strictly_increases(
            (length + 1 - next.scan_position) as nat,
            (length - self.scan_position) as nat,
        );
    }

    /// A step that closes the innermost construct and moves the cursor
    /// forwards leaves less to do.
    pub proof fn lemma_close(self, next: StateModel)
        requires
            self.wf(),
            next.wf(),
            next.text == self.text,
            next.scan_position > self.scan_position,
            self.stack.len() > 0,
            next.stack == self.stack.drop_last(),
        ensures
            self.advances_to(next),
    {
        let length = self.text.len() as int;
        lemma_pow2_strictly_increases(
            (length + 1 - next.scan_position) as nat,
            (length + 1 - self.scan_position) as nat,
        );
    }

    /// A step that gives up the innermost construct and returns to its
    /// start leaves less to do.
    pub proof fn lemma_rewind(self, next: StateModel)
        requires
            self.wf(),
            next.wf(),
            next.text == self.text,
            self.stack.len() > 0,
            next.stack == self.stack.drop_last(),
            next.scan_position == self.stack.last().start,
        ensures
            self.advances_to(next),
    {
        let length = self.text.len() as int;
        let start = self.stack.last().start;
        assert(self.stack[self.stack.len() - 1].start + 2 <= self.flushed_position);
        lemma_pow2_unfold((length - start) as nat);
        lemma_pow2_pos((length + 1 - self.scan_position) as nat);
    }
}

/// Stacks whose constructs start at the same positions weigh the same.
pub proof fn lemma_same_weight(first: Seq<OpenNodeModel>, second: Seq<OpenNodeModel>, length: int)
    requires
        first.len() == second.len(),
        forall|i: int| 0 <= i < first.len() ==> (#[trigger] second[i]).start == first[i].start,
    ensures
        stack_weight(first, length) == stack_weight(second, length),
    decreases first.len(),
{
    if first.len() > 0 {
        lemma_same_weight(first.drop_last(), second.drop_last(), length);
    }
}

} // verus!
