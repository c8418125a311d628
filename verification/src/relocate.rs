//! Moving a file or a directory.

use vstd::prelude::*;
use crate::operation::{execute_relation, rollback_relation, OpKind, Operation, OperationView};
use crate::protocol::{FsReply, Reply, Step, StepView};
use crate::rollbackable::RollbackableOperation;

verus! {

/// Renames or moves what is at the source to the destination. It works on
/// files and on directories alike. Rollback makes the same move backwards.
pub struct MoveOperation {
    op: Operation,
}

/// A move of a file.
pub type MoveFile = MoveOperation;

/// A move of a directory.
pub type MoveDirectory = MoveOperation;

impl View for MoveOperation {
    type V = OperationView;

    closed spec fn view(&self) -> OperationView {
        self.op@
    }
}

impl MoveOperation {
    /// The operation inside is of the kind that the type says.
    #[verifier::type_invariant]
    spec fn kind_fits(self) -> bool {
        self.op@.kind == OpKind::Move
    }

    /// The kind of the operation, which is always the one that the type
    /// says.
    pub fn kind(&self) -> (kind: OpKind)
        ensures
            kind == OpKind::Move,
            self@.kind == OpKind::Move,
    {
        proof {
            use_type_invariant(self);
        }
        self.op.kind()
    }

    /// The operation that moves what is at `source` to `dest`.
    pub fn new(source: &str, dest: &str) -> (made: MoveOperation)
        ensures
            made@ == OperationView::fresh(
                OpKind::Move,
                source@,
                dest@,
                Seq::empty(),
                Seq::empty(),
            ),
    {
        let empty = String::new();
        MoveOperation { op: Operation::new(OpKind::Move, source, dest, empty.as_str(), Vec::new()) }
    }

    /// The operation without its kind in its type.
    pub fn into_operation(self) -> (op: Operation)
        ensures
            op@ == self@,
    {
        self.op
    }

    /// Takes the operation out and leaves a blank one of the same kind in
    /// its place, for the caller to put the operation back.
    fn take(&mut self) -> (op: Operation)
        ensures
            op@ == old(self)@,
            op@.kind == OpKind::Move,
    {
        proof {
            use_type_invariant(&*self);
        }
        let mut held = MoveOperation::new("", "");
        core::mem::swap(self, &mut held);
        let MoveOperation { op } = held;
        op
    }
}

impl RollbackableOperation for MoveOperation {
    open spec fn execute_allows(&self, reply: Option<Reply>, after: &Self, step: StepView) -> bool {
        execute_relation(self@, reply, after@, step)
    }

    open spec fn rollback_allows(
        &self,
        reply: Option<Reply>,
        after: &Self,
        step: StepView,
    ) -> bool {
        rollback_relation(self@, reply, after@, step)
    }

    fn execute(&mut self, reply: Option<FsReply>) -> (step: Step) {
        let mut op = self.take();
        let step = op.execute(reply);
        *self = MoveOperation { op };
        step
    }

    fn rollback(&mut self, reply: Option<FsReply>) -> (step: Step) {
        let mut op = self.take();
        let step = op.rollback(reply);
        *self = MoveOperation { op };
        step
    }
}

} // verus!
