//! Creating a file or a directory.

use vstd::prelude::*;
use crate::operation::{execute_relation, rollback_relation, OpKind, Operation, OperationView};
use crate::protocol::{FsReply, Reply, Step, StepView};
use crate::rollbackable::RollbackableOperation;

verus! {

/// Creates a new, empty file. Execution fails where something exists at the
/// path already; rollback removes the file.
pub struct CreateFile {
    op: Operation,
}

impl View for CreateFile {
    type V = OperationView;

    closed spec fn view(&self) -> OperationView {
        self.op@
    }
}

impl CreateFile {
    /// The operation inside is of the kind that the type says.
    #[verifier::type_invariant]
    spec fn kind_fits(self) -> bool {
        self.op@.kind == OpKind::CreateFile
    }

    /// The kind of the operation, which is always the one that the type
    /// says.
    pub fn kind(&self) -> (kind: OpKind)
        ensures
            kind == OpKind::CreateFile,
            self@.kind == OpKind::CreateFile,
    {
        proof {
            use_type_invariant(self);
        }
        self.op.kind()
    }

    /// The operation that creates a file at `path`.
    pub fn new(path: &str) -> (created: CreateFile)
        ensures
            created@ == OperationView::fresh(
                OpKind::CreateFile,
                path@,
                Seq::empty(),
                Seq::empty(),
                Seq::empty(),
            ),
    {
        let empty = String::new();
        CreateFile {
            op: Operation::new(OpKind::CreateFile, path, empty.as_str(), empty.as_str(), Vec::new()),
        }
    }

    /// The operation without its kind in its type.
    pub fn into_operation(self) -> (op: Operation)
        ensures
            op@ == self@,
    {
        self.op
    }

    /// Takes the operation out and leaves a blank one of the same kind in
    /// its place, for the caller to put the operation back.
    fn take(&mut self) -> (op: Operation)
        ensures
            op@ == old(self)@,
            op@.kind == OpKind::CreateFile,
    {
        proof {
            use_type_invariant(&*self);
        }
        let mut held = CreateFile::new("");
        core::mem::swap(self, &mut held);
        let CreateFile { op } = held;
        op
    }
}

impl RollbackableOperation for CreateFile {
    open spec fn execute_allows(&self, reply: Option<Reply>, after: &Self, step: StepView) -> bool {
        execute_relation(self@, reply, after@, step)
    }

    open spec fn rollback_allows(
        &self,
        reply: Option<Reply>,
        after: &Self,
        step: StepView,
    ) -> bool {
        rollback_relation(self@, reply, after@, step)
    }

    fn execute(&mut self, reply: Option<FsReply>) -> (step: Step) {
        let mut op = self.take();
        let step = op.execute(reply);
        *self = CreateFile { op };
        step
    }

    fn rollback(&mut self, reply: Option<FsReply>) -> (step: Step) {
        let mut op = self.take();
        let step = op.rollback(reply);
        *self = CreateFile { op };
        step
    }
}

/// Creates a directory and every missing directory leading to it. Rollback
/// removes the directory and everything under it.
pub struct CreateDirectory {
    op: Operation,
}

impl View for CreateDirectory {
    type V = OperationView;

    closed spec fn view(&self) -> OperationView {
        self.op@
    }
}

impl CreateDirectory {
    /// The operation inside is of the kind that the type says.
    #[verifier::type_invariant]
    spec fn kind_fits(self) -> bool {
        self.op@.kind == OpKind::CreateDirectory
    }

    /// The kind of the operation, which is always the one that the type
    /// says.
    pub fn kind(&self) -> (kind: OpKind)
        ensures
            kind == OpKind::CreateDirectory,
            self@.kind == OpKind::CreateDirectory,
    {
        proof {
            use_type_invariant(self);
        }
        self.op.kind()
    }

    /// The operation that creates a directory at `path`.
    pub fn new(path: &str) -> (created: CreateDirectory)
        ensures
            created@ == OperationView::fresh(
                OpKind::CreateDirectory,
                path@,
                Seq::empty(),
                Seq::empty(),
                Seq::empty(),
            ),
    {
        let empty = String::new();
        CreateDirectory {
            op: Operation::new(
                OpKind::CreateDirectory,
                path,
                empty.as_str(),
                empty.as_str(),
                Vec::new(),
            ),
        }
    }

    /// The operation without its kind in its type.
    pub fn into_operation(self) -> (op: Operation)
        ensures
            op@ == self@,
    {
        self.op
    }

    /// Takes the operation out and leaves a blank one of the same kind in
    /// its place, for the caller to put the operation back.
    fn take(&mut self) -> (op: Operation)
        ensures
            op@ == old(self)@,
            op@.kind == OpKind::CreateDirectory,
    {
        proof {
            use_type_invariant(&*self);
        }
        let mut held = CreateDirectory::new("");
        core::mem::swap(self, &mut held);
        let CreateDirectory { op } = held;
        op
    }
}

impl RollbackableOperation for CreateDirectory {
    open spec fn execute_allows(&self, reply: Option<Reply>, after: &Self, step: StepView) -> bool {
        execute_relation(self@, reply, after@, step)
    }

    open spec fn rollback_allows(
        &self,
        reply: Option<Reply>,
        after: &Self,
        step: StepView,
    ) -> bool {
        rollback_relation(self@, reply, after@, step)
    }

    fn execute(&mut self, reply: Option<FsReply>) -> (step: Step) {
        let mut op = self.take();
        let step = op.execute(reply);
        *self = CreateDirectory { op };
        step
    }

    fn rollback(&mut self, reply: Option<FsReply>) -> (step: Step) {
        let mut op = self.take();
        let step = op.rollback(reply);
        *self = CreateDirectory { op };
        step
    }
}

} // verus!
