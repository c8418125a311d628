//! Appending a payload to a file.

use vstd::prelude::*;
use crate::operation::{execute_relation, rollback_relation, OpKind, Operation, OperationView};
use crate::protocol::{FsReply, FsRequest, Reply, Step, StepView};
use crate::rollbackable::{RollbackableOperation, SingleFileOperation};

verus! {

/// Adds its payload at the end of an existing file, after saving the file.
/// Rollback gives the file the bytes of the backup, and no others.
pub struct AppendFile {
    op: Operation,
}

impl View for AppendFile {
    type V = OperationView;

    closed spec fn view(&self) -> OperationView {
        self.op@
    }
}

impl AppendFile {
    /// The operation inside is of the kind that the type says.
    #[verifier::type_invariant]
    spec fn kind_fits(self) -> bool {
        self.op@.kind == OpKind::Append
    }

    /// The kind of the operation, which is always the one that the type
    /// says.
    pub fn kind(&self) -> (kind: OpKind)
        ensures
            kind == OpKind::Append,
            self@.kind == OpKind::Append,
    {
        proof {
            use_type_invariant(self);
        }
        self.op.kind()
    }

    /// The operation that appends `data` to the file at `source` and keeps its
    /// backup under `temp_dir`.
    pub fn new(source: &str, temp_dir: &str, data: Vec<u8>) -> (made: AppendFile)
        ensures
            made@ == OperationView::fresh(
                OpKind::Append,
                source@,
                Seq::empty(),
                temp_dir@,
                data@,
            ),
    {
        let empty = String::new();
        AppendFile { op: Operation::new(OpKind::Append, source, empty.as_str(), temp_dir, data) }
    }

    /// The operation without its kind in its type.
    pub fn into_operation(self) -> (op: Operation)
        ensures
            op@ == self@,
    {
        self.op
    }

    /// Starts the execution with a backup name chosen by the caller, where
    /// `execute` would draw one.
    pub fn execute_named(&mut self, name: &str) -> (step: Step)
        ensures
            (final(self)@, step@) == old(self)@.execute_start(name@),
    {
        let mut op = self.take();
        let step = op.execute_named(name);
        *self = AppendFile { op };
        step
    }

    /// Takes the operation out and leaves a blank one of the same kind in
    /// its place, for the caller to put the operation back.
    fn take(&mut self) -> (op: Operation)
        ensures
            op@ == old(self)@,
            op@.kind == OpKind::Append,
    {
        proof {
            use_type_invariant(&*self);
        }
        let mut held = AppendFile::new("", "", Vec::new());
        core::mem::swap(self, &mut held);
        let AppendFile { op } = held;
        op
    }
}

impl RollbackableOperation for AppendFile {
    open spec fn execute_allows(&self, reply: Option<Reply>, after: &Self, step: StepView) -> bool {
        execute_relation(self@, reply, after@, step)
    }

    open spec fn rollback_allows(
        &self,
        reply: Option<Reply>,
        after: &Self,
        step: StepView,
    ) -> bool {
        rollback_relation(self@, reply, after@, step)
    }

    fn execute(&mut self, reply: Option<FsReply>) -> (step: Step) {
        let mut op = self.take();
        let step = op.execute(reply);
        *self = AppendFile { op };
        step
    }

    fn rollback(&mut self, reply: Option<FsReply>) -> (step: Step) {
        let mut op = self.take();
        let step = op.rollback(reply);
        *self = AppendFile { op };
        step
    }
}

impl SingleFileOperation for AppendFile {
    open spec fn file_operation(&self) -> OperationView {
        self@
    }

    fn get_path(&self) -> (path: &String) {
        self.op.get_path()
    }

    fn get_backup_path(&self) -> (path: &String) {
        self.op.get_backup_path()
    }

    fn get_temp_dir(&self) -> (path: &String) {
        self.op.get_temp_dir()
    }

    fn dispose(&self) -> (request: Option<FsRequest>) {
        self.op.dispose()
    }

    fn create_backup_file(&mut self, reply: Option<FsReply>) -> (step: Step) {
        let mut op = self.take();
        let step = op.backup(reply);
        *self = AppendFile { op };
        step
    }

    fn create_backup_file_named(&mut self, name: &str) -> (step: Step) {
        let mut op = self.take();
        let step = op.backup_named(name);
        *self = AppendFile { op };
        step
    }

    fn set_backup_path(&mut self, path: &str) {
        let mut op = self.take();
        op.set_backup_path(path);
        *self = AppendFile { op };
    }
}

} // verus!
