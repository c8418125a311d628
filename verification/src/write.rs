//! Writing a payload as the whole contents of a file.

use vstd::prelude::*;
use crate::operation::{execute_relation, rollback_relation, OpKind, Operation, OperationView};
use crate::protocol::{FsReply, FsRequest, Reply, Step, StepView};
use crate::rollbackable::{RollbackableOperation, SingleFileOperation};

verus! {

/// Gives an existing file its payload as its whole contents, after saving
/// the file: what the file held before is gone. Rollback gives the file the
/// bytes of the backup, and no others.
pub struct WriteFile {
    op: Operation,
}

impl View for WriteFile {
    type V = OperationView;

    closed spec fn view(&self) -> OperationView {
        self.op@
    }
}

impl WriteFile {
    /// The operation inside is of the kind that the type says.
    #[verifier::type_invariant]
    spec fn kind_fits(self) -> bool {
        self.op@.kind == OpKind::Write
    }

    /// The kind of the operation, which is always the one that the type
    /// says.
    pub fn kind(&self) -> (kind: OpKind)
        ensures
            kind == OpKind::Write,
            self@.kind == OpKind::Write,
    {
        proof {
            use_type_invariant(self);
        }
        self.op.kind()
    }

    /// The operation that writes `data` to the file at `source` and keeps its
    /// backup under `temp_dir`.
    pub fn new(source: &str, temp_dir: &str, data: Vec<u8>) -> (made: WriteFile)
        ensures
            made@ == OperationView::fresh(
                OpKind::Write,
                source@,
                Seq::empty(),
                temp_dir@,
                data@,
            ),
    {
        let empty = String::new();
        WriteFile { op: Operation::new(OpKind::Write, source, empty.as_str(), temp_dir, data) }
    }

    /// The operation without its kind in its type.
    pub fn into_operation(self) -> (op: Operation)
        ensures
            op@ == self@,
    {
        self.op
    }

    /// Starts the execution with a backup name chosen by the caller, where
    /// `execute` would draw one.
    pub fn execute_named(&mut self, name: &str) -> (step: Step)
        ensures
            (final(self)@, step@) == old(self)@.execute_start(name@),
    {
        let mut op = self.take();
        let step = op.execute_named(name);
        *self = WriteFile { op };
        step
    }

    /// Takes the operation out and leaves a blank one of the same kind in
    /// its place, for the caller to put the operation back.
    fn take(&mut self) -> (op: Operation)
        ensures
            op@ == old(self)@,
            op@.kind == OpKind::Write,
    {
        proof {
            use_type_invariant(&*self);
        }
        let mut held = WriteFile::new("", "", Vec::new());
        core::mem::swap(self, &mut held);
        let WriteFile { op } = held;
        op
    }
}

impl RollbackableOperation for WriteFile {
    open spec fn execute_allows(&self, reply: Option<Reply>, after: &Self, step: StepView) -> bool {
        execute_relation(self@, reply, after@, step)
    }

    open spec fn rollback_allows(
        &self,
        reply: Option<Reply>,
        after: &Self,
        step: StepView,
    ) -> bool {
        rollback_relation(self@, reply, after@, step)
    }

    fn execute(&mut self, reply: Option<FsReply>) -> (step: Step) {
        let mut op = self.take();
        let step = op.execute(reply);
        *self = WriteFile { op };
        step
    }

    fn rollback(&mut self, reply: Option<FsReply>) -> (step: Step) {
        let mut op = self.take();
        let step = op.rollback(reply);
        *self = WriteFile { op };
        step
    }
}

impl SingleFileOperation for WriteFile {
    open spec fn file_operation(&self) -> OperationView {
        self@
    }

    fn get_path(&self) -> (path: &String) {
        self.op.get_path()
    }

    fn get_backup_path(&self) -> (path: &String) {
        self.op.get_backup_path()
    }

    fn get_temp_dir(&self) -> (path: &String) {
        self.op.get_temp_dir()
    }

    fn dispose(&self) -> (request: Option<FsRequest>) {
        self.op.dispose()
    }

    fn create_backup_file(&mut self, reply: Option<FsReply>) -> (step: Step) {
        let mut op = self.take();
        let step = op.backup(reply);
        *self = WriteFile { op };
        step
    }

    fn create_backup_file_named(&mut self, name: &str) -> (step: Step) {
        let mut op = self.take();
        let step = op.backup_named(name);
        *self = WriteFile { op };
        step
    }

    fn set_backup_path(&mut self, path: &str) {
        let mut op = self.take();
        op.set_backup_path(path);
        *self = WriteFile { op };
    }
}

} // verus!
