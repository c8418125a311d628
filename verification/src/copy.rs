//! Copying a file or a directory tree.

use vstd::prelude::*;
use crate::operation::{execute_relation, rollback_relation, OpKind, Operation, OperationView};
use crate::protocol::{FsReply, FsRequest, Reply, Step, StepView};
use crate::rollbackable::{DirectoryOperation, RollbackableOperation};

verus! {

/// Copies the bytes of a file to a destination. Rollback removes the
/// destination; the source is never touched.
pub struct CopyFile {
    op: Operation,
}

impl View for CopyFile {
    type V = OperationView;

    closed spec fn view(&self) -> OperationView {
        self.op@
    }
}

impl CopyFile {
    /// The operation inside is of the kind that the type says.
    #[verifier::type_invariant]
    spec fn kind_fits(self) -> bool {
        self.op@.kind == OpKind::CopyFile
    }

    /// The kind of the operation, which is always the one that the type
    /// says.
    pub fn kind(&self) -> (kind: OpKind)
        ensures
            kind == OpKind::CopyFile,
            self@.kind == OpKind::CopyFile,
    {
        proof {
            use_type_invariant(self);
        }
        self.op.kind()
    }

    /// The operation that copies the file at `source` to `dest`.
    pub fn new(source: &str, dest: &str) -> (made: CopyFile)
        ensures
            made@ == OperationView::fresh(
                OpKind::CopyFile,
                source@,
                dest@,
                Seq::empty(),
                Seq::empty(),
            ),
    {
        let empty = String::new();
        CopyFile { op: Operation::new(OpKind::CopyFile, source, dest, empty.as_str(), Vec::new()) }
    }

    /// The operation without its kind in its type.
    pub fn into_operation(self) -> (op: Operation)
        ensures
            op@ == self@,
    {
        self.op
    }

    /// Takes the operation out and leaves a blank one of the same kind in
    /// its place, for the caller to put the operation back.
    fn take(&mut self) -> (op: Operation)
        ensures
            op@ == old(self)@,
            op@.kind == OpKind::CopyFile,
    {
        proof {
            use_type_invariant(&*self);
        }
        let mut held = CopyFile::new("", "");
        core::mem::swap(self, &mut held);
        let CopyFile { op } = held;
        op
    }
}

impl RollbackableOperation for CopyFile {
    open spec fn execute_allows(&self, reply: Option<Reply>, after: &Self, step: StepView) -> bool {
        execute_relation(self@, reply, after@, step)
    }

    open spec fn rollback_allows(
        &self,
        reply: Option<Reply>,
        after: &Self,
        step: StepView,
    ) -> bool {
        rollback_relation(self@, reply, after@, step)
    }

    fn execute(&mut self, reply: Option<FsReply>) -> (step: Step) {
        let mut op = self.take();
        let step = op.execute(reply);
        *self = CopyFile { op };
        step
    }

    fn rollback(&mut self, reply: Option<FsReply>) -> (step: Step) {
        let mut op = self.take();
        let step = op.rollback(reply);
        *self = CopyFile { op };
        step
    }
}

/// Copies a directory tree to a destination, after saving the tree. Rollback
/// removes the destination and everything under it; the source is never
/// touched.
pub struct CopyDirectory {
    op: Operation,
}

impl View for CopyDirectory {
    type V = OperationView;

    closed spec fn view(&self) -> OperationView {
        self.op@
    }
}

impl CopyDirectory {
    /// The operation inside is of the kind that the type says.
    #[verifier::type_invariant]
    spec fn kind_fits(self) -> bool {
        self.op@.kind == OpKind::CopyDirectory
    }

    /// The kind of the operation, which is always the one that the type
    /// says.
    pub fn kind(&self) -> (kind: OpKind)
        ensures
            kind == OpKind::CopyDirectory,
            self@.kind == OpKind::CopyDirectory,
    {
        proof {
            use_type_invariant(self);
        }
        self.op.kind()
    }

    /// The operation that copies the tree at `source` to `dest` and keeps its
    /// backup under `temp_dir`.
    pub fn new(source: &str, dest: &str, temp_dir: &str) -> (made: CopyDirectory)
        ensures
            made@ == OperationView::fresh(
                OpKind::CopyDirectory,
                source@,
                dest@,
                temp_dir@,
                Seq::empty(),
            ),
    {
        CopyDirectory {
            op: Operation::new(OpKind::CopyDirectory, source, dest, temp_dir, Vec::new()),
        }
    }

    /// The operation without its kind in its type.
    pub fn into_operation(self) -> (op: Operation)
        ensures
            op@ == self@,
    {
        self.op
    }

    /// Starts the execution with a backup name chosen by the caller, where
    /// `execute` would draw one.
    pub fn execute_named(&mut self, name: &str) -> (step: Step)
        ensures
            (final(self)@, step@) == old(self)@.execute_start(name@),
    {
        let mut op = self.take();
        let step = op.execute_named(name);
        *self = CopyDirectory { op };
        step
    }

    /// Takes the operation out and leaves a blank one of the same kind in
    /// its place, for the caller to put the operation back.
    fn take(&mut self) -> (op: Operation)
        ensures
            op@ == old(self)@,
            op@.kind == OpKind::CopyDirectory,
    {
        proof {
            use_type_invariant(&*self);
        }
        let mut held = CopyDirectory::new("", "", "");
        core::mem::swap(self, &mut held);
        let CopyDirectory { op } = held;
        op
    }
}

impl RollbackableOperation for CopyDirectory {
    open spec fn execute_allows(&self, reply: Option<Reply>, after: &Self, step: StepView) -> bool {
        execute_relation(self@, reply, after@, step)
    }

    open spec fn rollback_allows(
        &self,
        reply: Option<Reply>,
        after: &Self,
        step: StepView,
    ) -> bool {
        rollback_relation(self@, reply, after@, step)
    }

    fn execute(&mut self, reply: Option<FsReply>) -> (step: Step) {
        let mut op = self.take();
        let step = op.execute(reply);
        *self = CopyDirectory { op };
        step
    }

    fn rollback(&mut self, reply: Option<FsReply>) -> (step: Step) {
        let mut op = self.take();
        let step = op.rollback(reply);
        *self = CopyDirectory { op };
        step
    }
}

impl DirectoryOperation for CopyDirectory {
    open spec fn directory_operation(&self) -> OperationView {
        self@
    }

    fn get_path(&self) -> (path: &String) {
        self.op.get_path()
    }

    fn get_backup_path(&self) -> (path: &String) {
        self.op.get_backup_path()
    }

    fn get_temp_dir(&self) -> (path: &String) {
        self.op.get_temp_dir()
    }

    fn dispose(&self) -> (request: Option<FsRequest>) {
        self.op.dispose()
    }

    fn create_backup_folder(&mut self, reply: Option<FsReply>) -> (step: Step) {
        let mut op = self.take();
        let step = op.backup(reply);
        *self = CopyDirectory { op };
        step
    }

    fn create_backup_folder_named(&mut self, name: &str) -> (step: Step) {
        let mut op = self.take();
        let step = op.backup_named(name);
        *self = CopyDirectory { op };
        step
    }

    fn set_backup_path(&mut self, path: &str) {
        let mut op = self.take();
        op.set_backup_path(path);
        *self = CopyDirectory { op };
    }
}

} // verus!
