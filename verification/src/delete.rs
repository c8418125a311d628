//! Removing a file or a directory tree.

use vstd::prelude::*;
use crate::operation::{execute_relation, rollback_relation, OpKind, Operation, OperationView};
use crate::protocol::{FsReply, FsRequest, Reply, Step, StepView};
use crate::rollbackable::{DirectoryOperation, RollbackableOperation, SingleFileOperation};

verus! {

/// Removes a file, after saving it. Rollback copies the backup to where the
/// file was.
pub struct DeleteFile {
    op: Operation,
}

impl View for DeleteFile {
    type V = OperationView;

    closed spec fn view(&self) -> OperationView {
        self.op@
    }
}

impl DeleteFile {
    /// The operation inside is of the kind that the type says.
    #[verifier::type_invariant]
    spec fn kind_fits(self) -> bool {
        self.op@.kind == OpKind::DeleteFile
    }

    /// The kind of the operation, which is always the one that the type
    /// says.
    pub fn kind(&self) -> (kind: OpKind)
        ensures
            kind == OpKind::DeleteFile,
            self@.kind == OpKind::DeleteFile,
    {
        proof {
            use_type_invariant(self);
        }
        self.op.kind()
    }

    /// The operation that removes the file at `source` and keeps its backup
    /// under `temp_dir`.
    pub fn new(source: &str, temp_dir: &str) -> (made: DeleteFile)
        ensures
            made@ == OperationView::fresh(
                OpKind::DeleteFile,
                source@,
                Seq::empty(),
                temp_dir@,
                Seq::empty(),
            ),
    {
        let empty = String::new();
        DeleteFile {
            op: Operation::new(OpKind::DeleteFile, source, empty.as_str(), temp_dir, Vec::new()),
        }
    }

    /// The operation without its kind in its type.
    pub fn into_operation(self) -> (op: Operation)
        ensures
            op@ == self@,
    {
        self.op
    }

    /// Starts the execution with a backup name chosen by the caller, where
    /// `execute` would draw one.
    pub fn execute_named(&mut self, name: &str) -> (step: Step)
        ensures
            (final(self)@, step@) == old(self)@.execute_start(name@),
    {
        let mut op = self.take();
        let step = op.execute_named(name);
        *self = DeleteFile { op };
        step
    }

    /// Takes the operation out and leaves a blank one of the same kind in
    /// its place, for the caller to put the operation back.
    fn take(&mut self) -> (op: Operation)
        ensures
            op@ == old(self)@,
            op@.kind == OpKind::DeleteFile,
    {
        proof {
            use_type_invariant(&*self);
        }
        let mut held = DeleteFile::new("", "");
        core::mem::swap(self, &mut held);
        let DeleteFile { op } = held;
        op
    }
}

impl RollbackableOperation for DeleteFile {
    open spec fn execute_allows(&self, reply: Option<Reply>, after: &Self, step: StepView) -> bool {
        execute_relation(self@, reply, after@, step)
    }

    open spec fn rollback_allows(
        &self,
        reply: Option<Reply>,
        after: &Self,
        step: StepView,
    ) -> bool {
        rollback_relation(self@, reply, after@, step)
    }

    fn execute(&mut self, reply: Option<FsReply>) -> (step: Step) {
        let mut op = self.take();
        let step = op.execute(reply);
        *self = DeleteFile { op };
        step
    }

    fn rollback(&mut self, reply: Option<FsReply>) -> (step: Step) {
        let mut op = self.take();
        let step = op.rollback(reply);
        *self = DeleteFile { op };
        step
    }
}

impl SingleFileOperation for DeleteFile {
    open spec fn file_operation(&self) -> OperationView {
        self@
    }

    fn get_path(&self) -> (path: &String) {
        self.op.get_path()
    }

    fn get_backup_path(&self) -> (path: &String) {
        self.op.get_backup_path()
    }

    fn get_temp_dir(&self) -> (path: &String) {
        self.op.get_temp_dir()
    }

    fn dispose(&self) -> (request: Option<FsRequest>) {
        self.op.dispose()
    }

    fn create_backup_file(&mut self, reply: Option<FsReply>) -> (step: Step) {
        let mut op = self.take();
        let step = op.backup(reply);
        *self = DeleteFile { op };
        step
    }

    fn create_backup_file_named(&mut self, name: &str) -> (step: Step) {
        let mut op = self.take();
        let step = op.backup_named(name);
        *self = DeleteFile { op };
        step
    }

    fn set_backup_path(&mut self, path: &str) {
        let mut op = self.take();
        op.set_backup_path(path);
        *self = DeleteFile { op };
    }
}

/// Removes a directory and everything under it, after saving the tree.
/// Rollback moves the backup to where the directory was, so that the backup
/// is used up.
pub struct DeleteDirectory {
    op: Operation,
}

impl View for DeleteDirectory {
    type V = OperationView;

    closed spec fn view(&self) -> OperationView {
        self.op@
    }
}

impl DeleteDirectory {
    /// The operation inside is of the kind that the type says.
    #[verifier::type_invariant]
    spec fn kind_fits(self) -> bool {
        self.op@.kind == OpKind::DeleteDirectory
    }

    /// The kind of the operation, which is always the one that the type
    /// says.
    pub fn kind(&self) -> (kind: OpKind)
        ensures
            kind == OpKind::DeleteDirectory,
            self@.kind == OpKind::DeleteDirectory,
    {
        proof {
            use_type_invariant(self);
        }
        self.op.kind()
    }

    /// The operation that removes the tree at `source` and keeps its backup
    /// under `temp_dir`.
    pub fn new(source: &str, temp_dir: &str) -> (made: DeleteDirectory)
        ensures
            made@ == OperationView::fresh(
                OpKind::DeleteDirectory,
                source@,
                Seq::empty(),
                temp_dir@,
                Seq::empty(),
            ),
    {
        let empty = String::new();
        DeleteDirectory {
            op: Operation::new(
                OpKind::DeleteDirectory,
                source,
                empty.as_str(),
                temp_dir,
                Vec::new(),
            ),
        }
    }

    /// The operation without its kind in its type.
    pub fn into_operation(self) -> (op: Operation)
        ensures
            op@ == self@,
    {
        self.op
    }

    /// Starts the execution with a backup name chosen by the caller, where
    /// `execute` would draw one.
    pub fn execute_named(&mut self, name: &str) -> (step: Step)
        ensures
            (final(self)@, step@) == old(self)@.execute_start(name@),
    {
        let mut op = self.take();
        let step = op.execute_named(name);
        *self = DeleteDirectory { op };
        step
    }

    /// Takes the operation out and leaves a blank one of the same kind in
    /// its place, for the caller to put the operation back.
    fn take(&mut self) -> (op: Operation)
        ensures
            op@ == old(self)@,
            op@.kind == OpKind::DeleteDirectory,
    {
        proof {
            use_type_invariant(&*self);
        }
        let mut held = DeleteDirectory::new("", "");
        core::mem::swap(self, &mut held);
        let DeleteDirectory { op } = held;
        op
    }
}

impl RollbackableOperation for DeleteDirectory {
    open spec fn execute_allows(&self, reply: Option<Reply>, after: &Self, step: StepView) -> bool {
        execute_relation(self@, reply, after@, step)
    }

    open spec fn rollback_allows(
        &self,
        reply: Option<Reply>,
        after: &Self,
        step: StepView,
    ) -> bool {
        rollback_relation(self@, reply, after@, step)
    }

    fn execute(&mut self, reply: Option<FsReply>) -> (step: Step) {
        let mut op = self.take();
        let step = op.execute(reply);
        *self = DeleteDirectory { op };
        step
    }

    fn rollback(&mut self, reply: Option<FsReply>) -> (step: Step) {
        let mut op = self.take();
        let step = op.rollback(reply);
        *self = DeleteDirectory { op };
        step
    }
}

impl DirectoryOperation for DeleteDirectory {
    open spec fn directory_operation(&self) -> OperationView {
        self@
    }

    fn get_path(&self) -> (path: &String) {
        self.op.get_path()
    }

    fn get_backup_path(&self) -> (path: &String) {
        self.op.get_backup_path()
    }

    fn get_temp_dir(&self) -> (path: &String) {
        self.op.get_temp_dir()
    }

    fn dispose(&self) -> (request: Option<FsRequest>) {
        self.op.dispose()
    }

    fn create_backup_folder(&mut self, reply: Option<FsReply>) -> (step: Step) {
        let mut op = self.take();
        let step = op.backup(reply);
        *self = DeleteDirectory { op };
        step
    }

    fn create_backup_folder_named(&mut self, name: &str) -> (step: Step) {
        let mut op = self.take();
        let step = op.backup_named(name);
        *self = DeleteDirectory { op };
        step
    }

    fn set_backup_path(&mut self, path: &str) {
        let mut op = self.take();
        op.set_backup_path(path);
        *self = DeleteDirectory { op };
    }
}

} // verus!
