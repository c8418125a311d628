//! The interfaces that operations share.

use vstd::prelude::*;
use crate::operation::{backup_relation, OperationView};
use crate::protocol::{reply_view, FsReply, FsRequest, Reply, Step, StepView};

verus! {

/// Something that can be executed and undone, one filesystem request at a
/// time.
///
/// Both methods follow one protocol: a call with `None` starts and returns
/// the first step; while the step is `Ask`, the caller performs the request
/// and calls again with its reply; `Finished` carries the outcome. `execute`
/// comes before `rollback`, and each is run at most once.
pub trait RollbackableOperation: Sized {
    /// Which state and step a call of `execute` may lead to.
    spec fn execute_allows(&self, reply: Option<Reply>, after: &Self, step: StepView) -> bool;

    /// Which state and step a call of `rollback` may lead to.
    spec fn rollback_allows(&self, reply: Option<Reply>, after: &Self, step: StepView) -> bool;

    /// Starts or continues the execution.
    fn execute(&mut self, reply: Option<FsReply>) -> (step: Step)
        ensures
            old(self).execute_allows(reply_view(reply), final(self), step@),
    ;

    /// Starts or continues the rollback.
    fn rollback(&mut self, reply: Option<FsReply>) -> (step: Step)
        ensures
            old(self).rollback_allows(reply_view(reply), final(self), step@),
    ;
}

/// An operation on one file that saves the file before it touches it.
pub trait SingleFileOperation: RollbackableOperation {
    /// The operation as contracts see it.
    spec fn file_operation(&self) -> OperationView;

    /// The path of the file.
    fn get_path(&self) -> (path: &String)
        ensures
            path@ == self.file_operation().source,
    ;

    /// The path of the backup file; empty as long as no backup is complete.
    fn get_backup_path(&self) -> (path: &String)
        ensures
            path@ == self.file_operation().backup_path,
    ;

    /// The directory that holds the backup file.
    fn get_temp_dir(&self) -> (path: &String)
        ensures
            path@ == self.file_operation().temp_dir,
    ;

    /// Takes the backup of the file, one request at a time: makes sure that
    /// the backup directory exists, then copies the file into it under a
    /// fresh name. A call with `None` starts and draws the name; a call
    /// with a reply goes on. The reply that completes the copy writes the
    /// backup path down; a failure leaves it empty.
    fn create_backup_file(&mut self, reply: Option<FsReply>) -> (step: Step)
        ensures
            backup_relation(
                old(self).file_operation(),
                reply_view(reply),
                final(self).file_operation(),
                step@,
            ),
    ;

    /// Starts the backup of the file under a name chosen by the caller,
    /// where `create_backup_file` would draw one.
    fn create_backup_file_named(&mut self, name: &str) -> (step: Step)
        ensures
            (final(self).file_operation(), step@) == old(self).file_operation().backup_start(
                name@,
            ),
    ;

    /// Writes `path` down as the place of the backup file, for a caller that
    /// has taken the backup, or moved it, by means of its own.
    fn set_backup_path(&mut self, path: &str)
        ensures
            final(self).file_operation() == (OperationView {
                backup_path: path@,
                ..old(self).file_operation()
            }),
    ;

    /// The request that removes the backup file, or `None` where there is
    /// none.
    fn dispose(&self) -> (request: Option<FsRequest>)
        ensures
            match request {
                Some(r) => self.file_operation().dispose_request() == Some(r@),
                None => self.file_operation().dispose_request() is None,
            },
    ;
}

/// An operation on a directory that saves the directory before it goes on.
pub trait DirectoryOperation: RollbackableOperation {
    /// The operation as contracts see it.
    spec fn directory_operation(&self) -> OperationView;

    /// The path of the directory.
    fn get_path(&self) -> (path: &String)
        ensures
            path@ == self.directory_operation().source,
    ;

    /// The path of the backup directory; empty as long as no backup is
    /// complete.
    fn get_backup_path(&self) -> (path: &String)
        ensures
            path@ == self.directory_operation().backup_path,
    ;

    /// The directory that holds the backup directory.
    fn get_temp_dir(&self) -> (path: &String)
        ensures
            path@ == self.directory_operation().temp_dir,
    ;

    /// Takes the backup of the directory, one request at a time: makes sure
    /// that the backup directory exists, then copies the tree into it under
    /// a fresh name. A call with `None` starts and draws the name; a call
    /// with a reply goes on. The reply that completes the copy writes the
    /// backup path down; a failure leaves it empty, and what was copied
    /// until then stays where it is.
    fn create_backup_folder(&mut self, reply: Option<FsReply>) -> (step: Step)
        ensures
            backup_relation(
                old(self).directory_operation(),
                reply_view(reply),
                final(self).directory_operation(),
                step@,
            ),
    ;

    /// Starts the backup of the directory under a name chosen by the caller,
    /// where `create_backup_folder` would draw one.
    fn create_backup_folder_named(&mut self, name: &str) -> (step: Step)
        ensures
            (final(self).directory_operation(), step@) == old(
                self,
            ).directory_operation().backup_start(name@),
    ;

    /// Writes `path` down as the place of the backup directory, for a caller
    /// that has taken the backup, or moved it, by means of its own.
    fn set_backup_path(&mut self, path: &str)
        ensures
            final(self).directory_operation() == (OperationView {
                backup_path: path@,
                ..old(self).directory_operation()
            }),
    ;

    /// The request that removes the backup directory and everything under
    /// it, or `None` where there is none left.
    fn dispose(&self) -> (request: Option<FsRequest>)
        ensures
            match request {
                Some(r) => self.directory_operation().dispose_request() == Some(r@),
                None => self.directory_operation().dispose_request() is None,
            },
    ;
}

} // verus!
