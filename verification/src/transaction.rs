//! Transactions: operations run in the order they were added, and undone in
//! the opposite order.
//!
//! Executing stops at the first operation that fails. An operation counts as
//! reached from the moment its execution is started, whether it then
//! succeeds or fails, so that a later rollback starts with the operation
//! that failed. Rolling back stops at the first rollback that fails.

use vstd::prelude::*;
use crate::append::AppendFile;
use crate::copy::{CopyDirectory, CopyFile};
use crate::create::{CreateDirectory, CreateFile};
use crate::delete::{DeleteDirectory, DeleteFile};
use crate::error::{IoError, IoErrorKind};
use crate::ident::is_random_id;
use crate::path::is_entry_name;
use crate::operation::{Activity, OpKind, Operation, OperationView};
use crate::protocol::{reply_view, FsReply, FsRequest, Reply, Request, Step, StepView};
use crate::relocate::{MoveDirectory, MoveFile};
use crate::rollbackable::RollbackableOperation;
use crate::write::WriteFile;

verus! {

/// Where a transaction stands.
#[derive(Clone, Copy, Debug, PartialEq, Eq, Structural)]
pub enum Phase {
    /// Operations are being added; nothing ran yet.
    Building,
    /// The execution is under way.
    Executing,
    /// The rollback is under way.
    RollingBack,
    /// The execution or the rollback is over.
    Terminal,
}

/// A transaction as contracts see it.
pub struct TransactionView {
    /// The operations, in the order they were added.
    pub ops: Seq<OperationView>,
    /// How many operations had their execution started.
    pub execution_count: nat,
    pub phase: Phase,
    /// How many operations a rollback under way has yet to undo: the next
    /// one it undoes is the last of them.
    pub remaining: nat,
}

impl TransactionView {
    /// A transaction with no operations.
    pub open spec fn empty() -> TransactionView {
        TransactionView { ops: Seq::empty(), execution_count: 0, phase: Phase::Building, remaining: 0 }
    }

    /// The transaction with `op` added at the end.
    pub open spec fn with(self, op: OperationView) -> TransactionView {
        TransactionView { ops: self.ops.push(op), ..self }
    }

    /// What always holds: no more operations were started than there are, and
    /// a rollback has no more to undo than were started.
    pub open spec fn wf(self) -> bool {
        &&& self.execution_count <= self.ops.len()
        &&& self.remaining <= self.execution_count
    }

    /// The backup name of the operation that was started last.
    pub open spec fn last_name(self) -> Seq<char> {
        if 0 < self.execution_count <= self.ops.len() {
            self.ops[self.execution_count - 1].backup_name
        } else {
            Seq::empty()
        }
    }

    /// The answer to a call that the phase does not allow: nothing changes.
    pub open spec fn refuse(self) -> (TransactionView, StepView) {
        (self, StepView::Finished(Err(IoError { kind: IoErrorKind::Other })))
    }

    /// Counts the next operation as reached and starts its execution; with
    /// none left the execution is over. It is over as well where the
    /// operation does not start, because it was started before.
    pub open spec fn execute_proceed(self, name: Seq<char>) -> (TransactionView, StepView) {
        if self.execution_count < self.ops.len() {
            let i = self.execution_count as int;
            let started = self.ops[i].execute_start(name);
            let reached = TransactionView {
                ops: self.ops.update(i, started.0),
                execution_count: self.execution_count + 1,
                ..self
            };
            match started.1 {
                StepView::Ask(_) => (reached, started.1),
                StepView::Finished(_) => (
                    TransactionView { phase: Phase::Terminal, ..reached },
                    started.1,
                ),
            }
        } else {
            (TransactionView { phase: Phase::Terminal, ..self }, StepView::Finished(Ok(())))
        }
    }

    /// Starts the execution. Only a transaction that is being built can start.
    pub open spec fn execute_start(self, name: Seq<char>) -> (TransactionView, StepView) {
        if self.phase == Phase::Building {
            TransactionView { phase: Phase::Executing, ..self }.execute_proceed(name)
        } else {
            self.refuse()
        }
    }

    /// Hands `reply` to the operation that was started last. When that
    /// operation succeeds the next one is started; when it fails the
    /// execution is over with its error.
    pub open spec fn execute_next(self, reply: Reply, name: Seq<char>) -> (
        TransactionView,
        StepView,
    ) {
        if self.phase == Phase::Executing && 0 < self.execution_count <= self.ops.len() {
            let i = self.execution_count - 1;
            let advanced = self.ops[i].execute_next(reply);
            let tx = TransactionView { ops: self.ops.update(i, advanced.0), ..self };
            match advanced.1 {
                StepView::Ask(request) => (tx, StepView::Ask(request)),
                StepView::Finished(Ok(_)) => tx.execute_proceed(name),
                StepView::Finished(Err(e)) => (
                    TransactionView { phase: Phase::Terminal, ..tx },
                    StepView::Finished(Err(e)),
                ),
            }
        } else {
            self.refuse()
        }
    }

    /// One call of `execute`, where `name` is the backup name of the
    /// operation that the call starts, if it starts one.
    pub open spec fn execute_step(self, reply: Option<Reply>, name: Seq<char>) -> (
        TransactionView,
        StepView,
    ) {
        match reply {
            None => self.execute_start(name),
            Some(r) => self.execute_next(r, name),
        }
    }

    /// Starts the rollback of the last operation that is yet to be undone;
    /// with none left the rollback is over.
    pub open spec fn rollback_proceed(self) -> (TransactionView, StepView) {
        if 0 < self.remaining <= self.ops.len() {
            let i = self.remaining - 1;
            let started = self.ops[i].rollback_start();
            (TransactionView { ops: self.ops.update(i, started.0), ..self }, started.1)
        } else {
            (TransactionView { phase: Phase::Terminal, ..self }, StepView::Finished(Ok(())))
        }
    }

    /// Starts the rollback: every operation that was reached is to be undone,
    /// the one reached last first.
    pub open spec fn rollback_start(self) -> (TransactionView, StepView) {
        TransactionView {
            phase: Phase::RollingBack,
            remaining: self.execution_count,
            ..self
        }.rollback_proceed()
    }

    /// Hands `reply` to the operation under rollback. When that rollback
    /// succeeds the one before it is started; when it fails the rollback is
    /// over with its error and the operations before it stay as they are.
    pub open spec fn rollback_next(self, reply: Reply) -> (TransactionView, StepView) {
        if self.phase == Phase::RollingBack && 0 < self.remaining <= self.ops.len() {
            let i = self.remaining - 1;
            let advanced = self.ops[i].rollback_next(reply);
            let tx = TransactionView { ops: self.ops.update(i, advanced.0), ..self };
            match advanced.1 {
                StepView::Ask(request) => (tx, StepView::Ask(request)),
                StepView::Finished(Ok(_)) => TransactionView {
                    remaining: (self.remaining - 1) as nat,
                    ..tx
                }.rollback_proceed(),
                StepView::Finished(Err(e)) => (
                    TransactionView { phase: Phase::Terminal, ..tx },
                    StepView::Finished(Err(e)),
                ),
            }
        } else {
            self.refuse()
        }
    }

    /// One call of `rollback`.
    pub open spec fn rollback_step(self, reply: Option<Reply>) -> (TransactionView, StepView) {
        match reply {
            None => self.rollback_start(),
            Some(r) => self.rollback_next(r),
        }
    }
}

/// The operations `ops` as contracts see them.
pub open spec fn ops_view(ops: Seq<Operation>) -> Seq<OperationView> {
    ops.map_values(|op: Operation| op@)
}

/// The requests `requests` as contracts see them.
pub open spec fn requests_view(requests: Seq<FsRequest>) -> Seq<Request> {
    requests.map_values(|r: FsRequest| r@)
}

/// The requests that discard the backups of `ops`: one for each operation
/// that has a backup, in the order of the operations.
pub open spec fn disposals(ops: Seq<OperationView>) -> Seq<Request>
    decreases ops.len(),
{
    if ops.len() == 0 {
        Seq::empty()
    } else {
        let before = disposals(ops.drop_last());
        match ops.last().dispose_request() {
            Some(request) => before.push(request),
            None => before,
        }
    }
}

/// The operations of a transaction and how far it has got with them.
struct Batch {
    ops: Vec<Operation>,
    execution_count: usize,
    phase: Phase,
    remaining: usize,
}

impl View for Batch {
    type V = TransactionView;

    closed spec fn view(&self) -> TransactionView {
        TransactionView {
            ops: ops_view(self.ops@),
            execution_count: self.execution_count as nat,
            phase: self.phase,
            remaining: self.remaining as nat,
        }
    }
}

impl Batch {
    /// A transaction with no operations.
    fn new() -> (tx: Batch)
        ensures
            tx@ == TransactionView::empty(),
    {
        let tx = Batch {
            ops: Vec::new(),
            execution_count: 0,
            phase: Phase::Building,
            remaining: 0,
        };
        assert(tx@.ops =~= Seq::empty());
        tx
    }

    /// Adds `op` at the end.
    fn push(self, op: Operation) -> (tx: Batch)
        ensures
            tx@ == self@.with(op@),
    {
        let ghost added = op@;
        let mut tx = self;
        tx.ops.push(op);
        assert(tx@.ops =~= self@.ops.push(added));
        tx
    }

    /// How many operations the transaction holds.
    fn len(&self) -> (n: usize)
        ensures
            n == self@.ops.len(),
    {
        self.ops.len()
    }

    /// How many operations had their execution started.
    fn execution_count(&self) -> (n: usize)
        ensures
            n == self@.execution_count,
    {
        self.execution_count
    }

    /// How many operations a rollback has yet to undo. After a rollback that
    /// failed, the operation whose rollback failed is the last of them.
    fn remaining(&self) -> (n: usize)
        ensures
            n == self@.remaining,
    {
        self.remaining
    }

    /// Where the transaction stands.
    fn phase(&self) -> (phase: Phase)
        ensures
            phase == self@.phase,
    {
        self.phase
    }

    /// The operation at `index`, if there is one.
    fn operation(&self, index: usize) -> (op: Option<&Operation>)
        ensures
            match op {
                Some(o) => index < self@.ops.len() && o@ == self@.ops[index as int],
                None => index >= self@.ops.len(),
            },
    {
        if index < self.ops.len() {
            Some(&self.ops[index])
        } else {
            None
        }
    }

    /// The requests that discard the backups of the operations, for the
    /// caller to perform when the transaction is no longer needed. A failure
    /// of one of them is for the caller to report; the others are still to
    /// be performed.
    fn dispose(&self) -> (requests: Vec<FsRequest>)
        ensures
            requests_view(requests@) == disposals(self@.ops),
    {
        let mut requests: Vec<FsRequest> = Vec::new();
        let mut i: usize = 0;
        assert(self@.ops.take(0) =~= Seq::empty());
        assert(requests_view(requests@) =~= Seq::empty());
        while i < self.ops.len()
            invariant
                i <= self.ops.len(),
                requests_view(requests@) == disposals(self@.ops.take(i as int)),
            decreases self.ops.len() - i,
        {
            let ghost before = requests_view(requests@);
            let ghost upto = self@.ops.take(i as int + 1);
            assert(upto.drop_last() =~= self@.ops.take(i as int));
            assert(upto.last() == self.ops@[i as int]@);
            match self.ops[i].dispose() {
                Some(request) => {
                    let ghost asked = request@;
                    requests.push(request);
                    assert(requests_view(requests@) =~= before.push(asked));
                },
                None => {},
            }
            i += 1;
        }
        assert(self@.ops.take(i as int) =~= self@.ops);
        requests
    }

    fn refuse(&self) -> (step: Step)
        ensures
            (self@, step@) == self@.refuse(),
    {
        Step::Finished(Err(IoError::new(IoErrorKind::Other)))
    }

    fn execute_proceed(&mut self) -> (step: Step)
        ensures
            (final(self)@, step@) == old(self)@.execute_proceed(final(self)@.last_name()),
            old(self)@.execution_count < old(self)@.ops.len() && old(self)@.ops[old(
                self,
            )@.execution_count as int].takes_backup() && old(self)@.ops[old(
                self,
            )@.execution_count as int].activity == Activity::Idle ==> is_random_id(
                final(self)@.last_name(),
            ) && is_entry_name(final(self)@.last_name()),
    {
        if self.execution_count < self.ops.len() {
            let i = self.execution_count;
            self.execution_count = i + 1;
            let step = self.ops[i].execute(None);
            assert(self@.ops =~= old(self)@.ops.update(i as int, self.ops@[i as int]@));
            match step {
                Step::Ask(request) => Step::Ask(request),
                Step::Finished(outcome) => {
                    self.phase = Phase::Terminal;
                    Step::Finished(outcome)
                },
            }
        } else {
            self.phase = Phase::Terminal;
            Step::Finished(Ok(()))
        }
    }

    fn rollback_proceed(&mut self) -> (step: Step)
        ensures
            (final(self)@, step@) == old(self)@.rollback_proceed(),
    {
        if 0 < self.remaining && self.remaining <= self.ops.len() {
            let i = self.remaining - 1;
            let step = self.ops[i].rollback(None);
            assert(self@.ops =~= old(self)@.ops.update(i as int, self.ops@[i as int]@));
            step
        } else {
            self.phase = Phase::Terminal;
            Step::Finished(Ok(()))
        }
    }
}

/// What a call of `execute` on a transaction may do: the state after and the
/// step are those of `execute_step` with the backup name of the operation
/// started last, and where the call starts an operation that takes a backup,
/// that name has the shape of a random identifier, so that it can name a
/// directory entry.
pub open spec fn tx_execute_relation(
    before: TransactionView,
    reply: Option<Reply>,
    after: TransactionView,
    step: StepView,
) -> bool {
    &&& (after, step) == before.execute_step(reply, after.last_name())
    &&& after.execution_count > before.execution_count && before.execution_count
        < before.ops.len() && before.ops[before.execution_count as int].takes_backup()
        && before.ops[before.execution_count as int].activity == Activity::Idle ==> is_random_id(
        after.last_name(),
    ) && is_entry_name(after.last_name())
}

impl Batch {
    /// Executes the operations in the order they were added, one request at
    /// a time, and stops at the first that fails.
    fn execute(&mut self, reply: Option<FsReply>) -> (step: Step)
        ensures
            tx_execute_relation(old(self)@, reply_view(reply), final(self)@, step@),
    {
        match reply {
            None => {
                if self.phase == Phase::Building {
                    self.phase = Phase::Executing;
                    self.execute_proceed()
                } else {
                    self.refuse()
                }
            },
            Some(r) => {
                if self.phase == Phase::Executing && 0 < self.execution_count
                    && self.execution_count <= self.ops.len() {
                    let i = self.execution_count - 1;
                    let step = self.ops[i].execute(Some(r));
                    assert(self@.ops =~= old(self)@.ops.update(i as int, self.ops@[i as int]@));
                    match step {
                        Step::Ask(request) => Step::Ask(request),
                        Step::Finished(Ok(_)) => self.execute_proceed(),
                        Step::Finished(Err(e)) => {
                            self.phase = Phase::Terminal;
                            Step::Finished(Err(e))
                        },
                    }
                } else {
                    self.refuse()
                }
            },
        }
    }

    /// Undoes the operations that were reached, the one reached last first,
    /// one request at a time, and stops at the first rollback that fails.
    fn rollback(&mut self, reply: Option<FsReply>) -> (step: Step)
        ensures
            (final(self)@, step@) == old(self)@.rollback_step(reply_view(reply)),
    {
        match reply {
            None => {
                self.phase = Phase::RollingBack;
                self.remaining = self.execution_count;
                self.rollback_proceed()
            },
            Some(r) => {
                if self.phase == Phase::RollingBack && 0 < self.remaining && self.remaining
                    <= self.ops.len() {
                    let i = self.remaining - 1;
                    let step = self.ops[i].rollback(Some(r));
                    assert(self@.ops =~= old(self)@.ops.update(i as int, self.ops@[i as int]@));
                    match step {
                        Step::Ask(request) => Step::Ask(request),
                        Step::Finished(Ok(_)) => {
                            self.remaining = i;
                            self.rollback_proceed()
                        },
                        Step::Finished(Err(e)) => {
                            self.phase = Phase::Terminal;
                            Step::Finished(Err(e))
                        },
                    }
                } else {
                    self.refuse()
                }
            },
        }
    }
}


/// An ordered batch of operations that is executed as a whole and can be
/// undone as a whole.
pub struct Transaction {
    batch: Batch,
}

impl View for Transaction {
    type V = TransactionView;

    closed spec fn view(&self) -> TransactionView {
        self.batch@
    }
}

impl Transaction {
    /// No more operations were reached than there are, and a rollback has
    /// no more to undo than were reached.
    #[verifier::type_invariant]
    spec fn bounded(self) -> bool {
        self.batch@.wf()
    }

    /// A transaction with no operations.
    pub fn new() -> (tx: Transaction)
        ensures
            tx@ == TransactionView::empty(),
    {
        Transaction { batch: Batch::new() }
    }

    /// Adds `op` at the end.
    pub fn push(self, op: Operation) -> (tx: Transaction)
        ensures
            tx@ == self@.with(op@),
    {
        proof {
            use_type_invariant(&self);
        }
        let Transaction { batch } = self;
        Transaction { batch: batch.push(op) }
    }

    /// Adds the creation of a file.
    pub fn create_file(self, path: &str) -> (tx: Transaction)
        ensures
            tx@ == self@.with(
                OperationView::fresh(
                    OpKind::CreateFile,
                    path@,
                    Seq::empty(),
                    Seq::empty(),
                    Seq::empty(),
                ),
            ),
    {
        self.push(CreateFile::new(path).into_operation())
    }

    /// Adds the creation of a directory.
    pub fn create_dir(self, path: &str) -> (tx: Transaction)
        ensures
            tx@ == self@.with(
                OperationView::fresh(
                    OpKind::CreateDirectory,
                    path@,
                    Seq::empty(),
                    Seq::empty(),
                    Seq::empty(),
                ),
            ),
    {
        self.push(CreateDirectory::new(path).into_operation())
    }

    /// Adds an append of `data` to a file.
    pub fn append_file(self, source: &str, temp_dir: &str, data: Vec<u8>) -> (tx: Transaction)
        ensures
            tx@ == self@.with(
                OperationView::fresh(OpKind::Append, source@, Seq::empty(), temp_dir@, data@),
            ),
    {
        self.push(AppendFile::new(source, temp_dir, data).into_operation())
    }

    /// Adds the copy of a file.
    pub fn copy_file(self, source: &str, dest: &str) -> (tx: Transaction)
        ensures
            tx@ == self@.with(
                OperationView::fresh(OpKind::CopyFile, source@, dest@, Seq::empty(), Seq::empty()),
            ),
    {
        self.push(CopyFile::new(source, dest).into_operation())
    }

    /// Adds the copy of a directory tree.
    pub fn copy_dir(self, source: &str, dest: &str, temp_dir: &str) -> (tx: Transaction)
        ensures
            tx@ == self@.with(
                OperationView::fresh(OpKind::CopyDirectory, source@, dest@, temp_dir@, Seq::empty()),
            ),
    {
        self.push(CopyDirectory::new(source, dest, temp_dir).into_operation())
    }

    /// Adds the removal of a file.
    pub fn delete_file(self, source: &str, temp_dir: &str) -> (tx: Transaction)
        ensures
            tx@ == self@.with(
                OperationView::fresh(
                    OpKind::DeleteFile,
                    source@,
                    Seq::empty(),
                    temp_dir@,
                    Seq::empty(),
                ),
            ),
    {
        self.push(DeleteFile::new(source, temp_dir).into_operation())
    }

    /// Adds the removal of a directory tree.
    pub fn delete_dir(self, source: &str, temp_dir: &str) -> (tx: Transaction)
        ensures
            tx@ == self@.with(
                OperationView::fresh(
                    OpKind::DeleteDirectory,
                    source@,
                    Seq::empty(),
                    temp_dir@,
                    Seq::empty(),
                ),
            ),
    {
        self.push(DeleteDirectory::new(source, temp_dir).into_operation())
    }

    /// Adds the move of a file.
    pub fn move_file(self, source: &str, dest: &str) -> (tx: Transaction)
        ensures
            tx@ == self@.with(
                OperationView::fresh(OpKind::Move, source@, dest@, Seq::empty(), Seq::empty()),
            ),
    {
        self.push(MoveFile::new(source, dest).into_operation())
    }

    /// Adds the move of a directory.
    pub fn move_dir(self, source: &str, dest: &str) -> (tx: Transaction)
        ensures
            tx@ == self@.with(
                OperationView::fresh(OpKind::Move, source@, dest@, Seq::empty(), Seq::empty()),
            ),
    {
        self.push(MoveDirectory::new(source, dest).into_operation())
    }

    /// Adds a write of `data` to a file.
    pub fn write_file(self, source: &str, temp_dir: &str, data: Vec<u8>) -> (tx: Transaction)
        ensures
            tx@ == self@.with(
                OperationView::fresh(OpKind::Write, source@, Seq::empty(), temp_dir@, data@),
            ),
    {
        self.push(WriteFile::new(source, temp_dir, data).into_operation())
    }

    /// How many operations the transaction holds.
    pub fn len(&self) -> (n: usize)
        ensures
            n == self@.ops.len(),
    {
        self.batch.len()
    }

    /// How many operations had their execution started. There are never
    /// more of them than there are operations.
    pub fn execution_count(&self) -> (n: usize)
        ensures
            n == self@.execution_count,
            n <= self@.ops.len(),
            self@.wf(),
    {
        proof {
            use_type_invariant(self);
        }
        self.batch.execution_count()
    }

    /// How many operations a rollback has yet to undo. After a rollback that
    /// failed, the operation whose rollback failed is the last of them.
    /// There are never more of them than were reached.
    pub fn remaining(&self) -> (n: usize)
        ensures
            n == self@.remaining,
            n <= self@.execution_count,
    {
        proof {
            use_type_invariant(self);
        }
        self.batch.remaining()
    }

    /// Where the transaction stands.
    pub fn phase(&self) -> (phase: Phase)
        ensures
            phase == self@.phase,
    {
        self.batch.phase()
    }

    /// The operation at `index`, if there is one.
    pub fn operation(&self, index: usize) -> (op: Option<&Operation>)
        ensures
            match op {
                Some(o) => index < self@.ops.len() && o@ == self@.ops[index as int],
                None => index >= self@.ops.len(),
            },
    {
        self.batch.operation(index)
    }

    /// The requests that discard the backups of the operations, for the
    /// caller to perform when the transaction is no longer needed. A failure
    /// of one of them is for the caller to report; the others are still to
    /// be performed.
    pub fn dispose(&self) -> (requests: Vec<FsRequest>)
        ensures
            requests_view(requests@) == disposals(self@.ops),
    {
        self.batch.dispose()
    }

    /// Takes the batch out and leaves an empty one in its place, for the
    /// caller to put the batch back.
    fn take(&mut self) -> (batch: Batch)
        ensures
            batch@ == old(self)@,
            batch@.wf(),
    {
        proof {
            use_type_invariant(&*self);
        }
        let mut held = Transaction::new();
        core::mem::swap(self, &mut held);
        let Transaction { batch } = held;
        batch
    }
}

impl RollbackableOperation for Transaction {
    open spec fn execute_allows(&self, reply: Option<Reply>, after: &Self, step: StepView) -> bool {
        tx_execute_relation(self@, reply, after@, step)
    }

    open spec fn rollback_allows(&self, reply: Option<Reply>, after: &Self, step: StepView) -> bool {
        (after@, step) == self@.rollback_step(reply)
    }

    /// Executes the operations in the order they were added, one request at
    /// a time, and stops at the first that fails.
    fn execute(&mut self, reply: Option<FsReply>) -> (step: Step) {
        let mut batch = self.take();
        let step = batch.execute(reply);
        *self = Transaction { batch };
        step
    }

    /// Undoes the operations that were reached, the one reached last first,
    /// one request at a time, and stops at the first rollback that fails.
    fn rollback(&mut self, reply: Option<FsReply>) -> (step: Step) {
        let mut batch = self.take();
        let step = batch.rollback(reply);
        *self = Transaction { batch };
        step
    }
}

} // verus!
