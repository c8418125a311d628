//! A single reversible filesystem action: what it is made of, the plan by
//! which it is executed, the plan by which it is undone, and the backup it
//! keeps in between.

use vstd::prelude::*;
use crate::error::{IoError, IoErrorKind};
use crate::ident::{backup_location, fresh_id, is_random_id, lemma_id_is_entry_name};
use crate::path::{is_entry_name, joined};
use crate::plan::{lemma_start_asks, plan_view, Instr, InstrView, Run, RunStage, RunView};
use crate::protocol::{
    copy_bytes, reply_view, FsReply, FsRequest, Reply, Request, Step, StepView, WriteMode,
};

verus! {

/// The kinds of action.
#[derive(Clone, Copy, Debug, PartialEq, Eq, Structural)]
pub enum OpKind {
    /// Create a new, empty file.
    CreateFile,
    /// Create a directory and every missing directory leading to it.
    CreateDirectory,
    /// Give an existing file the payload as its whole contents.
    Write,
    /// Add the payload at the end of an existing file.
    Append,
    /// Copy a file to a destination.
    CopyFile,
    /// Copy a directory tree to a destination.
    CopyDirectory,
    /// Rename or move a file or a directory.
    Move,
    /// Remove a file.
    DeleteFile,
    /// Remove a directory and everything under it.
    DeleteDirectory,
}

/// What an operation is busy with.
#[derive(Clone, Copy, Debug, PartialEq, Eq, Structural)]
pub enum Activity {
    /// Neither executed nor rolled back yet.
    Idle,
    /// The taking of its backup was started by itself, without the rest of
    /// the execution.
    BackingUp,
    /// Its execution was started.
    Executing,
    /// Its rollback was started.
    RollingBack,
}

/// How many instructions at the head of an execution plan take the backup,
/// for the kinds that take one.
pub const BACKUP_STEPS: usize = 2;

/// An operation as contracts see it.
pub struct OperationView {
    pub kind: OpKind,
    /// The path that the action is about.
    pub source: Seq<char>,
    /// Where a copy or a move goes; empty for the other kinds.
    pub dest: Seq<char>,
    /// The directory that holds the backup; empty for kinds that take none.
    pub temp_dir: Seq<char>,
    /// The bytes that a write or an append applies; empty for the other kinds.
    pub payload: Seq<u8>,
    /// The name drawn for the backup; empty until execution starts.
    pub backup_name: Seq<char>,
    /// Where the backup is; empty until the backup is complete.
    pub backup_path: Seq<char>,
    /// The topmost level of the directory to make that the execution found
    /// missing; empty until it has looked, and where it found none.
    pub created: Seq<char>,
    pub activity: Activity,
    /// The run of the plan under way.
    pub run: RunView,
}

impl OperationView {
    /// An operation that was just built.
    pub open spec fn fresh(
        kind: OpKind,
        source: Seq<char>,
        dest: Seq<char>,
        temp_dir: Seq<char>,
        payload: Seq<u8>,
    ) -> OperationView {
        OperationView {
            kind,
            source,
            dest,
            temp_dir,
            payload,
            backup_name: Seq::empty(),
            backup_path: Seq::empty(),
            created: Seq::empty(),
            activity: Activity::Idle,
            run: RunView::idle(),
        }
    }

    /// Whether this kind makes directories, and so looks first which levels
    /// of the path are missing.
    pub open spec fn surveys(self) -> bool {
        self.kind == OpKind::CreateDirectory || self.kind == OpKind::CopyDirectory
    }

    /// How many instructions of the execution plan are done when the look at
    /// the levels is over.
    pub open spec fn survey_steps(self) -> nat {
        if self.kind == OpKind::CopyDirectory {
            3
        } else {
            1
        }
    }

    /// The directory that the kind makes: the destination of a copy, the
    /// path of a creation.
    pub open spec fn target(self) -> Seq<char> {
        if self.kind == OpKind::CopyDirectory {
            self.dest
        } else {
            self.source
        }
    }

    /// What the rollback of a kind that makes directories removes: the
    /// topmost level that the execution found missing, so that every level
    /// that it made goes; the directory itself where it found none missing.
    pub open spec fn removal_root(self) -> Seq<char> {
        if self.created.len() > 0 {
            self.created
        } else {
            self.target()
        }
    }

    /// Whether this kind changes or removes what exists and so saves it first.
    pub open spec fn takes_backup(self) -> bool {
        match self.kind {
            OpKind::Write
            | OpKind::Append
            | OpKind::CopyDirectory
            | OpKind::DeleteFile
            | OpKind::DeleteDirectory => true,
            _ => false,
        }
    }

    /// Where the backup goes once it is taken.
    pub open spec fn candidate(self) -> Seq<char> {
        joined(self.temp_dir, self.backup_name)
    }

    /// The instructions that save a file: make sure the backup directory
    /// exists, then copy the file into it under the drawn name, as a new
    /// file: where something exists by that name already, the backup fails
    /// and nothing is overwritten.
    pub open spec fn backup_file(self) -> Seq<InstrView> {
        seq![
            InstrView::EnsureDir { path: self.temp_dir },
            InstrView::Transfer {
                from: self.source,
                to: self.candidate(),
                mode: WriteMode::CreateNew,
            },
        ]
    }

    /// The instructions that save a directory: make sure the backup directory
    /// exists, then copy the tree into it under the drawn name, as a new
    /// tree: where something exists by that name already, the backup fails
    /// and nothing is touched.
    pub open spec fn backup_directory(self) -> Seq<InstrView> {
        seq![
            InstrView::EnsureDir { path: self.temp_dir },
            InstrView::CopyNewTree { from: self.source, to: self.candidate() },
        ]
    }

    /// The instructions that take the backup, for the kinds that take one.
    pub open spec fn backup_plan(self) -> Seq<InstrView> {
        match self.kind {
            OpKind::Write | OpKind::Append | OpKind::DeleteFile => self.backup_file(),
            OpKind::CopyDirectory | OpKind::DeleteDirectory => self.backup_directory(),
            _ => Seq::empty(),
        }
    }

    /// What executing the operation does, step by step. Kinds that take a
    /// backup take it first. Kinds that make directories look, before they
    /// make them, which levels of the path are missing.
    pub open spec fn execute_plan(self) -> Seq<InstrView> {
        match self.kind {
            OpKind::CreateFile => seq![
                InstrView::Store {
                    path: self.source,
                    data: Seq::empty(),
                    mode: WriteMode::CreateNew,
                },
            ],
            OpKind::CreateDirectory => seq![
                InstrView::Survey { path: self.source },
                InstrView::EnsureDir { path: self.source },
            ],
            OpKind::Write => self.backup_file().push(
                InstrView::Store {
                    path: self.source,
                    data: self.payload,
                    mode: WriteMode::Truncate,
                },
            ),
            OpKind::Append => self.backup_file().push(
                InstrView::Store {
                    path: self.source,
                    data: self.payload,
                    mode: WriteMode::Append,
                },
            ),
            OpKind::CopyFile => seq![
                InstrView::Transfer {
                    from: self.source,
                    to: self.dest,
                    mode: WriteMode::Replace,
                },
            ],
            OpKind::CopyDirectory => self.backup_directory().push(
                InstrView::Survey { path: self.dest },
            ).push(InstrView::CopyTree { from: self.source, to: self.dest }),
            OpKind::Move => seq![InstrView::Rename { from: self.source, to: self.dest }],
            OpKind::DeleteFile => self.backup_file().push(
                InstrView::RemoveFile { path: self.source },
            ),
            OpKind::DeleteDirectory => self.backup_directory().push(
                InstrView::RemoveTree { path: self.source },
            ),
        }
    }

    /// What undoing the operation does, step by step.
    ///
    /// What was created or copied is removed, with every level of
    /// directories that the execution made; a move is made backwards; a
    /// written or removed file gets the bytes of its backup; a removed
    /// directory gets its backup moved back into place.
    pub open spec fn rollback_plan(self) -> Seq<InstrView> {
        match self.kind {
            OpKind::CreateFile => seq![InstrView::RemoveFile { path: self.source }],
            OpKind::CreateDirectory | OpKind::CopyDirectory => seq![
                InstrView::RemoveTree { path: self.removal_root() },
            ],
            OpKind::Write | OpKind::Append => seq![
                InstrView::Transfer {
                    from: self.backup_path,
                    to: self.source,
                    mode: WriteMode::Truncate,
                },
            ],
            OpKind::CopyFile => seq![InstrView::RemoveFile { path: self.dest }],
            OpKind::Move => seq![InstrView::Rename { from: self.dest, to: self.source }],
            OpKind::DeleteFile => seq![
                InstrView::Transfer {
                    from: self.backup_path,
                    to: self.source,
                    mode: WriteMode::Replace,
                },
            ],
            OpKind::DeleteDirectory => seq![
                InstrView::Rename { from: self.backup_path, to: self.source },
            ],
        }
    }

    /// Whether the backup was used up: the rollback of a removal of a
    /// directory has moved it back into place.
    pub open spec fn backup_used_up(self) -> bool {
        self.kind == OpKind::DeleteDirectory && self.activity == Activity::RollingBack
            && self.run.stage == RunStage::Finished
    }

    /// The request that discards the backup, if there is one left.
    pub open spec fn dispose_request(self) -> Option<Request> {
        if !self.takes_backup() || self.backup_path.len() == 0 || self.backup_used_up() {
            None
        } else {
            match self.kind {
                OpKind::CopyDirectory | OpKind::DeleteDirectory => Some(
                    Request::RemoveDirAll { path: self.backup_path },
                ),
                _ => Some(Request::RemoveFile { path: self.backup_path }),
            }
        }
    }

    /// Starts the run of the execution plan.
    pub open spec fn launch(self) -> (OperationView, StepView) {
        let started = RunView::start(self.execute_plan());
        (OperationView { activity: Activity::Executing, run: started.0, ..self }, started.1)
    }

    /// The operation with `name` as the name of its backup, if its kind
    /// takes one.
    pub open spec fn named(self, name: Seq<char>) -> OperationView {
        if self.takes_backup() {
            OperationView { backup_name: name, ..self }
        } else {
            self
        }
    }

    /// Starts the execution, with `name` as the name of the backup if the
    /// kind takes one. An operation starts once: one that was started
    /// before stays as it is and answers with `Other`.
    pub open spec fn execute_start(self, name: Seq<char>) -> (OperationView, StepView) {
        if self.activity == Activity::Idle {
            self.named(name).launch()
        } else {
            (self, StepView::Finished(Err(IoError { kind: IoErrorKind::Other })))
        }
    }

    /// Writes down where the backup is as soon as the instructions that take
    /// it are done, and which level was found missing as soon as the look at
    /// the levels is over.
    pub open spec fn record(self) -> OperationView {
        let saved = if self.takes_backup() && self.run.done >= BACKUP_STEPS {
            OperationView { backup_path: self.candidate(), ..self }
        } else {
            self
        };
        if self.surveys() && self.run.done >= self.survey_steps() {
            OperationView { created: self.run.missing, ..saved }
        } else {
            saved
        }
    }

    /// The execution after `reply`. An operation whose execution was not
    /// started stays as it is and answers with `Other`.
    pub open spec fn execute_next(self, reply: Reply) -> (OperationView, StepView) {
        if self.activity == Activity::Executing {
            let advanced = self.run.advance(reply);
            (OperationView { run: advanced.0, ..self }.record(), advanced.1)
        } else {
            (self, StepView::Finished(Err(IoError { kind: IoErrorKind::Other })))
        }
    }

    /// Starts the taking of the backup by itself, with `name` as the name of
    /// the backup. Only an operation that takes a backup and was not started
    /// before starts it; any other stays as it is and answers with `Other`.
    pub open spec fn backup_start(self, name: Seq<char>) -> (OperationView, StepView) {
        if self.activity == Activity::Idle && self.takes_backup() {
            let named = OperationView { backup_name: name, ..self };
            let started = RunView::start(named.backup_plan());
            (OperationView { activity: Activity::BackingUp, run: started.0, ..named }, started.1)
        } else {
            (self, StepView::Finished(Err(IoError { kind: IoErrorKind::Other })))
        }
    }

    /// The taking of the backup after `reply`: the reply that completes the
    /// last instruction of the backup writes the backup path down; a failure
    /// leaves it empty. An operation whose backup was not started by itself
    /// stays as it is and answers with `Other`.
    pub open spec fn backup_next(self, reply: Reply) -> (OperationView, StepView) {
        if self.activity == Activity::BackingUp {
            let advanced = self.run.advance(reply);
            (OperationView { run: advanced.0, ..self }.record(), advanced.1)
        } else {
            (self, StepView::Finished(Err(IoError { kind: IoErrorKind::Other })))
        }
    }

    /// One call of the backup step: a start without a reply, a continuation
    /// with one.
    pub open spec fn backup_step(self, reply: Option<Reply>, name: Seq<char>) -> (
        OperationView,
        StepView,
    ) {
        match reply {
            None => self.backup_start(name),
            Some(r) => self.backup_next(r),
        }
    }

    /// What the execution does once the backup is taken: the change itself,
    /// for the kinds that make directories after a look at the levels of the
    /// path.
    pub open spec fn change_plan(self) -> Seq<InstrView> {
        self.execute_plan().skip(self.backup_plan().len() as int)
    }

    /// One call of `execute`: a start without a reply, a continuation with one.
    pub open spec fn execute_step(self, reply: Option<Reply>, name: Seq<char>) -> (
        OperationView,
        StepView,
    ) {
        match reply {
            None => self.execute_start(name),
            Some(r) => self.execute_next(r),
        }
    }

    /// Starts the run of the rollback plan.
    pub open spec fn rollback_start(self) -> (OperationView, StepView) {
        let started = RunView::start(self.rollback_plan());
        (OperationView { activity: Activity::RollingBack, run: started.0, ..self }, started.1)
    }

    /// The rollback after `reply`. An operation whose rollback was not
    /// started stays as it is and answers with `Other`.
    pub open spec fn rollback_next(self, reply: Reply) -> (OperationView, StepView) {
        if self.activity == Activity::RollingBack {
            let advanced = self.run.advance(reply);
            (OperationView { run: advanced.0, ..self }, advanced.1)
        } else {
            (self, StepView::Finished(Err(IoError { kind: IoErrorKind::Other })))
        }
    }

    /// One call of `rollback`: a start without a reply, a continuation with one.
    pub open spec fn rollback_step(self, reply: Option<Reply>) -> (OperationView, StepView) {
        match reply {
            None => self.rollback_start(),
            Some(r) => self.rollback_next(r),
        }
    }
}

/// What a call of `execute` may do: the state after and the step are those
/// of `execute_step` with the backup name found in the state after, and a
/// name drawn at a start has the shape of a random identifier, so that
/// it can name a directory entry.
pub open spec fn execute_relation(
    before: OperationView,
    reply: Option<Reply>,
    after: OperationView,
    step: StepView,
) -> bool {
    &&& (after, step) == before.execute_step(reply, after.backup_name)
    &&& reply is None && before.takes_backup() && before.activity == Activity::Idle
        ==> is_random_id(after.backup_name) && is_entry_name(after.backup_name)
}

/// What a call of the backup step may do: the state after and the step are
/// those of `backup_step` with the backup name found in the state after, and
/// a name drawn at a start has the shape of a random identifier, so that it
/// can name a directory entry.
pub open spec fn backup_relation(
    before: OperationView,
    reply: Option<Reply>,
    after: OperationView,
    step: StepView,
) -> bool {
    &&& (after, step) == before.backup_step(reply, after.backup_name)
    &&& reply is None && before.takes_backup() && before.activity == Activity::Idle
        ==> is_random_id(after.backup_name) && is_entry_name(after.backup_name)
}

/// The execution takes the backup first: its plan is the plan of the
/// backup, followed by the change.
pub proof fn law_execution_backs_up_first(op: OperationView)
    ensures
        op.execute_plan() == op.backup_plan() + op.change_plan(),
        op.takes_backup() ==> op.backup_plan().len() == BACKUP_STEPS,
        !op.takes_backup() ==> op.backup_plan().len() == 0,
        forall|i: int|
            0 <= i < op.backup_plan().len() ==> op.execute_plan()[i] == op.backup_plan()[i],
{
    assert(op.execute_plan() =~= op.backup_plan() + op.change_plan());
}

/// What a call of `rollback` may do: the state after and the step are those
/// of `rollback_step`.
pub open spec fn rollback_relation(
    before: OperationView,
    reply: Option<Reply>,
    after: OperationView,
    step: StepView,
) -> bool {
    (after, step) == before.rollback_step(reply)
}

/// Starting an execution always asks for something: no plan is empty.
pub proof fn lemma_execute_start_asks(op: OperationView, name: Seq<char>)
    requires
        op.activity == Activity::Idle,
    ensures
        op.execute_start(name).1 is Ask,
        op.execute_start(name).0.run.done == 0,
        op.execute_start(name).0.backup_path == op.backup_path,
        op.execute_start(name).0.created == op.created,
{
    assert(op.named(name).execute_plan().len() > 0);
    lemma_start_asks(op.named(name).execute_plan());
}

/// Starting a rollback always asks for something: no plan is empty.
pub proof fn lemma_rollback_start_asks(op: OperationView)
    ensures
        op.rollback_start().1 is Ask,
{
    assert(op.rollback_plan().len() > 0);
    lemma_start_asks(op.rollback_plan());
}

/// A single reversible filesystem action.
pub struct Operation {
    kind: OpKind,
    source: String,
    dest: String,
    temp_dir: String,
    payload: Vec<u8>,
    backup_name: String,
    backup_path: String,
    created: String,
    activity: Activity,
    run: Run,
}

impl View for Operation {
    type V = OperationView;

    closed spec fn view(&self) -> OperationView {
        OperationView {
            kind: self.kind,
            source: self.source@,
            dest: self.dest@,
            temp_dir: self.temp_dir@,
            payload: self.payload@,
            backup_name: self.backup_name@,
            backup_path: self.backup_path@,
            created: self.created@,
            activity: self.activity,
            run: self.run@,
        }
    }
}

impl Operation {
    /// Builds an operation of the given kind. Kinds that have no use for
    /// `dest`, `temp_dir` or `payload` keep what they are given and ignore it.
    pub fn new(kind: OpKind, source: &str, dest: &str, temp_dir: &str, payload: Vec<u8>) -> (op:
        Operation)
        ensures
            op@ == OperationView::fresh(kind, source@, dest@, temp_dir@, payload@),
    {
        Operation {
            kind,
            source: String::from_str(source),
            dest: String::from_str(dest),
            temp_dir: String::from_str(temp_dir),
            payload,
            backup_name: String::new(),
            backup_path: String::new(),
            created: String::new(),
            activity: Activity::Idle,
            run: Run::idle(),
        }
    }

    /// The kind of the action.
    pub fn kind(&self) -> (kind: OpKind)
        ensures
            kind == self@.kind,
    {
        self.kind
    }

    /// The path that the action is about.
    pub fn get_path(&self) -> (path: &String)
        ensures
            path@ == self@.source,
    {
        &self.source
    }

    /// Where a copy or a move goes.
    pub fn get_dest(&self) -> (path: &String)
        ensures
            path@ == self@.dest,
    {
        &self.dest
    }

    /// The directory that holds the backup.
    pub fn get_temp_dir(&self) -> (path: &String)
        ensures
            path@ == self@.temp_dir,
    {
        &self.temp_dir
    }

    /// Where the backup is; empty as long as none is complete.
    pub fn get_backup_path(&self) -> (path: &String)
        ensures
            path@ == self@.backup_path,
    {
        &self.backup_path
    }

    /// What the operation is busy with.
    pub fn activity(&self) -> (activity: Activity)
        ensures
            activity == self@.activity,
    {
        self.activity
    }

    fn is_copy_directory(&self) -> (yes: bool)
        ensures
            yes == (self@.kind == OpKind::CopyDirectory),
    {
        match self.kind {
            OpKind::CopyDirectory => true,
            _ => false,
        }
    }

    fn surveys(&self) -> (yes: bool)
        ensures
            yes == self@.surveys(),
    {
        match self.kind {
            OpKind::CreateDirectory | OpKind::CopyDirectory => true,
            _ => false,
        }
    }

    fn backup_used_up(&self) -> (yes: bool)
        ensures
            yes == self@.backup_used_up(),
    {
        match (self.kind, self.activity, self.run.stage()) {
            (OpKind::DeleteDirectory, Activity::RollingBack, RunStage::Finished) => true,
            _ => false,
        }
    }

    /// The topmost level of the directory to make that the execution found
    /// missing; empty until it has looked, and where it found none.
    pub fn get_created(&self) -> (path: &String)
        ensures
            path@ == self@.created,
    {
        &self.created
    }

    /// Whether this kind saves what exists before it changes or removes it.
    pub fn takes_backup(&self) -> (yes: bool)
        ensures
            yes == self@.takes_backup(),
    {
        match self.kind {
            OpKind::Write
            | OpKind::Append
            | OpKind::CopyDirectory
            | OpKind::DeleteFile
            | OpKind::DeleteDirectory => true,
            _ => false,
        }
    }

    /// The instructions that take the backup under the name that the
    /// operation has for it: those that save a file for the kinds that work
    /// on a file, those that save a tree for the kinds that work on a
    /// directory, none for the kinds that take no backup.
    fn backup_plan(&self) -> (plan: Vec<Instr>)
        ensures
            plan_view(plan@) == self@.backup_plan(),
    {
        let mut plan: Vec<Instr> = Vec::new();
        assert(plan_view(plan@) =~= Seq::empty());
        match self.kind {
            OpKind::Write | OpKind::Append | OpKind::DeleteFile => {
                plan.push(Instr::EnsureDir { path: self.temp_dir.clone() });
                plan.push(
                    Instr::Transfer {
                        from: self.source.clone(),
                        to: backup_location(self.temp_dir.as_str(), self.backup_name.as_str()),
                        mode: WriteMode::CreateNew,
                    },
                );
                assert(plan_view(plan@) =~= self@.backup_file());
            },
            OpKind::CopyDirectory | OpKind::DeleteDirectory => {
                plan.push(Instr::EnsureDir { path: self.temp_dir.clone() });
                plan.push(
                    Instr::CopyNewTree {
                        from: self.source.clone(),
                        to: backup_location(self.temp_dir.as_str(), self.backup_name.as_str()),
                    },
                );
                assert(plan_view(plan@) =~= self@.backup_directory());
            },
            _ => {},
        }
        plan
    }

    /// The plan by which the operation is executed, as the operation stands:
    /// before a start has given the backup its name, the backup in the plan
    /// goes by the empty name, and the plan is not one to carry out.
    pub fn execute_plan(&self) -> (plan: Vec<Instr>)
        ensures
            plan_view(plan@) == self@.execute_plan(),
    {
        let mut plan: Vec<Instr> = self.backup_plan();
        let ghost head = plan_view(plan@);
        match self.kind {
            OpKind::CreateDirectory => {
                plan.push(Instr::Survey { path: self.source.clone() });
            },
            OpKind::CopyDirectory => {
                plan.push(Instr::Survey { path: self.dest.clone() });
            },
            _ => {},
        }
        let ghost middle = plan_view(plan@);
        assert(middle =~= match self.kind {
            OpKind::CreateDirectory => head.push(InstrView::Survey { path: self.source@ }),
            OpKind::CopyDirectory => head.push(InstrView::Survey { path: self.dest@ }),
            _ => head,
        });
        let last = match self.kind {
            OpKind::CreateFile => Instr::Store {
                path: self.source.clone(),
                data: Vec::new(),
                mode: WriteMode::CreateNew,
            },
            OpKind::CreateDirectory => Instr::EnsureDir { path: self.source.clone() },
            OpKind::Write => Instr::Store {
                path: self.source.clone(),
                data: copy_bytes(&self.payload),
                mode: WriteMode::Truncate,
            },
            OpKind::Append => Instr::Store {
                path: self.source.clone(),
                data: copy_bytes(&self.payload),
                mode: WriteMode::Append,
            },
            OpKind::CopyFile => Instr::Transfer {
                from: self.source.clone(),
                to: self.dest.clone(),
                mode: WriteMode::Replace,
            },
            OpKind::CopyDirectory => Instr::CopyTree {
                from: self.source.clone(),
                to: self.dest.clone(),
            },
            OpKind::Move => Instr::Rename { from: self.source.clone(), to: self.dest.clone() },
            OpKind::DeleteFile => Instr::RemoveFile { path: self.source.clone() },
            OpKind::DeleteDirectory => Instr::RemoveTree { path: self.source.clone() },
        };
        plan.push(last);
        assert(plan_view(plan@) =~= middle.push(last@));
        assert(plan_view(plan@) =~= self@.execute_plan());
        plan
    }

    /// The plan by which the operation is undone.
    pub fn rollback_plan(&self) -> (plan: Vec<Instr>)
        ensures
            plan_view(plan@) == self@.rollback_plan(),
    {
        let only = match self.kind {
            OpKind::CreateFile => Instr::RemoveFile { path: self.source.clone() },
            OpKind::CreateDirectory | OpKind::CopyDirectory => Instr::RemoveTree {
                path: if self.created.as_str().unicode_len() > 0 {
                    self.created.clone()
                } else if self.is_copy_directory() {
                    self.dest.clone()
                } else {
                    self.source.clone()
                },
            },
            OpKind::Write | OpKind::Append => Instr::Transfer {
                from: self.backup_path.clone(),
                to: self.source.clone(),
                mode: WriteMode::Truncate,
            },
            OpKind::CopyFile => Instr::RemoveFile { path: self.dest.clone() },
            OpKind::Move => Instr::Rename { from: self.dest.clone(), to: self.source.clone() },
            OpKind::DeleteFile => Instr::Transfer {
                from: self.backup_path.clone(),
                to: self.source.clone(),
                mode: WriteMode::Replace,
            },
            OpKind::DeleteDirectory => Instr::Rename {
                from: self.backup_path.clone(),
                to: self.source.clone(),
            },
        };
        let mut plan: Vec<Instr> = Vec::new();
        plan.push(only);
        assert(plan_view(plan@) =~= self@.rollback_plan());
        plan
    }

    /// The request that discards the backup, or `None` where there is no
    /// backup to discard: none was taken, or it was used up. A failure of that request is for the caller to
    /// report; it changes nothing here.
    pub fn dispose(&self) -> (request: Option<FsRequest>)
        ensures
            match request {
                Some(r) => self@.dispose_request() == Some(r@),
                None => self@.dispose_request() is None,
            },
    {
        if !self.takes_backup() || self.backup_path.as_str().unicode_len() == 0
            || self.backup_used_up() {
            None
        } else {
            match self.kind {
                OpKind::CopyDirectory | OpKind::DeleteDirectory => Some(
                    FsRequest::RemoveDirAll { path: self.backup_path.clone() },
                ),
                _ => Some(FsRequest::RemoveFile { path: self.backup_path.clone() }),
            }
        }
    }

    fn survey_steps(&self) -> (n: usize)
        ensures
            n == self@.survey_steps(),
    {
        if self.is_copy_directory() {
            3
        } else {
            1
        }
    }

    fn launch(&mut self) -> (step: Step)
        ensures
            (final(self)@, step@) == old(self)@.launch(),
    {
        let started = Run::start(self.execute_plan());
        self.run = started.0;
        self.activity = Activity::Executing;
        started.1
    }

    /// Starts the execution with a backup name chosen by the caller. Kinds
    /// that take no backup ignore the name. An operation that was started
    /// before is not started again: it stays as it is and the answer is
    /// `Other`.
    pub fn execute_named(&mut self, name: &str) -> (step: Step)
        ensures
            (final(self)@, step@) == old(self)@.execute_start(name@),
    {
        match self.activity {
            Activity::Idle => {
                if self.takes_backup() {
                    self.backup_name = String::from_str(name);
                }
                self.launch()
            },
            _ => Step::Finished(Err(IoError::new(IoErrorKind::Other))),
        }
    }

    fn execute_next(&mut self, reply: FsReply) -> (step: Step)
        ensures
            (final(self)@, step@) == old(self)@.execute_next(reply@),
    {
        match self.activity {
            Activity::Executing => self.forward(reply),
            _ => Step::Finished(Err(IoError::new(IoErrorKind::Other))),
        }
    }

    /// Hands `reply` to the run under way and writes down what the run has
    /// reached: the step that the execution and the backup by itself share.
    fn forward(&mut self, reply: FsReply) -> (step: Step)
        ensures
            step@ == old(self)@.run.advance(reply@).1,
            final(self)@ == (OperationView {
                run: old(self)@.run.advance(reply@).0,
                ..old(self)@
            }).record(),
    {
        let step = self.run.advance(reply);
        let done = self.run.done();
        if self.takes_backup() && done >= BACKUP_STEPS {
            self.backup_path = backup_location(
                self.temp_dir.as_str(),
                self.backup_name.as_str(),
            );
        }
        if self.surveys() && done >= self.survey_steps() {
            self.created = self.run.missing().clone();
        }
        step
    }

    /// Starts the taking of the backup by itself with a backup name chosen
    /// by the caller, where `backup` would draw one.
    pub fn backup_named(&mut self, name: &str) -> (step: Step)
        ensures
            (final(self)@, step@) == old(self)@.backup_start(name@),
    {
        match self.activity {
            Activity::Idle => {
                if self.takes_backup() {
                    self.backup_name = String::from_str(name);
                    let started = Run::start(self.backup_plan());
                    self.run = started.0;
                    self.activity = Activity::BackingUp;
                    started.1
                } else {
                    Step::Finished(Err(IoError::new(IoErrorKind::Other)))
                }
            },
            _ => Step::Finished(Err(IoError::new(IoErrorKind::Other))),
        }
    }

    /// Takes the backup by itself, one request at a time, without the rest
    /// of the execution.
    ///
    /// Called with `None` it starts: it draws a fresh name and returns the
    /// first request. Called with the reply to the request it returned last,
    /// it returns the next request or the outcome. The backup path is
    /// written down at the moment the backup is complete; where the backup
    /// fails the path stays empty. Only an operation that takes a backup and
    /// was not started before starts; any other stays as it is, draws no
    /// name, and the answer is `Other`.
    pub fn backup(&mut self, reply: Option<FsReply>) -> (step: Step)
        ensures
            backup_relation(old(self)@, reply_view(reply), final(self)@, step@),
    {
        match reply {
            None => match self.activity {
                Activity::Idle => {
                    if self.takes_backup() {
                        let name = fresh_id();
                        proof {
                            lemma_id_is_entry_name(name@);
                        }
                        self.backup_named(name.as_str())
                    } else {
                        Step::Finished(Err(IoError::new(IoErrorKind::Other)))
                    }
                },
                _ => Step::Finished(Err(IoError::new(IoErrorKind::Other))),
            },
            Some(r) => match self.activity {
                Activity::BackingUp => self.forward(r),
                _ => Step::Finished(Err(IoError::new(IoErrorKind::Other))),
            },
        }
    }

    /// Writes `path` down as the place of the backup, for a caller that has
    /// taken the backup, or moved it, by means of its own.
    pub fn set_backup_path(&mut self, path: &str)
        ensures
            final(self)@ == (OperationView { backup_path: path@, ..old(self)@ }),
    {
        self.backup_path = String::from_str(path);
    }

    /// Executes the operation, one request at a time.
    ///
    /// Called with `None` it starts: a kind that takes a backup draws a fresh
    /// name for it, and the first request of the execution plan is returned.
    /// An operation starts once; started again it stays as it is, draws no
    /// name, and the answer is `Other`.
    /// Called with the reply to the request it returned last, it returns the
    /// next request or the outcome. The backup path is written down at the
    /// moment the backup is complete, which is before the request that
    /// changes or removes the source is made.
    pub fn execute(&mut self, reply: Option<FsReply>) -> (step: Step)
        ensures
            execute_relation(old(self)@, reply_view(reply), final(self)@, step@),
    {
        match reply {
            None => match self.activity {
                Activity::Idle => {
                    if self.takes_backup() {
                        let name = fresh_id();
                        proof {
                            lemma_id_is_entry_name(name@);
                        }
                        self.execute_named(name.as_str())
                    } else {
                        self.launch()
                    }
                },
                _ => Step::Finished(Err(IoError::new(IoErrorKind::Other))),
            },
            Some(r) => self.execute_next(r),
        }
    }

    /// Undoes the operation, one request at a time.
    ///
    /// Called with `None` it starts and returns the first request of the
    /// rollback plan; called with a reply it returns the next request or the
    /// outcome.
    pub fn rollback(&mut self, reply: Option<FsReply>) -> (step: Step)
        ensures
            rollback_relation(old(self)@, reply_view(reply), final(self)@, step@),
    {
        match reply {
            None => {
                let started = Run::start(self.rollback_plan());
                self.run = started.0;
                self.activity = Activity::RollingBack;
                started.1
            },
            Some(r) => match self.activity {
                Activity::RollingBack => self.run.advance(r),
                _ => Step::Finished(Err(IoError::new(IoErrorKind::Other))),
            },
        }
    }
}

} // verus!
