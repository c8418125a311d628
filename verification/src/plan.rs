//! Plans: what an operation does, written down as a list of instructions,
//! and the run that carries a plan out one request at a time.
//!
//! A run stops at the first failure and reports it unchanged. An instruction
//! counts as done only when every request it needs was answered with success.

use vstd::prelude::*;
use crate::error::{IoError, IoErrorKind};
use crate::path::{ancestors, ancestors_of, texts_view};
use crate::protocol::{copy_bytes, FsReply, FsRequest, Reply, Request, Step, StepView, WriteMode};
use crate::tree::{TreeCopy, TreeCopyView};

verus! {

/// One instruction of a plan, as contracts see it.
pub enum InstrView {
    EnsureDir { path: Seq<char> },
    Store { path: Seq<char>, data: Seq<u8>, mode: WriteMode },
    Transfer { from: Seq<char>, to: Seq<char>, mode: WriteMode },
    RemoveFile { path: Seq<char> },
    RemoveTree { path: Seq<char> },
    Rename { from: Seq<char>, to: Seq<char> },
    CopyTree { from: Seq<char>, to: Seq<char> },
    CopyNewTree { from: Seq<char>, to: Seq<char> },
    Survey { path: Seq<char> },
}

/// One instruction of a plan.
#[derive(Debug, PartialEq, Eq)]
pub enum Instr {
    /// Create the directory and every missing directory leading to it.
    EnsureDir { path: String },
    /// Write the given bytes to the file.
    Store { path: String, data: Vec<u8>, mode: WriteMode },
    /// Read all of `from` and write what was read to `to`.
    Transfer { from: String, to: String, mode: WriteMode },
    /// Remove the file.
    RemoveFile { path: String },
    /// Remove the directory and everything under it.
    RemoveTree { path: String },
    /// Rename or move a file or directory.
    Rename { from: String, to: String },
    /// Copy the tree at `from` into `to`.
    CopyTree { from: String, to: String },
    /// Copy the tree at `from` to `to`, where nothing exists yet: where
    /// something exists at `to`, fail and touch nothing.
    CopyNewTree { from: String, to: String },
    /// Find the topmost level of the path at which nothing exists, and keep
    /// it in mind.
    Survey { path: String },
}

impl View for Instr {
    type V = InstrView;

    open spec fn view(&self) -> InstrView {
        match self {
            Instr::EnsureDir { path } => InstrView::EnsureDir { path: path@ },
            Instr::Store { path, data, mode } => InstrView::Store {
                path: path@,
                data: data@,
                mode: *mode,
            },
            Instr::Transfer { from, to, mode } => InstrView::Transfer {
                from: from@,
                to: to@,
                mode: *mode,
            },
            Instr::RemoveFile { path } => InstrView::RemoveFile { path: path@ },
            Instr::RemoveTree { path } => InstrView::RemoveTree { path: path@ },
            Instr::Rename { from, to } => InstrView::Rename { from: from@, to: to@ },
            Instr::CopyTree { from, to } => InstrView::CopyTree { from: from@, to: to@ },
            Instr::CopyNewTree { from, to } => InstrView::CopyNewTree { from: from@, to: to@ },
            Instr::Survey { path } => InstrView::Survey { path: path@ },
        }
    }
}

/// The plan `plan` as contracts see it.
pub open spec fn plan_view(plan: Seq<Instr>) -> Seq<InstrView> {
    plan.map_values(|i: Instr| i@)
}

/// Which reply a run is waiting for.
#[derive(Clone, Copy, Debug, PartialEq, Eq, Structural)]
pub enum RunStage {
    /// Nothing was asked yet.
    Idle,
    /// The success of an instruction that needs one request.
    Acking,
    /// The bytes that a transfer reads.
    Loading,
    /// The success of the write of a transfer.
    Storing,
    /// Whether something exists where a new tree is to go.
    Vetting,
    /// A reply for the tree copy in progress.
    Walking,
    /// Whether a level of the path under survey exists.
    Surveying,
    /// Every instruction is done.
    Finished,
    /// The run gave up.
    Failed,
}

/// A run as contracts see it.
pub struct RunView {
    pub plan: Seq<InstrView>,
    /// How many instructions are done.
    pub done: nat,
    pub stage: RunStage,
    /// The tree copy in progress, if the instruction under way is one.
    pub walk: TreeCopyView,
    /// The levels of the path under survey, shortest first.
    pub levels: Seq<Seq<char>>,
    /// How many of the levels were found to exist.
    pub level: nat,
    /// The topmost level that the last survey found missing; empty where it
    /// found none, or where no survey was made.
    pub missing: Seq<char>,
}

impl RunView {
    /// A run with nothing to do and nothing asked.
    pub open spec fn idle() -> RunView {
        RunView {
            plan: Seq::empty(),
            done: 0,
            stage: RunStage::Idle,
            walk: TreeCopyView::idle(),
            levels: Seq::empty(),
            level: 0,
            missing: Seq::empty(),
        }
    }

    /// The run gives up with `e`.
    pub open spec fn fail(self, e: IoError) -> (RunView, StepView) {
        (RunView { stage: RunStage::Failed, ..self }, StepView::Finished(Err(e)))
    }

    /// Begins the first instruction that is not done; with none left the run
    /// is finished.
    pub open spec fn proceed(self) -> (RunView, StepView) {
        if self.done >= self.plan.len() {
            (RunView { stage: RunStage::Finished, ..self }, StepView::Finished(Ok(())))
        } else {
            match self.plan[self.done as int] {
                InstrView::EnsureDir { path } => (
                    RunView { stage: RunStage::Acking, ..self },
                    StepView::Ask(Request::CreateDirAll { path }),
                ),
                InstrView::Store { path, data, mode } => (
                    RunView { stage: RunStage::Acking, ..self },
                    StepView::Ask(Request::Write { path, data, mode }),
                ),
                InstrView::Transfer { from, to, mode } => (
                    RunView { stage: RunStage::Loading, ..self },
                    StepView::Ask(Request::Read { path: from }),
                ),
                InstrView::RemoveFile { path } => (
                    RunView { stage: RunStage::Acking, ..self },
                    StepView::Ask(Request::RemoveFile { path }),
                ),
                InstrView::RemoveTree { path } => (
                    RunView { stage: RunStage::Acking, ..self },
                    StepView::Ask(Request::RemoveDirAll { path }),
                ),
                InstrView::Rename { from, to } => (
                    RunView { stage: RunStage::Acking, ..self },
                    StepView::Ask(Request::Rename { from, to }),
                ),
                InstrView::CopyTree { from, to } => {
                    let started = TreeCopyView::start(from, to);
                    (RunView { stage: RunStage::Walking, walk: started.0, ..self }, started.1)
                },
                InstrView::CopyNewTree { from, to } => (
                    RunView { stage: RunStage::Vetting, ..self },
                    StepView::Ask(Request::Probe { path: to }),
                ),
                InstrView::Survey { path } => (
                    RunView {
                        stage: RunStage::Surveying,
                        levels: ancestors(path),
                        level: 0,
                        missing: Seq::empty(),
                        ..self
                    },
                    StepView::Ask(Request::Probe { path: ancestors(path)[0] }),
                ),
            }
        }
    }

    /// The copy of a new tree after it was told whether something exists at
    /// its destination: it fails where something does, and starts the walk
    /// where nothing does.
    pub open spec fn vetted(self, found: bool) -> (RunView, StepView) {
        if self.done < self.plan.len() {
            match self.plan[self.done as int] {
                InstrView::CopyNewTree { from, to } => if found {
                    self.fail(IoError { kind: IoErrorKind::AlreadyExists })
                } else {
                    let started = TreeCopyView::start(from, to);
                    (RunView { stage: RunStage::Walking, walk: started.0, ..self }, started.1)
                },
                _ => self.fail(IoError { kind: IoErrorKind::Other }),
            }
        } else {
            self.fail(IoError { kind: IoErrorKind::Other })
        }
    }

    /// The survey under way after it was told whether its level exists: a
    /// level that exists leads to the next, and the survey is done at the
    /// first that does not, or when every level exists.
    pub open spec fn surveyed(self, found: bool) -> (RunView, StepView) {
        if self.level >= self.levels.len() {
            self.fail(IoError { kind: IoErrorKind::Other })
        } else if !found {
            RunView { missing: self.levels[self.level as int], ..self }.complete()
        } else if self.level + 1 < self.levels.len() {
            (
                RunView { level: self.level + 1, ..self },
                StepView::Ask(Request::Probe { path: self.levels[self.level as int + 1] }),
            )
        } else {
            RunView { level: self.level + 1, ..self }.complete()
        }
    }

    /// The instruction under way is done; the run goes on with the next.
    pub open spec fn complete(self) -> (RunView, StepView) {
        if self.done < self.plan.len() {
            RunView { done: self.done + 1, ..self }.proceed()
        } else {
            self.fail(IoError { kind: IoErrorKind::Other })
        }
    }

    /// The run of `plan`, and its first step.
    pub open spec fn start(plan: Seq<InstrView>) -> (RunView, StepView) {
        RunView { plan, ..RunView::idle() }.proceed()
    }

    /// The write that a transfer under way makes of the bytes it read.
    pub open spec fn store_loaded(self, data: Seq<u8>) -> (RunView, StepView) {
        if self.done < self.plan.len() {
            match self.plan[self.done as int] {
                InstrView::Transfer { from, to, mode } => (
                    RunView { stage: RunStage::Storing, ..self },
                    StepView::Ask(Request::Write { path: to, data, mode }),
                ),
                _ => self.fail(IoError { kind: IoErrorKind::Other }),
            }
        } else {
            self.fail(IoError { kind: IoErrorKind::Other })
        }
    }

    /// The run after the tree copy under way took a step.
    pub open spec fn after_walk(self, walked: (TreeCopyView, StepView)) -> (RunView, StepView) {
        let run = RunView { walk: walked.0, ..self };
        match walked.1 {
            StepView::Ask(request) => (run, StepView::Ask(request)),
            StepView::Finished(Ok(_)) => run.complete(),
            StepView::Finished(Err(e)) => run.fail(e),
        }
    }

    /// The run after `reply`, and its next step.
    ///
    /// A failure ends the run with that error, also where it answers a
    /// probe of a survey or of the copy of a new tree. A reply that does not answer what was asked, or
    /// one handed to a run that asked nothing, ends it with `Other`.
    pub open spec fn advance(self, reply: Reply) -> (RunView, StepView) {
        match (self.stage, reply) {
            (RunStage::Acking, Reply::Done) | (RunStage::Storing, Reply::Done) => self.complete(),
            (RunStage::Loading, Reply::Bytes(data)) => self.store_loaded(data),
            (RunStage::Acking, Reply::Failed(e))
            | (RunStage::Loading, Reply::Failed(e))
            | (RunStage::Storing, Reply::Failed(e)) => self.fail(e),
            (RunStage::Walking, _) => self.after_walk(self.walk.advance(reply)),
            (RunStage::Surveying, Reply::Found(found)) => self.surveyed(found),
            (RunStage::Surveying, Reply::Failed(e)) => self.fail(e),
            (RunStage::Vetting, Reply::Found(found)) => self.vetted(found),
            (RunStage::Vetting, Reply::Failed(e)) => self.fail(e),
            _ => self.fail(IoError { kind: IoErrorKind::Other }),
        }
    }

    /// Whether the run is over.
    pub open spec fn is_over(self) -> bool {
        self.stage == RunStage::Finished || self.stage == RunStage::Failed
    }
}

/// A run of a plan that holds at least one instruction starts with a request.
pub proof fn lemma_start_asks(plan: Seq<InstrView>)
    requires
        plan.len() > 0,
    ensures
        RunView::start(plan).1 is Ask,
        RunView::start(plan).0.plan == plan,
        RunView::start(plan).0.done == 0,
{
    let run = RunView { plan, ..RunView::idle() };
    match plan[0] {
        InstrView::CopyTree { from, to } => {
            assert(seq![(from, to)].len() == 1);
        },
        _ => {},
    }
}

/// How a step of a run shows in its stage: a run that asks is not over, a
/// run that ends well is finished, and a run that ends with an error has
/// failed.
pub proof fn lemma_step_and_stage(run: RunView, reply: Reply)
    ensures
        match run.advance(reply).1 {
            StepView::Ask(_) => !run.advance(reply).0.is_over(),
            StepView::Finished(Ok(_)) => run.advance(reply).0.stage == RunStage::Finished,
            StepView::Finished(Err(_)) => run.advance(reply).0.stage == RunStage::Failed,
        },
        run.advance(reply).0.plan == run.plan,
{
    lemma_proceed_and_stage(RunView { done: run.done + 1, ..run });
    lemma_proceed_and_stage(
        RunView { done: run.done + 1, walk: run.walk.advance(reply).0, ..run },
    );
}

/// The same for the start of an instruction.
pub proof fn lemma_proceed_and_stage(run: RunView)
    ensures
        match run.proceed().1 {
            StepView::Ask(_) => !run.proceed().0.is_over(),
            StepView::Finished(Ok(_)) => run.proceed().0.stage == RunStage::Finished,
            StepView::Finished(Err(_)) => false,
        },
        run.proceed().0.plan == run.plan,
{
    if run.done < run.plan.len() {
        match run.plan[run.done as int] {
            InstrView::CopyTree { from, to } => {
                assert(seq![(from, to)].len() == 1);
            },
            _ => {},
        }
    }
}

/// A plan being carried out.
pub struct Run {
    plan: Vec<Instr>,
    done: usize,
    stage: RunStage,
    walk: TreeCopy,
    levels: Vec<String>,
    level: usize,
    missing: String,
}

impl View for Run {
    type V = RunView;

    closed spec fn view(&self) -> RunView {
        RunView {
            plan: plan_view(self.plan@),
            done: self.done as nat,
            stage: self.stage,
            walk: self.walk@,
            levels: texts_view(self.levels@),
            level: self.level as nat,
            missing: self.missing@,
        }
    }
}

impl Run {
    /// A run with nothing to do and nothing asked.
    pub fn idle() -> (run: Run)
        ensures
            run@ == RunView::idle(),
    {
        let run = Run {
            plan: Vec::new(),
            done: 0,
            stage: RunStage::Idle,
            walk: TreeCopy::idle(),
            levels: Vec::new(),
            level: 0,
            missing: String::new(),
        };
        assert(run@.plan =~= Seq::empty());
        assert(run@.levels =~= Seq::empty());
        run
    }

    /// Starts carrying out `plan`.
    pub fn start(plan: Vec<Instr>) -> (started: (Run, Step))
        ensures
            (started.0@, started.1@) == RunView::start(plan_view(plan@)),
    {
        let mut run = Run::idle();
        run.plan = plan;
        let step = run.proceed();
        (run, step)
    }

    /// How many instructions are done.
    pub fn done(&self) -> (n: usize)
        ensures
            n == self@.done,
    {
        self.done
    }

    /// The topmost level that the last survey found missing; empty where it
    /// found none, or where no survey was made.
    pub fn missing(&self) -> (level: &String)
        ensures
            level@ == self@.missing,
    {
        &self.missing
    }

    /// Which reply the run is waiting for.
    pub fn stage(&self) -> (stage: RunStage)
        ensures
            stage == self@.stage,
    {
        self.stage
    }

    fn fail(&mut self, e: IoError) -> (step: Step)
        ensures
            (final(self)@, step@) == old(self)@.fail(e),
    {
        self.stage = RunStage::Failed;
        Step::Finished(Err(e))
    }

    fn proceed(&mut self) -> (step: Step)
        ensures
            (final(self)@, step@) == old(self)@.proceed(),
    {
        if self.done >= self.plan.len() {
            self.stage = RunStage::Finished;
            return Step::Finished(Ok(()));
        }
        assert(self@.plan[self.done as int] == self.plan@[self.done as int]@);
        match &self.plan[self.done] {
            Instr::EnsureDir { path } => {
                let request = FsRequest::CreateDirAll { path: path.clone() };
                self.stage = RunStage::Acking;
                Step::Ask(request)
            },
            Instr::Store { path, data, mode } => {
                let request = FsRequest::Write {
                    path: path.clone(),
                    data: copy_bytes(data),
                    mode: *mode,
                };
                self.stage = RunStage::Acking;
                Step::Ask(request)
            },
            Instr::Transfer { from, to, mode } => {
                let request = FsRequest::Read { path: from.clone() };
                self.stage = RunStage::Loading;
                Step::Ask(request)
            },
            Instr::RemoveFile { path } => {
                let request = FsRequest::RemoveFile { path: path.clone() };
                self.stage = RunStage::Acking;
                Step::Ask(request)
            },
            Instr::RemoveTree { path } => {
                let request = FsRequest::RemoveDirAll { path: path.clone() };
                self.stage = RunStage::Acking;
                Step::Ask(request)
            },
            Instr::Rename { from, to } => {
                let request = FsRequest::Rename { from: from.clone(), to: to.clone() };
                self.stage = RunStage::Acking;
                Step::Ask(request)
            },
            Instr::CopyTree { from, to } => {
                let started = TreeCopy::start(from.as_str(), to.as_str());
                self.walk = started.0;
                self.stage = RunStage::Walking;
                started.1
            },
            Instr::CopyNewTree { from, to } => {
                let request = FsRequest::Probe { path: to.clone() };
                self.stage = RunStage::Vetting;
                Step::Ask(request)
            },
            Instr::Survey { path } => {
                let levels = ancestors_of(path.as_str());
                let request = FsRequest::Probe { path: levels[0].clone() };
                self.levels = levels;
                self.level = 0;
                self.missing = String::new();
                self.stage = RunStage::Surveying;
                Step::Ask(request)
            },
        }
    }

    fn vetted(&mut self, found: bool) -> (step: Step)
        ensures
            (final(self)@, step@) == old(self)@.vetted(found),
    {
        if self.done < self.plan.len() {
            assert(self@.plan[self.done as int] == self.plan@[self.done as int]@);
            match &self.plan[self.done] {
                Instr::CopyNewTree { from, to } => {
                    if found {
                        self.fail(IoError::new(IoErrorKind::AlreadyExists))
                    } else {
                        let started = TreeCopy::start(from.as_str(), to.as_str());
                        self.walk = started.0;
                        self.stage = RunStage::Walking;
                        started.1
                    }
                },
                _ => self.fail(IoError::new(IoErrorKind::Other)),
            }
        } else {
            self.fail(IoError::new(IoErrorKind::Other))
        }
    }

    fn surveyed(&mut self, found: bool) -> (step: Step)
        ensures
            (final(self)@, step@) == old(self)@.surveyed(found),
    {
        if self.level >= self.levels.len() {
            self.fail(IoError::new(IoErrorKind::Other))
        } else if !found {
            self.missing = self.levels[self.level].clone();
            self.complete()
        } else if self.level + 1 < self.levels.len() {
            self.level += 1;
            Step::Ask(FsRequest::Probe { path: self.levels[self.level].clone() })
        } else {
            self.level += 1;
            self.complete()
        }
    }

    fn complete(&mut self) -> (step: Step)
        ensures
            (final(self)@, step@) == old(self)@.complete(),
    {
        if self.done < self.plan.len() {
            self.done += 1;
            self.proceed()
        } else {
            self.fail(IoError::new(IoErrorKind::Other))
        }
    }

    fn store_loaded(&mut self, data: Vec<u8>) -> (step: Step)
        ensures
            (final(self)@, step@) == old(self)@.store_loaded(data@),
    {
        if self.done < self.plan.len() {
            assert(self@.plan[self.done as int] == self.plan@[self.done as int]@);
            match &self.plan[self.done] {
                Instr::Transfer { from, to, mode } => {
                    let request = FsRequest::Write { path: to.clone(), data, mode: *mode };
                    self.stage = RunStage::Storing;
                    Step::Ask(request)
                },
                _ => self.fail(IoError::new(IoErrorKind::Other)),
            }
        } else {
            self.fail(IoError::new(IoErrorKind::Other))
        }
    }

    /// Takes `reply` and says what to do next.
    pub fn advance(&mut self, reply: FsReply) -> (step: Step)
        ensures
            (final(self)@, step@) == old(self)@.advance(reply@),
    {
        match self.stage {
            RunStage::Acking | RunStage::Storing => match reply {
                FsReply::Done => self.complete(),
                FsReply::Failed(e) => self.fail(e),
                _ => self.fail(IoError::new(IoErrorKind::Other)),
            },
            RunStage::Loading => match reply {
                FsReply::Bytes(data) => self.store_loaded(data),
                FsReply::Failed(e) => self.fail(e),
                _ => self.fail(IoError::new(IoErrorKind::Other)),
            },
            RunStage::Vetting => match reply {
                FsReply::Found(found) => self.vetted(found),
                FsReply::Failed(e) => self.fail(e),
                _ => self.fail(IoError::new(IoErrorKind::Other)),
            },
            RunStage::Surveying => match reply {
                FsReply::Found(found) => self.surveyed(found),
                FsReply::Failed(e) => self.fail(e),
                _ => self.fail(IoError::new(IoErrorKind::Other)),
            },
            RunStage::Walking => {
                let walked = self.walk.advance(reply);
                match walked {
                    Step::Ask(request) => Step::Ask(request),
                    Step::Finished(Ok(_)) => self.complete(),
                    Step::Finished(Err(e)) => self.fail(e),
                }
            },
            _ => self.fail(IoError::new(IoErrorKind::Other)),
        }
    }
}

} // verus!
