//! Copying a directory tree: a depth-first walk with an explicit stack of
//! directories still to visit.
//!
//! For each directory taken off the stack the walk makes sure that the
//! matching destination directory exists, lists the source directory, puts
//! every subdirectory on the stack and copies every file, one read and one
//! write at a time. A directory is created before anything is copied into it;
//! beyond that the order follows the listings.

use vstd::prelude::*;
use crate::error::{IoError, IoErrorKind};
use crate::path::{check_entry_name, is_entry_name, join, joined};
use crate::protocol::{
    entries_view, DirEntry, Entry, FsReply, FsRequest, Reply, Request, Step, StepView, WriteMode,
};

verus! {

/// Which reply a walk is waiting for.
#[derive(Clone, Copy, Debug, PartialEq, Eq, Structural)]
pub enum WalkStage {
    /// Nothing was asked yet.
    Idle,
    /// Whether the destination directory exists.
    Probing,
    /// The creation of the destination directory.
    Creating,
    /// The listing of the source directory.
    Listing,
    /// The contents of the file under copy.
    Loading,
    /// The write of the file under copy.
    Storing,
    /// The whole tree was copied.
    Finished,
    /// The walk gave up.
    Failed,
}

/// A walk as contracts see it.
pub struct TreeCopyView {
    /// Source and destination of each directory still to visit; the last is
    /// visited next.
    pub stack: Seq<(Seq<char>, Seq<char>)>,
    /// The source directory under visit.
    pub src_dir: Seq<char>,
    /// Where its contents go.
    pub dst_dir: Seq<char>,
    /// The listing of the source directory under visit.
    pub entries: Seq<Entry>,
    /// How many entries of the listing are dealt with.
    pub next: nat,
    pub stage: WalkStage,
}

impl TreeCopyView {
    /// A walk that was never started.
    pub open spec fn idle() -> TreeCopyView {
        TreeCopyView {
            stack: Seq::empty(),
            src_dir: Seq::empty(),
            dst_dir: Seq::empty(),
            entries: Seq::empty(),
            next: 0,
            stage: WalkStage::Idle,
        }
    }

    /// The walk gives up with `e`.
    pub open spec fn fail(self, e: IoError) -> (TreeCopyView, StepView) {
        (TreeCopyView { stage: WalkStage::Failed, ..self }, StepView::Finished(Err(e)))
    }

    /// Takes the next directory off the stack and asks whether its
    /// destination exists; with nothing left the walk is finished.
    pub open spec fn visit(self) -> (TreeCopyView, StepView) {
        if self.stack.len() == 0 {
            (TreeCopyView { stage: WalkStage::Finished, ..self }, StepView::Finished(Ok(())))
        } else {
            let top = self.stack.last();
            (
                TreeCopyView {
                    stack: self.stack.drop_last(),
                    src_dir: top.0,
                    dst_dir: top.1,
                    entries: Seq::empty(),
                    next: 0,
                    stage: WalkStage::Probing,
                },
                StepView::Ask(Request::Probe { path: top.1 }),
            )
        }
    }

    /// Goes through the listing from `next` on: subdirectories go on the
    /// stack, the first file is asked for, an entry whose name cannot name an
    /// entry ends the walk, and the end of the listing leads to the next
    /// directory.
    pub open spec fn scan(self) -> (TreeCopyView, StepView)
        decreases self.entries.len() - self.next,
    {
        if self.next >= self.entries.len() {
            self.visit()
        } else {
            let entry = self.entries[self.next as int];
            if !is_entry_name(entry.name) {
                self.fail(IoError { kind: IoErrorKind::Other })
            } else if entry.is_dir {
                TreeCopyView {
                    stack: self.stack.push(
                        (joined(self.src_dir, entry.name), joined(self.dst_dir, entry.name)),
                    ),
                    next: self.next + 1,
                    ..self
                }.scan()
            } else {
                (
                    TreeCopyView { stage: WalkStage::Loading, ..self },
                    StepView::Ask(Request::Read { path: joined(self.src_dir, entry.name) }),
                )
            }
        }
    }

    /// The walk over the tree at `from` into `to`, and its first step.
    pub open spec fn start(from: Seq<char>, to: Seq<char>) -> (TreeCopyView, StepView) {
        TreeCopyView { stack: seq![(from, to)], ..TreeCopyView::idle() }.visit()
    }

    /// Asks for the listing of the directory under visit.
    pub open spec fn list(self) -> (TreeCopyView, StepView) {
        (
            TreeCopyView { stage: WalkStage::Listing, ..self },
            StepView::Ask(Request::ListDir { path: self.src_dir }),
        )
    }

    /// The walk after `reply`, and its next step.
    ///
    /// A failed probe counts as "nothing there". Any other failure ends the
    /// walk with that error; a reply that does not answer what was asked ends
    /// it with `Other`.
    pub open spec fn advance(self, reply: Reply) -> (TreeCopyView, StepView) {
        match (self.stage, reply) {
            (WalkStage::Probing, Reply::Found(true)) => self.list(),
            (WalkStage::Probing, Reply::Found(false)) | (WalkStage::Probing, Reply::Failed(_)) => (
                TreeCopyView { stage: WalkStage::Creating, ..self },
                StepView::Ask(Request::CreateDirAll { path: self.dst_dir }),
            ),
            (WalkStage::Creating, Reply::Done) => self.list(),
            (WalkStage::Listing, Reply::Entries(entries)) => TreeCopyView {
                entries,
                next: 0,
                ..self
            }.scan(),
            (WalkStage::Loading, Reply::Bytes(data)) => if self.next < self.entries.len() {
                (
                    TreeCopyView { stage: WalkStage::Storing, ..self },
                    StepView::Ask(
                        Request::Write {
                            path: joined(self.dst_dir, self.entries[self.next as int].name),
                            data,
                            mode: WriteMode::Replace,
                        },
                    ),
                )
            } else {
                self.fail(IoError { kind: IoErrorKind::Other })
            },
            (WalkStage::Storing, Reply::Done) => if self.next < self.entries.len() {
                TreeCopyView { next: self.next + 1, ..self }.scan()
            } else {
                self.fail(IoError { kind: IoErrorKind::Other })
            },
            (WalkStage::Creating, Reply::Failed(e))
            | (WalkStage::Listing, Reply::Failed(e))
            | (WalkStage::Loading, Reply::Failed(e))
            | (WalkStage::Storing, Reply::Failed(e)) => self.fail(e),
            _ => self.fail(IoError { kind: IoErrorKind::Other }),
        }
    }
}

/// The stack `stack` as contracts see it.
pub open spec fn pairs_view(stack: Seq<(String, String)>) -> Seq<(Seq<char>, Seq<char>)> {
    stack.map_values(|p: (String, String)| (p.0@, p.1@))
}

/// A copy of a directory tree in progress.
pub struct TreeCopy {
    stack: Vec<(String, String)>,
    src_dir: String,
    dst_dir: String,
    entries: Vec<DirEntry>,
    next: usize,
    stage: WalkStage,
}

impl View for TreeCopy {
    type V = TreeCopyView;

    closed spec fn view(&self) -> TreeCopyView {
        TreeCopyView {
            stack: pairs_view(self.stack@),
            src_dir: self.src_dir@,
            dst_dir: self.dst_dir@,
            entries: entries_view(self.entries@),
            next: self.next as nat,
            stage: self.stage,
        }
    }
}

impl TreeCopy {
    /// A walk that was never started.
    pub fn idle() -> (walk: TreeCopy)
        ensures
            walk@ == TreeCopyView::idle(),
    {
        let walk = TreeCopy {
            stack: Vec::new(),
            src_dir: String::new(),
            dst_dir: String::new(),
            entries: Vec::new(),
            next: 0,
            stage: WalkStage::Idle,
        };
        assert(walk@.stack =~= Seq::empty());
        assert(walk@.entries =~= Seq::empty());
        walk
    }

    /// Starts the copy of the tree at `from` into `to`.
    pub fn start(from: &str, to: &str) -> (started: (TreeCopy, Step))
        ensures
            (started.0@, started.1@) == TreeCopyView::start(from@, to@),
    {
        let mut walk = TreeCopy::idle();
        walk.stack.push((String::from_str(from), String::from_str(to)));
        assert(walk@.stack =~= seq![(from@, to@)]);
        let step = walk.visit();
        (walk, step)
    }

    /// Which reply the walk is waiting for.
    pub fn stage(&self) -> (stage: WalkStage)
        ensures
            stage == self@.stage,
    {
        self.stage
    }

    fn fail(&mut self, e: IoError) -> (step: Step)
        ensures
            (final(self)@, step@) == old(self)@.fail(e),
    {
        self.stage = WalkStage::Failed;
        Step::Finished(Err(e))
    }

    fn list(&mut self) -> (step: Step)
        ensures
            (final(self)@, step@) == old(self)@.list(),
    {
        self.stage = WalkStage::Listing;
        Step::Ask(FsRequest::ListDir { path: self.src_dir.clone() })
    }

    fn visit(&mut self) -> (step: Step)
        ensures
            (final(self)@, step@) == old(self)@.visit(),
    {
        match self.stack.pop() {
            None => {
                self.stage = WalkStage::Finished;
                Step::Finished(Ok(()))
            },
            Some(top) => {
                let request = FsRequest::Probe { path: top.1.clone() };
                self.src_dir = top.0;
                self.dst_dir = top.1;
                self.entries = Vec::new();
                self.next = 0;
                self.stage = WalkStage::Probing;
                assert(self@.stack =~= old(self)@.stack.drop_last());
                assert(self@.entries =~= Seq::empty());
                Step::Ask(request)
            },
        }
    }

    fn scan(&mut self) -> (step: Step)
        ensures
            (final(self)@, step@) == old(self)@.scan(),
    {
        while self.next < self.entries.len()
            invariant
                self@.scan() == old(self)@.scan(),
            decreases self.entries.len() - self.next,
        {
            let is_dir = self.entries[self.next].is_dir;
            let valid = check_entry_name(self.entries[self.next].name.as_str());
            assert(self@.entries[self.next as int] == self.entries@[self.next as int]@);
            if !valid {
                return self.fail(IoError::new(IoErrorKind::Other));
            }
            let src = join(self.src_dir.as_str(), self.entries[self.next].name.as_str());
            if is_dir {
                let dst = join(self.dst_dir.as_str(), self.entries[self.next].name.as_str());
                let ghost before = self@;
                self.stack.push((src, dst));
                self.next += 1;
                assert(self@.stack =~= before.stack.push(
                    (
                        joined(before.src_dir, before.entries[before.next as int].name),
                        joined(before.dst_dir, before.entries[before.next as int].name),
                    ),
                ));
            } else {
                self.stage = WalkStage::Loading;
                return Step::Ask(FsRequest::Read { path: src });
            }
        }
        self.visit()
    }

    /// Takes `reply` and says what to do next.
    pub fn advance(&mut self, reply: FsReply) -> (step: Step)
        ensures
            (final(self)@, step@) == old(self)@.advance(reply@),
    {
        match self.stage {
            WalkStage::Probing => match reply {
                FsReply::Found(true) => self.list(),
                FsReply::Found(false) | FsReply::Failed(_) => {
                    self.stage = WalkStage::Creating;
                    Step::Ask(FsRequest::CreateDirAll { path: self.dst_dir.clone() })
                },
                _ => self.fail(IoError::new(IoErrorKind::Other)),
            },
            WalkStage::Creating => match reply {
                FsReply::Done => self.list(),
                FsReply::Failed(e) => self.fail(e),
                _ => self.fail(IoError::new(IoErrorKind::Other)),
            },
            WalkStage::Listing => match reply {
                FsReply::Entries(entries) => {
                    self.entries = entries;
                    self.next = 0;
                    self.scan()
                },
                FsReply::Failed(e) => self.fail(e),
                _ => self.fail(IoError::new(IoErrorKind::Other)),
            },
            WalkStage::Loading => match reply {
                FsReply::Bytes(data) => {
                    if self.next < self.entries.len() {
                        let path = join(
                            self.dst_dir.as_str(),
                            self.entries[self.next].name.as_str(),
                        );
                        assert(self@.entries[self.next as int] == self.entries@[self.next as int]@);
                        self.stage = WalkStage::Storing;
                        Step::Ask(FsRequest::Write { path, data, mode: WriteMode::Replace })
                    } else {
                        self.fail(IoError::new(IoErrorKind::Other))
                    }
                },
                FsReply::Failed(e) => self.fail(e),
                _ => self.fail(IoError::new(IoErrorKind::Other)),
            },
            WalkStage::Storing => match reply {
                FsReply::Done => {
                    if self.next < self.entries.len() {
                        self.next += 1;
                        self.scan()
                    } else {
                        self.fail(IoError::new(IoErrorKind::Other))
                    }
                },
                FsReply::Failed(e) => self.fail(e),
                _ => self.fail(IoError::new(IoErrorKind::Other)),
            },
            _ => self.fail(IoError::new(IoErrorKind::Other)),
        }
    }
}

} // verus!
