//! Runs against the model: what becomes of a walk, a run of a plan or an
//! operation, and of the filesystem, when every request is answered by a
//! reply that the filesystem can give.

use vstd::prelude::*;
use crate::model::{first_missing, locate, FsState};
use crate::path::{ancestors, joined};
use crate::operation::{lemma_execute_start_asks, Activity, OperationView, BACKUP_STEPS};
use crate::plan::{lemma_start_asks, InstrView, RunStage, RunView};
use crate::protocol::{Reply, Request, StepView};
use crate::tree::TreeCopyView;

verus! {

/// The walk, its step and the filesystem after `replies` were given one by
/// one, each to the request that was open; `None` where a reply is one that
/// the filesystem cannot give, or where replies are left when the walk is
/// over.
pub open spec fn walk_trace(
    walk: TreeCopyView,
    step: StepView,
    fs: FsState,
    replies: Seq<Reply>,
) -> Option<(TreeCopyView, StepView, FsState)>
    decreases replies.len(),
{
    if replies.len() == 0 {
        Some((walk, step, fs))
    } else {
        match step {
            StepView::Ask(request) => if fs.admits(request, replies[0]) {
                let advanced = walk.advance(replies[0]);
                walk_trace(
                    advanced.0,
                    advanced.1,
                    fs.after(request, replies[0]),
                    replies.drop_first(),
                )
            } else {
                None
            },
            StepView::Finished(_) => None,
        }
    }
}

/// The same for the run of a plan.
pub open spec fn run_trace(run: RunView, step: StepView, fs: FsState, replies: Seq<Reply>) -> Option<
    (RunView, StepView, FsState),
>
    decreases replies.len(),
{
    if replies.len() == 0 {
        Some((run, step, fs))
    } else {
        match step {
            StepView::Ask(request) => if fs.admits(request, replies[0]) {
                let advanced = run.advance(replies[0]);
                run_trace(
                    advanced.0,
                    advanced.1,
                    fs.after(request, replies[0]),
                    replies.drop_first(),
                )
            } else {
                None
            },
            StepView::Finished(_) => None,
        }
    }
}

/// The same for the execution of an operation that was started.
pub open spec fn execute_trace(
    op: OperationView,
    step: StepView,
    fs: FsState,
    replies: Seq<Reply>,
) -> Option<(OperationView, StepView, FsState)>
    decreases replies.len(),
{
    if replies.len() == 0 {
        Some((op, step, fs))
    } else {
        match step {
            StepView::Ask(request) => if fs.admits(request, replies[0]) {
                let advanced = op.execute_next(replies[0]);
                execute_trace(
                    advanced.0,
                    advanced.1,
                    fs.after(request, replies[0]),
                    replies.drop_first(),
                )
            } else {
                None
            },
            StepView::Finished(_) => None,
        }
    }
}

/// The same for the rollback of an operation that was started.
pub open spec fn rollback_trace(
    op: OperationView,
    step: StepView,
    fs: FsState,
    replies: Seq<Reply>,
) -> Option<(OperationView, StepView, FsState)>
    decreases replies.len(),
{
    if replies.len() == 0 {
        Some((op, step, fs))
    } else {
        match step {
            StepView::Ask(request) => if fs.admits(request, replies[0]) {
                let advanced = op.rollback_next(replies[0]);
                rollback_trace(
                    advanced.0,
                    advanced.1,
                    fs.after(request, replies[0]),
                    replies.drop_first(),
                )
            } else {
                None
            },
            StepView::Finished(_) => None,
        }
    }
}

/// Whether a copy of the tree at `from` into `to` can start at `fs` and end
/// well at `next`.
pub open spec fn walk_ends(from: Seq<char>, to: Seq<char>, fs: FsState, next: FsState) -> bool {
    exists|replies: Seq<Reply>|
        ended_well(
            #[trigger] walk_trace(
                TreeCopyView::start(from, to).0,
                TreeCopyView::start(from, to).1,
                fs,
                replies,
            ),
            next,
        )
}

/// Whether a walk came to a good end at `next`.
pub open spec fn ended_well(
    result: Option<(TreeCopyView, StepView, FsState)>,
    next: FsState,
) -> bool {
    match result {
        Some((_, StepView::Finished(Ok(_)), fs)) => fs == next,
        _ => false,
    }
}

/// Whether the instruction can be made at `fs` and leaves `next`.
pub open spec fn instr_post(instr: InstrView, fs: FsState, next: FsState) -> bool {
    match instr {
        InstrView::EnsureDir { path } => {
            let request = Request::CreateDirAll { path };
            fs.allows(request) && next == fs.apply(request)
        },
        InstrView::Store { path, data, mode } => {
            let request = Request::Write { path, data, mode };
            fs.allows(request) && next == fs.apply(request)
        },
        InstrView::Transfer { from, to, mode } => {
            let request = Request::Write { path: to, data: fs.bytes(locate(from)), mode };
            fs.is_file(locate(from)) && fs.allows(request) && next == fs.apply(request)
        },
        InstrView::RemoveFile { path } => {
            let request = Request::RemoveFile { path };
            fs.allows(request) && next == fs.apply(request)
        },
        InstrView::RemoveTree { path } => {
            let request = Request::RemoveDirAll { path };
            fs.allows(request) && next == fs.apply(request)
        },
        InstrView::Rename { from, to } => {
            let request = Request::Rename { from, to };
            fs.allows(request) && next == fs.apply(request)
        },
        InstrView::CopyTree { from, to } => walk_ends(from, to, fs, next),
        InstrView::CopyNewTree { from, to } => !fs.present(locate(to)) && walk_ends(
            from,
            to,
            fs,
            next,
        ),
        InstrView::Survey { path } => next == fs,
    }
}

/// A filesystem together with what the last survey found missing.
pub struct Point {
    pub fs: FsState,
    pub missing: Seq<char>,
}

/// Whether the instruction can be made at `at` and leaves `next`: as
/// `instr_post` says for the filesystem, and with the topmost missing level
/// of its path in mind after a survey.
pub open spec fn instr_trail(instr: InstrView, at: Point, next: Point) -> bool {
    &&& instr_post(instr, at.fs, next.fs)
    &&& next.missing == match instr {
        InstrView::Survey { path } => first_missing(ancestors(path), 0, at.fs),
        _ => at.missing,
    }
}

/// Whether the instructions of `plan` from `done` on can be made one after
/// the other, starting at `at` and leaving `last`.
pub open spec fn plan_trail(plan: Seq<InstrView>, done: nat, at: Point, last: Point) -> bool
    decreases plan.len() - done,
{
    if done >= plan.len() {
        last == at
    } else {
        exists|mid: Point| #[trigger]
            instr_trail(plan[done as int], at, mid) && plan_trail(plan, done + 1, mid, last)
    }
}

/// Whether the instructions of `plan` from `done` on can be made one after
/// the other, starting at `fs` and leaving `last`.
pub open spec fn plan_post(plan: Seq<InstrView>, done: nat, fs: FsState, last: FsState) -> bool
    decreases plan.len() - done,
{
    if done >= plan.len() {
        last == fs
    } else {
        exists|mid: FsState| #[trigger]
            instr_post(plan[done as int], fs, mid) && plan_post(plan, done + 1, mid, last)
    }
}

/// A run that is over takes no further reply.
proof fn lemma_over_stays(run: RunView, outcome: StepView, fs: FsState, replies: Seq<Reply>)
    requires
        outcome is Finished,
    ensures
        run_trace(run, outcome, fs, replies) is Some ==> replies.len() == 0,
        run_trace(run, outcome, fs, replies) is Some ==> run_trace(run, outcome, fs, replies)
            == Some((run, outcome, fs)),
{
}

/// While a run is busy with a tree copy, it goes as the walk goes: a run
/// that ends well has seen its walk end well after some of the replies, and
/// has gone on from there with the rest.
proof fn lemma_run_follows_walk(
    run: RunView,
    step: StepView,
    fs: FsState,
    replies: Seq<Reply>,
    last: RunView,
    fs_last: FsState,
) -> (r: (int, TreeCopyView, FsState))
    requires
        run.stage == RunStage::Walking,
        step is Ask,
        run_trace(run, step, fs, replies) == Some((last, StepView::Finished(Ok(())), fs_last)),
    ensures
        0 < r.0 <= replies.len(),
        walk_trace(run.walk, step, fs, replies.take(r.0)) == Some(
            (r.1, StepView::Finished(Ok(())), r.2),
        ),
        run_trace(
            RunView { walk: r.1, ..run }.complete().0,
            RunView { walk: r.1, ..run }.complete().1,
            r.2,
            replies.skip(r.0),
        ) == Some((last, StepView::Finished(Ok(())), fs_last)),
    decreases replies.len(),
{
    assert(replies.len() > 0);
    let request = step->Ask_0;
    let reply = replies[0];
    let rest = replies.drop_first();
    assert(fs.admits(request, reply));
    let walked = run.walk.advance(reply);
    let advanced = run.advance(reply);
    let fs1 = fs.after(request, reply);
    assert(advanced == run.after_walk(walked));
    let run1 = RunView { walk: walked.0, ..run };
    match walked.1 {
        StepView::Ask(q) => {
            let r = lemma_run_follows_walk(run1, walked.1, fs1, rest, last, fs_last);
            let head = replies.take(r.0 + 1);
            assert(head.drop_first() =~= rest.take(r.0));
            assert(head[0] == reply);
            assert(head.len() > 0);
            assert(replies.skip(r.0 + 1) =~= rest.skip(r.0));
            assert(RunView { walk: r.1, ..run1 } == RunView { walk: r.1, ..run });
            assert(run1.walk == walked.0);
            assert(walk_trace(run.walk, step, fs, head) == walk_trace(
                walked.0,
                walked.1,
                fs1,
                head.drop_first(),
            ));
            (r.0 + 1, r.1, r.2)
        },
        StepView::Finished(Ok(unit)) => {
            assert(unit == ());
            let head = replies.take(1);
            assert(head.drop_first() =~= Seq::<Reply>::empty());
            assert(head[0] == reply);
            assert(head.len() > 0);
            assert(replies.skip(1) =~= rest);
            assert(walked.1 == StepView::Finished(Ok(())));
            assert(walk_trace(walked.0, walked.1, fs1, Seq::<Reply>::empty()) == Some(
                (walked.0, walked.1, fs1),
            ));
            assert(walk_trace(run.walk, step, fs, head) == walk_trace(
                walked.0,
                walked.1,
                fs1,
                head.drop_first(),
            ));
            (1, walked.0, fs1)
        },
        StepView::Finished(Err(e)) => {
            lemma_over_stays(advanced.0, advanced.1, fs1, rest);
            assert(false);
            (1, walked.0, fs1)
        },
    }
}

/// While a run is busy with a survey, it goes from level to level: a run
/// that ends well has found the first missing level, or that none is
/// missing, after some of the replies, and has gone on from there with the
/// rest. The filesystem is as it was.
proof fn lemma_run_surveys(
    run: RunView,
    step: StepView,
    fs: FsState,
    replies: Seq<Reply>,
    last: RunView,
    fs_last: FsState,
) -> (r: (int, nat))
    requires
        run.stage == RunStage::Surveying,
        run.level < run.levels.len(),
        run.missing == Seq::<char>::empty(),
        step == StepView::Ask(Request::Probe { path: run.levels[run.level as int] }),
        run_trace(run, step, fs, replies) == Some((last, StepView::Finished(Ok(())), fs_last)),
    ensures
        0 < r.0 <= replies.len(),
        ({
            let found = RunView {
                missing: first_missing(run.levels, run.level, fs),
                level: r.1,
                ..run
            };
            run_trace(found.complete().0, found.complete().1, fs, replies.skip(r.0)) == Some(
                (last, StepView::Finished(Ok(())), fs_last),
            )
        }),
    decreases run.levels.len() - run.level,
{
    assert(replies.len() > 0);
    let reply = replies[0];
    let rest = replies.drop_first();
    let advanced = run.advance(reply);
    assert(fs.admits(step->Ask_0, reply));
    assert(replies.skip(1) =~= rest);
    match reply {
        Reply::Found(found) => {
            assert(fs.after(step->Ask_0, reply) == fs);
            assert(advanced == run.surveyed(found));
            if !found {
                (1, run.level)
            } else if run.level + 1 < run.levels.len() {
                let r = lemma_run_surveys(advanced.0, advanced.1, fs, rest, last, fs_last);
                assert(replies.skip(r.0 + 1) =~= rest.skip(r.0));
                assert(RunView {
                    missing: first_missing(run.levels, run.level, fs),
                    level: r.1,
                    ..advanced.0
                } == RunView {
                    missing: first_missing(run.levels, run.level, fs),
                    level: r.1,
                    ..run
                });
                (r.0 + 1, r.1)
            } else {
                assert(first_missing(run.levels, run.level + 1, fs) == Seq::<char>::empty());
                (1, run.level + 1)
            }
        },
        _ => {
            lemma_over_stays(advanced.0, advanced.1, fs.after(step->Ask_0, reply), rest);
            assert(false);
            (1, run.level)
        },
    }
}

/// A run that ends well has made every instruction of its plan that was
/// still to make, in order, and is finished.
pub proof fn lemma_run_makes_plan(
    base: RunView,
    fs: FsState,
    replies: Seq<Reply>,
    last: RunView,
    fs_last: FsState,
)
    requires
        run_trace(base.proceed().0, base.proceed().1, fs, replies) == Some(
            (last, StepView::Finished(Ok(())), fs_last),
        ),
    ensures
        plan_post(base.plan, base.done, fs, fs_last),
        plan_trail(
            base.plan,
            base.done,
            Point { fs, missing: base.missing },
            Point { fs: fs_last, missing: last.missing },
        ),
        last.plan == base.plan,
        last.stage == RunStage::Finished,
        last.done >= base.plan.len(),
        last.done >= base.done,
    decreases base.plan.len() - base.done,
{
    let started = base.proceed();
    if base.done >= base.plan.len() {
        lemma_over_stays(started.0, started.1, fs, replies);
    } else {
        let instr = base.plan[base.done as int];
        assert(started.1 is Ask) by {
            match instr {
                InstrView::CopyTree { from, to } => {
                    assert(seq![(from, to)].len() == 1);
                },
                _ => {},
            }
        }
        assert(replies.len() > 0);
        let request = started.1->Ask_0;
        let reply = replies[0];
        let rest = replies.drop_first();
        assert(fs.admits(request, reply));
        let fs1 = fs.after(request, reply);
        let advanced = started.0.advance(reply);
        assert(run_trace(advanced.0, advanced.1, fs1, rest) == Some(
            (last, StepView::Finished(Ok(())), fs_last),
        ));
        let next_base = RunView { done: base.done + 1, ..started.0 };
        match instr {
            InstrView::Transfer { from, to, mode } => {
                match reply {
                    Reply::Bytes(data) => {
                        assert(advanced == started.0.store_loaded(data));
                        assert(rest.len() > 0);
                        let request2 = advanced.1->Ask_0;
                        let reply2 = rest[0];
                        let rest2 = rest.drop_first();
                        assert(fs1.admits(request2, reply2));
                        let fs2 = fs1.after(request2, reply2);
                        let advanced2 = advanced.0.advance(reply2);
                        match reply2 {
                            Reply::Done => {
                                let base2 = RunView { done: base.done + 1, ..advanced.0 };
                                assert(advanced2 == base2.proceed());
                                lemma_run_makes_plan(base2, fs2, rest2, last, fs_last);
                                assert(instr_post(instr, fs, fs2));
                                assert(instr_trail(
                                    instr,
                                    Point { fs, missing: base.missing },
                                    Point { fs: fs2, missing: base2.missing },
                                ));
                            },
                            _ => {
                                lemma_over_stays(advanced2.0, advanced2.1, fs2, rest2);
                                assert(false);
                            },
                        }
                    },
                    _ => {
                        lemma_over_stays(advanced.0, advanced.1, fs1, rest);
                        assert(false);
                    },
                }
            },
            InstrView::CopyTree { from, to } => {
                let r = lemma_run_follows_walk(started.0, started.1, fs, replies, last, fs_last);
                let base2 = RunView { done: base.done + 1, walk: r.1, ..started.0 };
                assert(RunView { walk: r.1, ..started.0 }.complete() == base2.proceed());
                lemma_run_makes_plan(base2, r.2, replies.skip(r.0), last, fs_last);
                assert(ended_well(
                    walk_trace(started.0.walk, started.1, fs, replies.take(r.0)),
                    r.2,
                ));
                assert(walk_ends(from, to, fs, r.2));
                assert(instr_post(instr, fs, r.2));
                assert(instr_trail(
                    instr,
                    Point { fs, missing: base.missing },
                    Point { fs: r.2, missing: base2.missing },
                ));
            },
            InstrView::CopyNewTree { from, to } => {
                match reply {
                    Reply::Found(false) => {
                        assert(advanced == started.0.vetted(false));
                        assert(seq![(from, to)].len() == 1);
                        assert(fs1 == fs);
                        let r = lemma_run_follows_walk(
                            advanced.0,
                            advanced.1,
                            fs,
                            rest,
                            last,
                            fs_last,
                        );
                        let base2 = RunView { done: base.done + 1, walk: r.1, ..advanced.0 };
                        assert(RunView { walk: r.1, ..advanced.0 }.complete() == base2.proceed());
                        lemma_run_makes_plan(base2, r.2, rest.skip(r.0), last, fs_last);
                        assert(ended_well(
                            walk_trace(advanced.0.walk, advanced.1, fs, rest.take(r.0)),
                            r.2,
                        ));
                        assert(walk_ends(from, to, fs, r.2));
                        assert(instr_post(instr, fs, r.2));
                        assert(instr_trail(
                            instr,
                            Point { fs, missing: base.missing },
                            Point { fs: r.2, missing: base2.missing },
                        ));
                    },
                    _ => {
                        lemma_over_stays(advanced.0, advanced.1, fs1, rest);
                        assert(false);
                    },
                }
            },
            InstrView::Survey { path } => {
                assert(ancestors(path).len() > 0);
                let r = lemma_run_surveys(started.0, started.1, fs, replies, last, fs_last);
                let found = RunView {
                    missing: first_missing(started.0.levels, 0, fs),
                    level: r.1,
                    ..started.0
                };
                let base2 = RunView { done: base.done + 1, ..found };
                assert(found.complete() == base2.proceed());
                lemma_run_makes_plan(base2, fs, replies.skip(r.0), last, fs_last);
                assert(instr_post(instr, fs, fs));
                assert(instr_trail(
                    instr,
                    Point { fs, missing: base.missing },
                    Point { fs, missing: base2.missing },
                ));
            },
            _ => {
                match reply {
                    Reply::Done => {
                        assert(advanced == next_base.proceed());
                        lemma_run_makes_plan(next_base, fs1, rest, last, fs_last);
                        assert(instr_post(instr, fs, fs1));
                        assert(instr_trail(
                            instr,
                            Point { fs, missing: base.missing },
                            Point { fs: fs1, missing: next_base.missing },
                        ));
                    },
                    _ => {
                        lemma_over_stays(advanced.0, advanced.1, fs1, rest);
                        assert(false);
                    },
                }
            },
        }
    }
}

/// Whether two operations have the same kind, paths, payload and backup name.
pub open spec fn same_setup(a: OperationView, b: OperationView) -> bool {
    &&& a.kind == b.kind
    &&& a.source == b.source
    &&& a.dest == b.dest
    &&& a.temp_dir == b.temp_dir
    &&& a.payload == b.payload
    &&& a.backup_name == b.backup_name
}

/// Whether the execution of `op`, started with `name` at `fs`, can end well
/// with the operation as `op_last` and the filesystem as `fs_last`.
pub open spec fn executes(
    op: OperationView,
    name: Seq<char>,
    fs: FsState,
    op_last: OperationView,
    fs_last: FsState,
) -> bool {
    exists|replies: Seq<Reply>| #[trigger]
        execute_trace(op.execute_start(name).0, op.execute_start(name).1, fs, replies) == Some(
            (op_last, StepView::Finished(Ok(())), fs_last),
        )
}

/// Whether the rollback of `op`, started at `fs`, can end well with the
/// operation as `op_last` and the filesystem as `fs_last`.
pub open spec fn rolls_back(
    op: OperationView,
    fs: FsState,
    op_last: OperationView,
    fs_last: FsState,
) -> bool {
    exists|replies: Seq<Reply>| #[trigger]
        rollback_trace(op.rollback_start().0, op.rollback_start().1, fs, replies) == Some(
            (op_last, StepView::Finished(Ok(())), fs_last),
        )
}

/// An execution goes as the run of its plan goes, and changes nothing of
/// the operation but the run and the backup path.
proof fn lemma_execute_follows_run(
    op: OperationView,
    step: StepView,
    fs: FsState,
    replies: Seq<Reply>,
    op_last: OperationView,
    fs_last: FsState,
)
    requires
        op.activity == Activity::Executing,
        execute_trace(op, step, fs, replies) == Some(
            (op_last, StepView::Finished(Ok(())), fs_last),
        ),
    ensures
        run_trace(op.run, step, fs, replies) == Some(
            (op_last.run, StepView::Finished(Ok(())), fs_last),
        ),
        same_setup(op, op_last),
        op_last.activity == Activity::Executing,
        op_last.backup_path == op.backup_path || op_last.backup_path == op.candidate(),
        !op.takes_backup() ==> op_last.backup_path == op.backup_path,
        replies.len() > 0 && op.takes_backup() && op_last.run.done >= BACKUP_STEPS
            ==> op_last.backup_path == op.candidate(),
        !op.surveys() ==> op_last.created == op.created,
        replies.len() > 0 && op.surveys() && op_last.run.done >= op.survey_steps()
            ==> op_last.created == op_last.run.missing,
    decreases replies.len(),
{
    if replies.len() > 0 {
        let request = step->Ask_0;
        let reply = replies[0];
        let rest = replies.drop_first();
        let advanced = op.execute_next(reply);
        let fs1 = fs.after(request, reply);
        lemma_execute_follows_run(advanced.0, advanced.1, fs1, rest, op_last, fs_last);
        if rest.len() == 0 {
            assert(op_last == advanced.0);
        }
    }
}

/// A rollback goes as the run of its plan goes, and changes nothing of the
/// operation but the run.
proof fn lemma_rollback_follows_run(
    op: OperationView,
    step: StepView,
    fs: FsState,
    replies: Seq<Reply>,
    op_last: OperationView,
    fs_last: FsState,
)
    requires
        op.activity == Activity::RollingBack,
        rollback_trace(op, step, fs, replies) == Some(
            (op_last, StepView::Finished(Ok(())), fs_last),
        ),
    ensures
        run_trace(op.run, step, fs, replies) == Some(
            (op_last.run, StepView::Finished(Ok(())), fs_last),
        ),
        op_last == (OperationView { run: op_last.run, ..op }),
    decreases replies.len(),
{
    if replies.len() > 0 {
        let request = step->Ask_0;
        let reply = replies[0];
        let rest = replies.drop_first();
        let advanced = op.rollback_next(reply);
        let fs1 = fs.after(request, reply);
        lemma_rollback_follows_run(advanced.0, advanced.1, fs1, rest, op_last, fs_last);
    }
}

/// An operation that executed well was idle before and has made every
/// instruction of its execution plan, in order. It is as it was but for its
/// run; where it takes a backup, for the name of the backup and for the
/// backup path, which is now the place under the backup directory that the
/// name gives; and where it makes directories, for the level that it found
/// missing.
pub proof fn lemma_executed_made_plan(
    op: OperationView,
    name: Seq<char>,
    fs: FsState,
    op_last: OperationView,
    fs_last: FsState,
)
    requires
        executes(op, name, fs, op_last, fs_last),
    ensures
        op.activity == Activity::Idle,
        same_setup(op.named(name), op_last),
        plan_post(op_last.execute_plan(), 0, fs, fs_last),
        plan_trail(
            op_last.execute_plan(),
            0,
            Point { fs, missing: Seq::empty() },
            Point { fs: fs_last, missing: op_last.run.missing },
        ),
        op_last.activity == Activity::Executing,
        op_last.backup_path == if op.takes_backup() {
            op_last.candidate()
        } else {
            op.backup_path
        },
        op_last.created == if op.surveys() {
            op_last.run.missing
        } else {
            op.created
        },
        op_last.run.stage == RunStage::Finished,
{
    let started = op.execute_start(name);
    let replies = choose|replies: Seq<Reply>| #[trigger]
        execute_trace(started.0, started.1, fs, replies) == Some(
            (op_last, StepView::Finished(Ok(())), fs_last),
        );
    if op.activity != Activity::Idle {
        if replies.len() > 0 {
            assert(execute_trace(started.0, started.1, fs, replies) is None);
        }
        assert(false);
    }
    lemma_execute_start_asks(op, name);
    lemma_execute_follows_run(started.0, started.1, fs, replies, op_last, fs_last);
    let base = RunView { plan: started.0.execute_plan(), ..RunView::idle() };
    assert(started.0.run == base.proceed().0);
    assert(started.1 == base.proceed().1);
    lemma_run_makes_plan(base, fs, replies, op_last.run, fs_last);
    assert(replies.len() > 0);
    assert(op_last.execute_plan() == started.0.execute_plan());
    assert(started.0.execute_plan().len() >= 3 || !op.takes_backup());
    assert(started.0.execute_plan().len() >= op.survey_steps());
}

/// An operation that was rolled back well has made every instruction of
/// its rollback plan, in order, and is as it was but for its run.
pub proof fn lemma_rolled_back_made_plan(
    op: OperationView,
    fs: FsState,
    op_last: OperationView,
    fs_last: FsState,
)
    requires
        rolls_back(op, fs, op_last, fs_last),
    ensures
        plan_post(op.rollback_plan(), 0, fs, fs_last),
        op_last == (OperationView { run: op_last.run, activity: Activity::RollingBack, ..op }),
        op_last.run.stage == RunStage::Finished,
{
    let started = op.rollback_start();
    let replies = choose|replies: Seq<Reply>| #[trigger]
        rollback_trace(started.0, started.1, fs, replies) == Some(
            (op_last, StepView::Finished(Ok(())), fs_last),
        );
    lemma_rollback_follows_run(started.0, started.1, fs, replies, op_last, fs_last);
    let base = RunView { plan: op.rollback_plan(), ..RunView::idle() };
    assert(started.0.run == base.proceed().0);
    assert(started.1 == base.proceed().1);
    lemma_run_makes_plan(base, fs, replies, op_last.run, fs_last);
}

/// The operation, its step and the filesystem after `replies` were given
/// one by one to the taking of the backup by itself, each to the request
/// that was open; `None` where a reply is one that the filesystem cannot
/// give, or where replies are left when the backup is over.
pub open spec fn backup_trace(
    op: OperationView,
    step: StepView,
    fs: FsState,
    replies: Seq<Reply>,
) -> Option<(OperationView, StepView, FsState)>
    decreases replies.len(),
{
    if replies.len() == 0 {
        Some((op, step, fs))
    } else {
        match step {
            StepView::Ask(request) => if fs.admits(request, replies[0]) {
                let advanced = op.backup_next(replies[0]);
                backup_trace(
                    advanced.0,
                    advanced.1,
                    fs.after(request, replies[0]),
                    replies.drop_first(),
                )
            } else {
                None
            },
            StepView::Finished(_) => None,
        }
    }
}

/// Whether the taking of the backup of `op` by itself, started with `name`
/// at `fs`, can end well with the operation as `op_last` and the filesystem
/// as `fs_last`.
pub open spec fn backs_up(
    op: OperationView,
    name: Seq<char>,
    fs: FsState,
    op_last: OperationView,
    fs_last: FsState,
) -> bool {
    exists|replies: Seq<Reply>| #[trigger]
        backup_trace(op.backup_start(name).0, op.backup_start(name).1, fs, replies) == Some(
            (op_last, StepView::Finished(Ok(())), fs_last),
        )
}

/// The taking of a backup goes as the run of its plan goes, and changes
/// nothing of the operation but the run and the backup path.
proof fn lemma_backup_follows_run(
    op: OperationView,
    step: StepView,
    fs: FsState,
    replies: Seq<Reply>,
    op_last: OperationView,
    fs_last: FsState,
)
    requires
        op.activity == Activity::BackingUp,
        op.takes_backup(),
        backup_trace(op, step, fs, replies) == Some(
            (op_last, StepView::Finished(Ok(())), fs_last),
        ),
    ensures
        run_trace(op.run, step, fs, replies) == Some(
            (op_last.run, StepView::Finished(Ok(())), fs_last),
        ),
        same_setup(op, op_last),
        op_last.activity == Activity::BackingUp,
        replies.len() > 0 && op_last.run.done >= BACKUP_STEPS ==> op_last.backup_path
            == op.candidate(),
    decreases replies.len(),
{
    if replies.len() > 0 {
        let request = step->Ask_0;
        let reply = replies[0];
        let rest = replies.drop_first();
        let advanced = op.backup_next(reply);
        let fs1 = fs.after(request, reply);
        lemma_backup_follows_run(advanced.0, advanced.1, fs1, rest, op_last, fs_last);
        if rest.len() == 0 {
            assert(op_last == advanced.0);
        }
    }
}

/// An operation whose backup was taken by itself, to a good end, was idle
/// before, takes a backup, and has made the two instructions of its backup
/// plan, in order. It is as it was but for its run, for the name of the
/// backup, and for the backup path, which is now the place under the backup
/// directory that the name gives.
pub proof fn lemma_backed_up_made_plan(
    op: OperationView,
    name: Seq<char>,
    fs: FsState,
    op_last: OperationView,
    fs_last: FsState,
)
    requires
        backs_up(op, name, fs, op_last, fs_last),
    ensures
        op.activity == Activity::Idle,
        op.takes_backup(),
        same_setup(OperationView { backup_name: name, ..op }, op_last),
        plan_post(op_last.backup_plan(), 0, fs, fs_last),
        op_last.backup_plan().len() == BACKUP_STEPS,
        op_last.activity == Activity::BackingUp,
        op_last.backup_path == op_last.candidate(),
        op_last.candidate() == joined(op.temp_dir, name),
        op_last.run.stage == RunStage::Finished,
{
    let started = op.backup_start(name);
    let replies = choose|replies: Seq<Reply>| #[trigger]
        backup_trace(started.0, started.1, fs, replies) == Some(
            (op_last, StepView::Finished(Ok(())), fs_last),
        );
    if !(op.activity == Activity::Idle && op.takes_backup()) {
        if replies.len() > 0 {
            assert(backup_trace(started.0, started.1, fs, replies) is None);
        }
        assert(false);
    }
    let named = OperationView { backup_name: name, ..op };
    let plan = named.backup_plan();
    assert(plan.len() == BACKUP_STEPS);
    lemma_start_asks(plan);
    lemma_backup_follows_run(started.0, started.1, fs, replies, op_last, fs_last);
    let base = RunView { plan, ..RunView::idle() };
    assert(started.0.run == base.proceed().0);
    assert(started.1 == base.proceed().1);
    lemma_run_makes_plan(base, fs, replies, op_last.run, fs_last);
    assert(replies.len() > 0);
    assert(op_last.backup_plan() == plan);
}

} // verus!
