//! No change without a safety net: an operation that takes a backup asks
//! for nothing that changes or removes what exists before its backup is
//! complete, and its backup path is empty exactly as long as the backup is
//! not complete.
//!
//! The statements here hold whatever the replies are.

use vstd::prelude::*;
use crate::operation::{law_execution_backs_up_first, Activity, OperationView, BACKUP_STEPS};
use crate::path::{is_entry_name, joined};
use crate::plan::{lemma_proceed_and_stage, lemma_step_and_stage, InstrView, RunStage, RunView};
use crate::protocol::{Reply, Request, StepView, WriteMode};
use crate::tree::TreeCopyView;

verus! {

/// Whether the request changes the bytes of a file that exists, or removes
/// something.
pub open spec fn alters(request: Request) -> bool {
    match request {
        Request::Write { path, data, mode } => mode == WriteMode::Append
            || mode == WriteMode::Truncate,
        Request::RemoveFile { .. } => true,
        Request::RemoveDirAll { .. } => true,
        Request::Rename { .. } => true,
        _ => false,
    }
}

/// Whether the step asks for nothing that alters.
pub open spec fn harmless(step: StepView) -> bool {
    match step {
        StepView::Ask(request) => !alters(request),
        StepView::Finished(_) => true,
    }
}

/// Going through a listing asks for nothing that alters.
proof fn lemma_scan_harmless(walk: TreeCopyView)
    ensures
        harmless(walk.scan().1),
    decreases walk.entries.len() - walk.next,
{
    if walk.next < walk.entries.len() {
        let entry = walk.entries[walk.next as int];
        if is_entry_name(entry.name) && entry.is_dir {
            lemma_scan_harmless(
                TreeCopyView {
                    stack: walk.stack.push(
                        (
                            joined(walk.src_dir, entry.name),
                            joined(walk.dst_dir, entry.name),
                        ),
                    ),
                    next: walk.next + 1,
                    ..walk
                },
            );
        }
    }
}

/// A copy of a tree never asks for anything that alters: it probes, makes
/// directories, lists, reads, and writes files whole.
pub proof fn lemma_walk_harmless(walk: TreeCopyView, from: Seq<char>, to: Seq<char>, reply: Reply)
    ensures
        harmless(TreeCopyView::start(from, to).1),
        harmless(walk.advance(reply).1),
{
    lemma_scan_harmless(TreeCopyView { next: walk.next + 1, ..walk });
    match reply {
        Reply::Entries(entries) => {
            lemma_scan_harmless(TreeCopyView { entries, next: 0, ..walk });
        },
        _ => {},
    }
}

/// The operation and its step after `replies` were handed to `execute` one
/// by one, for as long as it asked.
pub open spec fn execute_run(op: OperationView, step: StepView, replies: Seq<Reply>) -> (
    OperationView,
    StepView,
)
    decreases replies.len(),
{
    if replies.len() == 0 || step is Finished {
        (op, step)
    } else {
        let advanced = op.execute_next(replies[0]);
        execute_run(advanced.0, advanced.1, replies.drop_first())
    }
}

/// The operation and its step after `replies` were handed to the backup
/// step one by one, for as long as it asked.
pub open spec fn backup_run(op: OperationView, step: StepView, replies: Seq<Reply>) -> (
    OperationView,
    StepView,
)
    decreases replies.len(),
{
    if replies.len() == 0 || step is Finished {
        (op, step)
    } else {
        let advanced = op.backup_next(replies[0]);
        backup_run(advanced.0, advanced.1, replies.drop_first())
    }
}

/// The plan that the run under way carries out: the plan of the backup
/// where the backup is taken by itself, the execution plan else.
pub open spec fn forward_plan(op: OperationView) -> Seq<InstrView> {
    if op.activity == Activity::BackingUp {
        op.backup_plan()
    } else {
        op.execute_plan()
    }
}

/// The operation and its step after `reply` was handed to the run under
/// way: the step that the execution and the backup by itself share.
pub open spec fn forward(op: OperationView, reply: Reply) -> (OperationView, StepView) {
    (OperationView { run: op.run.advance(reply).0, ..op }.record(), op.run.advance(reply).1)
}

/// Where the execution of an operation that takes a backup stands, or the
/// taking of its backup by itself.
///
/// The backup path is empty as long as fewer instructions are done than
/// the backup takes, and is the place of the backup from then on. What the
/// operation asks for is harmless as long as the backup is not complete. A
/// run that failed has not done every instruction of its plan, and a run
/// that is finished has.
pub open spec fn guarded(op: OperationView, step: StepView) -> bool {
    &&& op.activity == Activity::Executing || op.activity == Activity::BackingUp
    &&& op.takes_backup()
    &&& op.run.plan == forward_plan(op)
    &&& op.run.stage == RunStage::Failed ==> op.run.done < op.run.plan.len()
    &&& op.run.stage == RunStage::Finished ==> op.run.done >= op.run.plan.len()
    &&& op.run.done < BACKUP_STEPS ==> op.backup_path.len() == 0
    &&& op.run.done >= BACKUP_STEPS ==> op.backup_path == op.candidate()
    &&& op.run.done < BACKUP_STEPS ==> harmless(step)
    &&& match op.run.stage {
        RunStage::Acking | RunStage::Walking | RunStage::Surveying => op.run.done
            < op.run.plan.len(),
        RunStage::Vetting => op.run.done < op.run.plan.len()
            && op.run.plan[op.run.done as int] is CopyNewTree,
        RunStage::Loading | RunStage::Storing => op.run.done < op.run.plan.len()
            && op.run.plan[op.run.done as int] is Transfer,
        _ => step is Finished,
    }
}

/// The start of an instruction keeps the state of the run in step with its
/// plan, and asks for what the instruction says.
proof fn lemma_proceed_guarded(op: OperationView)
    requires
        op.activity == Activity::Executing || op.activity == Activity::BackingUp,
        op.takes_backup(),
        op.run.plan == forward_plan(op),
        op.run.stage != RunStage::Failed,
        op.run.done < BACKUP_STEPS ==> op.backup_path.len() == 0,
        op.run.done >= BACKUP_STEPS ==> op.backup_path == op.candidate(),
        op.run.done <= op.run.plan.len(),
    ensures
        guarded(
            OperationView { run: op.run.proceed().0, ..op },
            op.run.proceed().1,
        ),
{
    if op.run.done < op.run.plan.len() {
        match op.run.plan[op.run.done as int] {
            InstrView::CopyTree { from, to } => {
                lemma_walk_harmless(TreeCopyView::idle(), from, to, Reply::Done);
            },
            _ => {},
        }
    }
}

/// Every reply handed to the run under way leads from a guarded state to a
/// guarded state.
pub proof fn lemma_forward_guarded(op: OperationView, step: StepView, reply: Reply)
    requires
        guarded(op, step),
        step is Ask,
    ensures
        guarded(forward(op, reply).0, forward(op, reply).1),
{
    let run = op.run;
    let advanced = run.advance(reply);
    let plan = forward_plan(op);
    assert(plan.len() >= 2);
    match run.stage {
        RunStage::Vetting => {
            match run.plan[run.done as int] {
                InstrView::CopyNewTree { from, to } => {
                    lemma_walk_harmless(TreeCopyView::idle(), from, to, Reply::Done);
                    assert(seq![(from, to)].len() == 1);
                },
                _ => {},
            }
        },
        RunStage::Surveying => {
            match reply {
                Reply::Found(found) => {
                    if run.level < run.levels.len() {
                        let next = if !found {
                            RunView {
                                done: run.done + 1,
                                missing: run.levels[run.level as int],
                                ..run
                            }
                        } else {
                            RunView { done: run.done + 1, level: run.level + 1, ..run }
                        };
                        lemma_proceed_guarded(OperationView { run: next, ..op }.record());
                    }
                },
                _ => {},
            }
        },
        RunStage::Walking => {
            let walked = run.walk.advance(reply);
            lemma_walk_harmless(run.walk, Seq::empty(), Seq::empty(), reply);
            let moved = RunView { walk: walked.0, ..run };
            match walked.1 {
                StepView::Finished(Ok(_)) => {
                    let next = RunView { done: run.done + 1, ..moved };
                    lemma_proceed_guarded(
                        OperationView { run: next, ..op }.record(),
                    );
                },
                _ => {},
            }
        },
        RunStage::Loading => {},
        _ => {
            match reply {
                Reply::Done => {
                    let next = RunView { done: run.done + 1, ..run };
                    lemma_proceed_guarded(
                        OperationView { run: next, ..op }.record(),
                    );
                },
                _ => {},
            }
        },
    }
}

/// A run of `execute` leads from a guarded state to a guarded state.
proof fn lemma_execute_run_guarded(op: OperationView, step: StepView, replies: Seq<Reply>)
    requires
        guarded(op, step),
        op.activity == Activity::Executing,
    ensures
        guarded(execute_run(op, step, replies).0, execute_run(op, step, replies).1),
    decreases replies.len(),
{
    if replies.len() > 0 && step is Ask {
        lemma_forward_guarded(op, step, replies[0]);
        let advanced = op.execute_next(replies[0]);
        lemma_execute_run_guarded(advanced.0, advanced.1, replies.drop_first());
    }
}

/// A run of the backup step leads from a guarded state to a guarded state.
proof fn lemma_backup_run_guarded(op: OperationView, step: StepView, replies: Seq<Reply>)
    requires
        guarded(op, step),
        op.activity == Activity::BackingUp,
    ensures
        guarded(backup_run(op, step, replies).0, backup_run(op, step, replies).1),
        backup_run(op, step, replies).0.temp_dir == op.temp_dir,
        backup_run(op, step, replies).0.backup_name == op.backup_name,
    decreases replies.len(),
{
    if replies.len() > 0 && step is Ask {
        lemma_forward_guarded(op, step, replies[0]);
        let advanced = op.backup_next(replies[0]);
        lemma_backup_run_guarded(advanced.0, advanced.1, replies.drop_first());
    }
}

/// The backup path tells whether the backup is there.
///
/// Whatever the replies, an operation whose backup is taken by itself, and
/// that starts with an empty backup path, has its backup path empty for as
/// long as the backup is not complete, and so also where the backup has
/// failed; once the backup has ended well, the path is the place under the
/// backup directory that the name gives. The backup by itself asks for
/// nothing that changes or removes what exists.
pub proof fn law_backup_is_recorded(op: OperationView, name: Seq<char>, replies: Seq<Reply>)
    requires
        op.takes_backup(),
        op.activity == Activity::Idle,
        op.backup_path.len() == 0,
    ensures
        ({
            let started = op.backup_start(name);
            let reached = backup_run(started.0, started.1, replies);
            &&& harmless(reached.1)
            &&& reached.1 is Ask ==> reached.0.backup_path.len() == 0
            &&& reached.1 matches StepView::Finished(Err(_)) ==> reached.0.backup_path.len() == 0
            &&& reached.1 matches StepView::Finished(Ok(_)) ==> reached.0.backup_path == joined(
                op.temp_dir,
                name,
            )
        }),
{
    let started = op.backup_start(name);
    let named = OperationView { backup_name: name, ..op };
    let launched = OperationView {
        activity: Activity::BackingUp,
        run: RunView { plan: named.backup_plan(), ..RunView::idle() },
        ..named
    };
    lemma_proceed_guarded(launched);
    lemma_proceed_and_stage(launched.run);
    assert(started.0 == OperationView { run: launched.run.proceed().0, ..launched });
    assert(started.0.run.plan.len() == BACKUP_STEPS);
    lemma_backup_run_guarded(started.0, started.1, replies);
    lemma_backup_run_over(started.0, started.1, replies);
    let reached = backup_run(started.0, started.1, replies);
    assert(reached.0.run.plan == forward_plan(reached.0));
    assert(reached.0.candidate() == joined(op.temp_dir, name));
}

/// How the step that a run of the backup step has reached shows in the run:
/// a step that asks belongs to a run that is not over, a good end to a run
/// that is finished, and a failure to a run that has failed.
proof fn lemma_backup_run_over(op: OperationView, step: StepView, replies: Seq<Reply>)
    requires
        guarded(op, step),
        op.activity == Activity::BackingUp,
        step is Ask ==> !op.run.is_over(),
        step matches StepView::Finished(Ok(_)) ==> op.run.stage == RunStage::Finished,
        step matches StepView::Finished(Err(_)) ==> op.run.stage == RunStage::Failed,
    ensures
        ({
            let reached = backup_run(op, step, replies);
            &&& reached.1 is Ask ==> !reached.0.run.is_over() && reached.0.run.done < BACKUP_STEPS
            &&& reached.1 matches StepView::Finished(Ok(_)) ==> reached.0.run.stage
                == RunStage::Finished
            &&& reached.1 matches StepView::Finished(Err(_)) ==> reached.0.run.stage
                == RunStage::Failed
            &&& guarded(reached.0, reached.1)
            &&& reached.0.activity == Activity::BackingUp
        }),
    decreases replies.len(),
{
    if replies.len() > 0 && step is Ask {
        lemma_forward_guarded(op, step, replies[0]);
        lemma_step_and_stage(op.run, replies[0]);
        let advanced = op.backup_next(replies[0]);
        lemma_backup_run_over(advanced.0, advanced.1, replies.drop_first());
    } else {
        if step is Ask {
            assert(op.run.plan.len() == BACKUP_STEPS);
            if op.run.done >= BACKUP_STEPS {
                assert(false);
            }
        }
    }
}

/// No change without a backup.
///
/// Whatever the replies, an operation that takes a backup and starts with
/// an empty backup path has its backup path empty exactly as long as the
/// backup is not complete; once both instructions of the backup are done,
/// the path is the place under the backup directory that the name gives;
/// and the operation asks for a change or a removal only then.
pub proof fn law_backup_comes_first(op: OperationView, name: Seq<char>, replies: Seq<Reply>)
    requires
        op.takes_backup(),
        op.activity == Activity::Idle,
        op.backup_path.len() == 0,
    ensures
        ({
            let started = op.execute_start(name);
            let reached = execute_run(started.0, started.1, replies);
            &&& guarded(reached.0, reached.1)
            &&& reached.0.run.done < BACKUP_STEPS ==> reached.0.backup_path.len() == 0
            &&& reached.0.run.done >= BACKUP_STEPS ==> reached.0.backup_path == joined(
                op.temp_dir,
                name,
            )
            &&& !harmless(reached.1) ==> reached.0.run.done >= BACKUP_STEPS
                && reached.0.backup_path == joined(op.temp_dir, name)
        }),
{
    let started = op.execute_start(name);
    let named = op.named(name);
    let launched = OperationView {
        activity: Activity::Executing,
        run: RunView { plan: named.execute_plan(), ..RunView::idle() },
        ..named
    };
    lemma_proceed_guarded(launched);
    assert(started.0 == OperationView { run: launched.run.proceed().0, ..launched });
    lemma_execute_run_guarded(started.0, started.1, replies);
    lemma_execute_run_setup(started.0, started.1, replies);
}

/// A run of `execute` changes neither the backup directory nor the name of
/// the backup.
proof fn lemma_execute_run_setup(op: OperationView, step: StepView, replies: Seq<Reply>)
    ensures
        execute_run(op, step, replies).0.temp_dir == op.temp_dir,
        execute_run(op, step, replies).0.backup_name == op.backup_name,
    decreases replies.len(),
{
    if replies.len() > 0 && step is Ask {
        let advanced = op.execute_next(replies[0]);
        lemma_execute_run_setup(advanced.0, advanced.1, replies.drop_first());
    }
}

/// Whether an execution and the taking of the backup by itself stand at the
/// same point of the backup: the operations differ in nothing but what they
/// are busy with and the plans of their runs, and the backup is not
/// complete.
pub open spec fn in_step(executing: OperationView, backing: OperationView) -> bool {
    &&& executing.activity == Activity::Executing
    &&& backing.activity == Activity::BackingUp
    &&& executing.takes_backup()
    &&& executing.run.plan == executing.execute_plan()
    &&& backing.run.plan == backing.backup_plan()
    &&& backing.run.done < BACKUP_STEPS
    &&& backing == (OperationView {
        activity: Activity::BackingUp,
        run: RunView { plan: backing.run.plan, ..executing.run },
        ..executing
    })
}

/// One reply leads an execution and the taking of the backup by itself,
/// which stand at the same point, to the same point again with the same
/// request, or to the same failure, or to the end of the backup, at which
/// both have written down the same backup path.
proof fn lemma_in_step(executing: OperationView, backing: OperationView, reply: Reply)
    requires
        in_step(executing, backing),
        !backing.run.is_over(),
    ensures
        ({
            let e = executing.execute_next(reply);
            let b = backing.backup_next(reply);
            &&& e.0.backup_path == b.0.backup_path
            &&& match b.1 {
                StepView::Ask(_) => in_step(e.0, b.0) && e.1 == b.1 && !b.0.run.is_over(),
                StepView::Finished(Err(_)) => e.1 == b.1,
                StepView::Finished(Ok(_)) => e.0.run.done == BACKUP_STEPS && b.0.run.done
                    == BACKUP_STEPS,
            }
        }),
{
    law_execution_backs_up_first(executing);
    let plan = executing.execute_plan();
    let head = backing.backup_plan();
    assert(head.len() == BACKUP_STEPS);
    assert(plan.len() > BACKUP_STEPS);
    let done = backing.run.done as int;
    assert(plan[done] == head[done]);
    if done + 1 < BACKUP_STEPS {
        assert(plan[done + 1] == head[done + 1]);
    }
    lemma_step_and_stage(backing.run, reply);
    lemma_step_and_stage(executing.run, reply);
    match executing.run.stage {
        RunStage::Walking => {
            let walked = executing.run.walk.advance(reply);
        },
        _ => {},
    }
}

/// The execution takes the backup as the backup step takes it.
///
/// Whatever the replies, an execution and the taking of the backup by
/// itself, started on the same operation under the same name and given the
/// same replies, ask the same requests for as long as the backup is under
/// way, fail with the same error where it fails, and have the same backup
/// path at every point, so also once the backup is complete and the
/// execution has gone on to the change.
pub proof fn law_execute_takes_the_backup_step(
    op: OperationView,
    name: Seq<char>,
    replies: Seq<Reply>,
)
    requires
        op.takes_backup(),
        op.activity == Activity::Idle,
        op.backup_path.len() == 0,
    ensures
        ({
            let e = execute_run(op.execute_start(name).0, op.execute_start(name).1, replies);
            let b = backup_run(op.backup_start(name).0, op.backup_start(name).1, replies);
            &&& e.0.backup_path == b.0.backup_path
            &&& b.1 is Ask ==> e.1 == b.1
            &&& b.1 matches StepView::Finished(Err(_)) ==> e.1 == b.1
        }),
{
    let e = op.execute_start(name);
    let b = op.backup_start(name);
    let named = op.named(name);
    law_execution_backs_up_first(named);
    lemma_proceed_and_stage(RunView { plan: named.backup_plan(), ..RunView::idle() });
    lemma_proceed_and_stage(RunView { plan: named.execute_plan(), ..RunView::idle() });
    assert(named.execute_plan()[0] == named.backup_plan()[0]);
    assert(in_step(e.0, b.0));
    assert(e.1 == b.1);
    lemma_runs_in_step(e.0, b.0, e.1, replies);
}

/// Runs of an execution and of the backup step that stand at the same point
/// stay together to the end of the backup.
proof fn lemma_runs_in_step(
    executing: OperationView,
    backing: OperationView,
    step: StepView,
    replies: Seq<Reply>,
)
    requires
        in_step(executing, backing),
        !backing.run.is_over(),
        step is Ask,
        executing.backup_path.len() == 0,
        guarded(executing, step),
    ensures
        ({
            let e = execute_run(executing, step, replies);
            let b = backup_run(backing, step, replies);
            &&& e.0.backup_path == b.0.backup_path
            &&& b.1 is Ask ==> e.1 == b.1
            &&& b.1 matches StepView::Finished(Err(_)) ==> e.1 == b.1
        }),
    decreases replies.len(),
{
    if replies.len() > 0 {
        let reply = replies[0];
        let rest = replies.drop_first();
        lemma_in_step(executing, backing, reply);
        lemma_forward_guarded(executing, step, reply);
        let e = executing.execute_next(reply);
        let b = backing.backup_next(reply);
        match b.1 {
            StepView::Ask(_) => {
                assert(e.0.backup_path.len() == 0);
                lemma_runs_in_step(e.0, b.0, e.1, rest);
            },
            StepView::Finished(Err(_)) => {
                assert(execute_run(e.0, e.1, rest) == (e.0, e.1));
                assert(backup_run(b.0, b.1, rest) == (b.0, b.1));
            },
            StepView::Finished(Ok(_)) => {
                assert(backup_run(b.0, b.1, rest) == (b.0, b.1));
                lemma_execute_run_guarded(e.0, e.1, rest);
                lemma_execute_run_setup(e.0, e.1, rest);
                lemma_done_grows(e.0, e.1, rest);
                let last = execute_run(e.0, e.1, rest).0;
                assert(last.backup_path == last.candidate());
                assert(e.0.backup_path == e.0.candidate());
            },
        }
    }
}

/// A run of `execute` never undoes an instruction.
proof fn lemma_done_grows(op: OperationView, step: StepView, replies: Seq<Reply>)
    requires
        op.activity == Activity::Executing,
    ensures
        execute_run(op, step, replies).0.run.done >= op.run.done,
        execute_run(op, step, replies).0.activity == Activity::Executing,
    decreases replies.len(),
{
    if replies.len() > 0 && step is Ask {
        let advanced = op.execute_next(replies[0]);
        lemma_advance_grows(op.run, replies[0]);
        lemma_done_grows(advanced.0, advanced.1, replies.drop_first());
    }
}

/// A step of a run never undoes an instruction.
proof fn lemma_advance_grows(run: RunView, reply: Reply)
    ensures
        run.advance(reply).0.done >= run.done,
{
}

} // verus!
