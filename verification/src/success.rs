//! When success is owed: an operation whose every instruction the
//! filesystem allows ends well, provided that no reply is a failure.
//!
//! The statements here cover every plan. For a copy of a tree they rest on
//! what is proved of the walk: that it ends well on a finite tree.

use vstd::prelude::*;
use crate::laws::{backup_key, saves_file, tree_backup_ready};
use crate::model::{
    first_missing, lemma_ancestors_are_dirs, lemma_graft_then_remove, lemma_grafted,
    lemma_leads_to_parent, lemma_locate_joined, lemma_with_dirs, lemma_within_self,
    lemma_within_trans, locate, within, FsState, Key,
};
use crate::operation::{lemma_execute_start_asks, Activity, OpKind, OperationView};
use crate::path::{ancestors, is_entry_name, joined};
use crate::plan::{InstrView, RunStage, RunView};
use crate::protocol::{Reply, Request, StepView};
use crate::trace::{
    backs_up, backup_trace, execute_trace, executes, lemma_executed_made_plan, rollback_trace,
    rolls_back, run_trace, walk_trace,
};
use crate::transaction::{Phase, TransactionView};
use crate::tree::TreeCopyView;
use crate::tree_success::{law_walk_succeeds, lemma_tree_finite_same, tree_finite, tree_ready};
use crate::tx_trace::tx_execute_trace;

verus! {

/// Whether the filesystem allows the instruction. It allows a copy of a
/// tree where the tree is ready to be copied, at some depth.
pub open spec fn instr_can(instr: InstrView, fs: FsState) -> bool {
    match instr {
        InstrView::EnsureDir { path } => fs.allows(Request::CreateDirAll { path }),
        InstrView::Store { path, data, mode } => fs.allows(Request::Write { path, data, mode }),
        InstrView::Transfer { from, to, mode } => fs.is_file(locate(from)) && fs.allows(
            Request::Write { path: to, data: fs.bytes(locate(from)), mode },
        ),
        InstrView::RemoveFile { path } => fs.allows(Request::RemoveFile { path }),
        InstrView::RemoveTree { path } => fs.allows(Request::RemoveDirAll { path }),
        InstrView::Rename { from, to } => fs.allows(Request::Rename { from, to }),
        InstrView::CopyTree { from, to } | InstrView::CopyNewTree { from, to } => copy_owed(
            from,
            to,
            fs,
        ),
        InstrView::Survey { .. } => true,
    }
}

/// Whether the tree at `from` is ready to be copied to `to`, at some depth.
pub open spec fn copy_owed(from: Seq<char>, to: Seq<char>, fs: FsState) -> bool {
    exists|depth: nat| #[trigger] tree_ready(fs, locate(from), locate(to), depth)
}

/// The filesystem after the instruction.
pub open spec fn instr_next(instr: InstrView, fs: FsState) -> FsState {
    match instr {
        InstrView::EnsureDir { path } => fs.apply(Request::CreateDirAll { path }),
        InstrView::Store { path, data, mode } => fs.apply(Request::Write { path, data, mode }),
        InstrView::Transfer { from, to, mode } => fs.apply(
            Request::Write { path: to, data: fs.bytes(locate(from)), mode },
        ),
        InstrView::RemoveFile { path } => fs.apply(Request::RemoveFile { path }),
        InstrView::RemoveTree { path } => fs.apply(Request::RemoveDirAll { path }),
        InstrView::Rename { from, to } => fs.apply(Request::Rename { from, to }),
        InstrView::CopyTree { from, to } | InstrView::CopyNewTree { from, to } => fs.grafted(
            locate(from),
            locate(to),
        ),
        InstrView::Survey { .. } => fs,
    }
}

/// The replies that the filesystem gives while the instruction is made.
pub open spec fn instr_replies(instr: InstrView, fs: FsState) -> Seq<Reply> {
    match instr {
        InstrView::Transfer { from, to, mode } => seq![
            Reply::Bytes(fs.bytes(locate(from))),
            Reply::Done,
        ],
        InstrView::Survey { path } => survey_replies(ancestors(path), 0, fs),
        InstrView::CopyTree { from, to } => choose|replies: Seq<Reply>| #[trigger]
            copies_on(from, to, fs, replies),
        InstrView::CopyNewTree { from, to } => seq![Reply::Found(false)] + (choose|
            replies: Seq<Reply>,
        | #[trigger] copies_on(from, to, fs, replies)),
        _ => seq![Reply::Done],
    }
}

/// Whether the copy of the tree at `from` into `to`, started at `fs`, ends
/// well on `replies`, with the copy in place.
pub open spec fn copies_on(from: Seq<char>, to: Seq<char>, fs: FsState, replies: Seq<Reply>) -> bool {
    match walk_trace(TreeCopyView::start(from, to).0, TreeCopyView::start(from, to).1, fs, replies) {
        Some((_, StepView::Finished(Ok(_)), last)) => last == fs.grafted(locate(from), locate(to)),
        _ => false,
    }
}

/// While a run is busy with a tree copy, it goes as the walk goes: where
/// the walk ends well on some replies, the run goes on with the next
/// instruction on the replies that follow.
proof fn lemma_run_as_walk(
    run: RunView,
    step: StepView,
    fs: FsState,
    replies: Seq<Reply>,
    tail: Seq<Reply>,
    last: TreeCopyView,
    fs_last: FsState,
)
    requires
        run.stage == RunStage::Walking,
        step is Ask,
        walk_trace(run.walk, step, fs, replies) == Some(
            (last, StepView::Finished(Ok(())), fs_last),
        ),
    ensures
        run_trace(run, step, fs, replies + tail) == run_trace(
            RunView { walk: last, ..run }.complete().0,
            RunView { walk: last, ..run }.complete().1,
            fs_last,
            tail,
        ),
    decreases replies.len(),
{
    assert(replies.len() > 0);
    let reply = replies[0];
    let rest = replies.drop_first();
    let all = replies + tail;
    assert(all[0] == reply);
    assert(all.drop_first() =~= rest + tail);
    let walked = run.walk.advance(reply);
    let fs1 = fs.after(step->Ask_0, reply);
    assert(run.advance(reply) == run.after_walk(walked));
    match walked.1 {
        StepView::Ask(_) => {
            lemma_run_as_walk(
                RunView { walk: walked.0, ..run },
                walked.1,
                fs1,
                rest,
                tail,
                last,
                fs_last,
            );
            assert(RunView { walk: last, ..RunView { walk: walked.0, ..run } } == RunView {
                walk: last,
                ..run
            });
        },
        StepView::Finished(Ok(unit)) => {
            assert(unit == ());
            if rest.len() > 0 {
                assert(walk_trace(walked.0, walked.1, fs1, rest) is None);
            }
            assert(rest + tail =~= tail);
        },
        StepView::Finished(Err(_)) => {
            if rest.len() > 0 {
                assert(walk_trace(walked.0, walked.1, fs1, rest) is None);
            }
        },
    }
}

/// The replies that the filesystem gives to a survey of `levels` from index
/// `from` on: that something exists, for every level up to the first at
/// which nothing does, and for that one that nothing does.
pub open spec fn survey_replies(levels: Seq<Seq<char>>, from: nat, fs: FsState) -> Seq<Reply>
    decreases levels.len() - from,
{
    if from >= levels.len() {
        Seq::empty()
    } else if !fs.present(locate(levels[from as int])) {
        seq![Reply::Found(false)]
    } else {
        seq![Reply::Found(true)] + survey_replies(levels, from + 1, fs)
    }
}

/// A survey comes to its end on the replies that the filesystem gives, and
/// has then found the first level at which nothing exists.
proof fn lemma_survey_succeeds(run: RunView, fs: FsState, tail: Seq<Reply>) -> (found: RunView)
    requires
        run.stage == RunStage::Surveying,
        run.level < run.levels.len(),
        run.missing == Seq::<char>::empty(),
    ensures
        found == (RunView {
            missing: first_missing(run.levels, run.level, fs),
            level: found.level,
            ..run
        }),
        run_trace(
            run,
            StepView::Ask(Request::Probe { path: run.levels[run.level as int] }),
            fs,
            survey_replies(run.levels, run.level, fs) + tail,
        ) == run_trace(found.complete().0, found.complete().1, fs, tail),
    decreases run.levels.len() - run.level,
{
    let step = StepView::Ask(Request::Probe { path: run.levels[run.level as int] });
    let mine = survey_replies(run.levels, run.level, fs);
    let replies = mine + tail;
    let there = fs.present(locate(run.levels[run.level as int]));
    let reply = Reply::Found(there);
    assert(replies[0] == reply);
    let advanced = run.advance(reply);
    assert(advanced == run.surveyed(there));
    assert(fs.after(step->Ask_0, reply) == fs);
    assert(run_trace(run, step, fs, replies) == run_trace(
        advanced.0,
        advanced.1,
        fs,
        replies.drop_first(),
    ));
    if !there {
        assert(replies.drop_first() =~= tail);
        RunView { missing: run.levels[run.level as int], ..run }
    } else if run.level + 1 < run.levels.len() {
        assert(replies.drop_first() =~= survey_replies(run.levels, run.level + 1, fs) + tail);
        let found = lemma_survey_succeeds(advanced.0, fs, tail);
        RunView { level: found.level, missing: found.missing, ..run }
    } else {
        assert(survey_replies(run.levels, run.level + 1, fs) =~= Seq::<Reply>::empty());
        assert(replies.drop_first() =~= tail);
        assert(first_missing(run.levels, run.level + 1, fs) == Seq::<char>::empty());
        RunView { level: run.level + 1, ..run }
    }
}

/// Whether the filesystem allows every instruction of `plan` from `done`
/// on, each at its turn.
pub open spec fn plan_can(plan: Seq<InstrView>, done: nat, fs: FsState) -> bool
    decreases plan.len() - done,
{
    done < plan.len() ==> instr_can(plan[done as int], fs) && plan_can(
        plan,
        done + 1,
        instr_next(plan[done as int], fs),
    )
}

/// The filesystem after every instruction of `plan` from `done` on.
pub open spec fn plan_end(plan: Seq<InstrView>, done: nat, fs: FsState) -> FsState
    decreases plan.len() - done,
{
    if done < plan.len() {
        plan_end(plan, done + 1, instr_next(plan[done as int], fs))
    } else {
        fs
    }
}

/// The replies that the filesystem gives while the instructions of `plan`
/// from `done` on are made.
pub open spec fn plan_replies(plan: Seq<InstrView>, done: nat, fs: FsState) -> Seq<Reply>
    decreases plan.len() - done,
{
    if done < plan.len() {
        instr_replies(plan[done as int], fs) + plan_replies(
            plan,
            done + 1,
            instr_next(plan[done as int], fs),
        )
    } else {
        Seq::empty()
    }
}

/// A run of a plan that the filesystem allows ends well on the replies that
/// the filesystem gives, with every instruction done.
pub proof fn lemma_run_succeeds(base: RunView, fs: FsState) -> (last: RunView)
    requires
        plan_can(base.plan, base.done, fs),
    ensures
        run_trace(
            base.proceed().0,
            base.proceed().1,
            fs,
            plan_replies(base.plan, base.done, fs),
        ) == Some((last, StepView::Finished(Ok(())), plan_end(base.plan, base.done, fs))),
        last.plan == base.plan,
        last.stage == RunStage::Finished,
        last.done == if base.done < base.plan.len() {
            base.plan.len()
        } else {
            base.done
        },
    decreases base.plan.len() - base.done,
{
    let started = base.proceed();
    if base.done < base.plan.len() {
        let instr = base.plan[base.done as int];
        let next = instr_next(instr, fs);
        let tail = plan_replies(base.plan, base.done + 1, next);
        let replies = plan_replies(base.plan, base.done, fs);
        match instr {
            InstrView::Transfer { from, to, mode } => {
                let first = Reply::Bytes(fs.bytes(locate(from)));
                let loaded = started.0.advance(first);
                let stored = loaded.0.advance(Reply::Done);
                let base2 = RunView { done: base.done + 1, ..loaded.0 };
                assert(stored == base2.proceed());
                let last = lemma_run_succeeds(base2, next);
                assert(replies[0] == first);
                assert(replies.drop_first()[0] == Reply::Done);
                assert(replies.drop_first().drop_first() =~= tail);
                assert(run_trace(started.0, started.1, fs, replies) == run_trace(
                    loaded.0,
                    loaded.1,
                    fs,
                    replies.drop_first(),
                ));
                assert(run_trace(loaded.0, loaded.1, fs, replies.drop_first()) == run_trace(
                    stored.0,
                    stored.1,
                    next,
                    tail,
                ));
                last
            },
            InstrView::CopyTree { from, to } => {
                let depth = choose|depth: nat| #[trigger]
                    tree_ready(fs, locate(from), locate(to), depth);
                let witness = law_walk_succeeds(from, to, fs, depth);
                assert(copies_on(from, to, fs, witness.0));
                let mine = instr_replies(instr, fs);
                assert(copies_on(from, to, fs, mine));
                let walked = walk_trace(started.0.walk, started.1, fs, mine);
                let last_walk = walked->Some_0.0;
                assert(seq![(from, to)].len() == 1);
                match walked {
                    Some((w, StepView::Finished(Ok(unit)), f)) => {
                        assert(unit == ());
                    },
                    _ => {},
                }
                lemma_run_as_walk(started.0, started.1, fs, mine, tail, last_walk, next);
                let base2 = RunView { done: base.done + 1, walk: last_walk, ..started.0 };
                assert(RunView { walk: last_walk, ..started.0 }.complete() == base2.proceed());
                lemma_run_succeeds(base2, next)
            },
            InstrView::CopyNewTree { from, to } => {
                let depth = choose|depth: nat| #[trigger]
                    tree_ready(fs, locate(from), locate(to), depth);
                let witness = law_walk_succeeds(from, to, fs, depth);
                assert(copies_on(from, to, fs, witness.0));
                let mine = choose|replies: Seq<Reply>| #[trigger] copies_on(from, to, fs, replies);
                let probe = Reply::Found(false);
                let vetted = started.0.advance(probe);
                assert(vetted == started.0.vetted(false));
                let walked = walk_trace(vetted.0.walk, vetted.1, fs, mine);
                let last_walk = walked->Some_0.0;
                assert(seq![(from, to)].len() == 1);
                match walked {
                    Some((w, StepView::Finished(Ok(unit)), f)) => {
                        assert(unit == ());
                    },
                    _ => {},
                }
                lemma_run_as_walk(vetted.0, vetted.1, fs, mine, tail, last_walk, next);
                let base2 = RunView { done: base.done + 1, walk: last_walk, ..vetted.0 };
                assert(RunView { walk: last_walk, ..vetted.0 }.complete() == base2.proceed());
                let last = lemma_run_succeeds(base2, next);
                assert(replies[0] == probe);
                assert(replies.drop_first() =~= mine + tail);
                assert(run_trace(started.0, started.1, fs, replies) == run_trace(
                    vetted.0,
                    vetted.1,
                    fs,
                    replies.drop_first(),
                ));
                last
            },
            InstrView::Survey { path } => {
                assert(ancestors(path).len() > 0);
                let found = lemma_survey_succeeds(started.0, fs, tail);
                let base2 = RunView { done: base.done + 1, ..found };
                assert(found.complete() == base2.proceed());
                lemma_run_succeeds(base2, next)
            },
            _ => {
                let acked = started.0.advance(Reply::Done);
                let base2 = RunView { done: base.done + 1, ..started.0 };
                assert(acked == base2.proceed());
                let last = lemma_run_succeeds(base2, next);
                assert(replies[0] == Reply::Done);
                assert(replies.drop_first() =~= tail);
                assert(run_trace(started.0, started.1, fs, replies) == run_trace(
                    acked.0,
                    acked.1,
                    next,
                    tail,
                ));
                last
            },
        }
    } else {
        RunView { stage: RunStage::Finished, ..base }
    }
}

/// An execution goes as the run of its plan goes.
proof fn lemma_execute_as_run(
    op: OperationView,
    step: StepView,
    fs: FsState,
    replies: Seq<Reply>,
    run_last: RunView,
    step_last: StepView,
    fs_last: FsState,
) -> (op_last: OperationView)
    requires
        op.activity == Activity::Executing,
        run_trace(op.run, step, fs, replies) == Some((run_last, step_last, fs_last)),
    ensures
        execute_trace(op, step, fs, replies) == Some((op_last, step_last, fs_last)),
        op_last.run == run_last,
    decreases replies.len(),
{
    if replies.len() == 0 {
        op
    } else {
        let advanced = op.execute_next(replies[0]);
        lemma_execute_as_run(
            advanced.0,
            advanced.1,
            fs.after(step->Ask_0, replies[0]),
            replies.drop_first(),
            run_last,
            step_last,
            fs_last,
        )
    }
}

/// The taking of a backup by itself goes as the run of its plan goes.
proof fn lemma_backup_as_run(
    op: OperationView,
    step: StepView,
    fs: FsState,
    replies: Seq<Reply>,
    run_last: RunView,
    step_last: StepView,
    fs_last: FsState,
) -> (op_last: OperationView)
    requires
        op.activity == Activity::BackingUp,
        run_trace(op.run, step, fs, replies) == Some((run_last, step_last, fs_last)),
    ensures
        backup_trace(op, step, fs, replies) == Some((op_last, step_last, fs_last)),
        op_last.run == run_last,
    decreases replies.len(),
{
    if replies.len() == 0 {
        op
    } else {
        let advanced = op.backup_next(replies[0]);
        lemma_backup_as_run(
            advanced.0,
            advanced.1,
            fs.after(step->Ask_0, replies[0]),
            replies.drop_first(),
            run_last,
            step_last,
            fs_last,
        )
    }
}

/// A backup whose two instructions the filesystem allows can be taken to a
/// good end by itself, and then leaves the filesystem as the instructions
/// make it.
pub proof fn law_backup_succeeds(op: OperationView, name: Seq<char>, fs: FsState) -> (op_done:
    OperationView)
    requires
        op.activity == Activity::Idle,
        op.takes_backup(),
        plan_can(op.named(name).backup_plan(), 0, fs),
    ensures
        backs_up(op, name, fs, op_done, plan_end(op.named(name).backup_plan(), 0, fs)),
{
    let started = op.backup_start(name);
    let plan = op.named(name).backup_plan();
    let base = RunView { plan, ..RunView::idle() };
    let run_last = lemma_run_succeeds(base, fs);
    let replies = plan_replies(plan, 0, fs);
    assert(plan.len() > 0);
    let op_done = lemma_backup_as_run(
        started.0,
        started.1,
        fs,
        replies,
        run_last,
        StepView::Finished(Ok(())),
        plan_end(plan, 0, fs),
    );
    op_done
}

/// The backup of a file can be taken for certain where the file exists, no
/// file stands where the backup directory or a directory leading to it is
/// to be, and nothing exists by the name of the backup. The backup
/// directory and the directories that lead to it need not exist: they are
/// made.
pub proof fn law_file_backup_succeeds(op: OperationView, name: Seq<char>, fs: FsState) -> (op_done:
    OperationView)
    requires
        saves_file(op.kind),
        op.activity == Activity::Idle,
        is_entry_name(name),
        fs.wf(),
        fs.is_file(locate(op.source)),
        forall|k: Key| #[trigger] within(k, locate(op.temp_dir)) ==> !fs.is_file(k),
        !fs.nodes.contains_key(backup_key(op, name)),
    ensures
        backs_up(
            op,
            name,
            fs,
            op_done,
            fs.with_dirs(locate(op.temp_dir)).with_file(
                backup_key(op, name),
                fs.bytes(locate(op.source)),
            ),
        ),
{
    let source = locate(op.source);
    let temp = locate(op.temp_dir);
    let backup = backup_key(op, name);
    let plan = op.named(name).backup_plan();
    lemma_locate_joined(op.temp_dir, name);
    lemma_with_dirs(fs, temp);
    lemma_within_self(temp, name);
    assert(backup.drop_last() =~= temp);
    let a = instr_next(plan[0], fs);
    let b = instr_next(plan[1], a);
    assert(a == fs.with_dirs(temp));
    assert(!a.nodes.contains_key(backup));
    assert(a.is_file(source));
    assert(instr_can(plan[0], fs));
    assert(instr_can(plan[1], a));
    assert(plan_can(plan, 2, b));
    assert(plan_can(plan, 1, a));
    assert(plan_can(plan, 0, fs));
    assert(plan_end(plan, 2, b) == b);
    assert(plan_end(plan, 1, a) == b);
    assert(plan_end(plan, 0, fs) == b);
    assert(a.bytes(source) == fs.bytes(source));
    law_backup_succeeds(op, name, fs)
}

/// A rollback goes as the run of its plan goes.
proof fn lemma_rollback_as_run(
    op: OperationView,
    step: StepView,
    fs: FsState,
    replies: Seq<Reply>,
    run_last: RunView,
    step_last: StepView,
    fs_last: FsState,
) -> (op_last: OperationView)
    requires
        op.activity == Activity::RollingBack,
        run_trace(op.run, step, fs, replies) == Some((run_last, step_last, fs_last)),
    ensures
        rollback_trace(op, step, fs, replies) == Some((op_last, step_last, fs_last)),
        op_last.run == run_last,
    decreases replies.len(),
{
    if replies.len() == 0 {
        op
    } else {
        let advanced = op.rollback_next(replies[0]);
        lemma_rollback_as_run(
            advanced.0,
            advanced.1,
            fs.after(step->Ask_0, replies[0]),
            replies.drop_first(),
            run_last,
            step_last,
            fs_last,
        )
    }
}

/// An execution whose every instruction the filesystem allows can end
/// well, and then leaves the filesystem as the instructions make it.
pub proof fn law_execute_succeeds(op: OperationView, name: Seq<char>, fs: FsState) -> (op_done:
    OperationView)
    requires
        op.activity == Activity::Idle,
        plan_can(op.named(name).execute_plan(), 0, fs),
    ensures
        executes(op, name, fs, op_done, plan_end(op.named(name).execute_plan(), 0, fs)),
{
    let started = op.execute_start(name);
    let plan = op.named(name).execute_plan();
    let base = RunView { plan, ..RunView::idle() };
    let run_last = lemma_run_succeeds(base, fs);
    let replies = plan_replies(plan, 0, fs);
    assert(plan.len() > 0);
    let op_done = lemma_execute_as_run(
        started.0,
        started.1,
        fs,
        replies,
        run_last,
        StepView::Finished(Ok(())),
        plan_end(plan, 0, fs),
    );
    op_done
}

/// A rollback whose every instruction the filesystem allows can end well,
/// and then leaves the filesystem as the instructions make it.
pub proof fn law_rollback_succeeds(op: OperationView, fs: FsState) -> (op_undone: OperationView)
    requires
        plan_can(op.rollback_plan(), 0, fs),
    ensures
        rolls_back(op, fs, op_undone, plan_end(op.rollback_plan(), 0, fs)),
{
    let started = op.rollback_start();
    let plan = op.rollback_plan();
    let base = RunView { plan, ..RunView::idle() };
    let run_last = lemma_run_succeeds(base, fs);
    let replies = plan_replies(plan, 0, fs);
    assert(plan.len() > 0);
    let op_undone = lemma_rollback_as_run(
        started.0,
        started.1,
        fs,
        replies,
        run_last,
        StepView::Finished(Ok(())),
        plan_end(plan, 0, fs),
    );
    op_undone
}

/// Where a write, an append or a removal of a file can be executed and
/// rolled back: everything lies in a directory that exists, the file
/// exists, no file stands where the backup directory or a directory leading
/// to it is to be, and the name of the backup is fresh.
pub open spec fn file_round_trip_owed(op: OperationView, name: Seq<char>, fs: FsState) -> bool {
    &&& saves_file(op.kind)
    &&& op.activity == Activity::Idle
    &&& is_entry_name(name)
    &&& fs.wf()
    &&& fs.is_file(locate(op.source))
    &&& forall|k: Key| #[trigger] within(k, locate(op.temp_dir)) ==> !fs.is_file(k)
    &&& !fs.nodes.contains_key(backup_key(op, name))
}

/// On a filesystem that allows it, a write, an append or a removal of a
/// file can be executed to a good end, and can then be rolled back to a
/// good end.
pub proof fn law_file_round_trip_succeeds(op: OperationView, name: Seq<char>, fs: FsState) -> (r: (
    OperationView,
    FsState,
    OperationView,
    FsState,
))
    requires
        file_round_trip_owed(op, name, fs),
    ensures
        executes(op, name, fs, r.0, r.1),
        rolls_back(r.0, r.1, r.2, r.3),
{
    let source = locate(op.source);
    let temp = locate(op.temp_dir);
    let backup = backup_key(op, name);
    let started = op.named(name);
    let plan = started.execute_plan();
    lemma_locate_joined(op.temp_dir, name);
    lemma_with_dirs(fs, temp);
    lemma_within_self(temp, name);
    assert(backup.drop_last() =~= temp);
    let a = instr_next(plan[0], fs);
    let b = instr_next(plan[1], a);
    let c = instr_next(plan[2], b);
    assert(a == fs.with_dirs(temp));
    assert(!a.nodes.contains_key(backup));
    assert(a.is_file(source));
    assert(instr_can(plan[0], fs));
    assert(instr_can(plan[1], a));
    assert(fs.is_dir(source.drop_last()));
    assert(b.is_dir(source.drop_last())) by {
        if source.drop_last().len() > 0 {
            assert(a.nodes.contains_key(source.drop_last()));
        }
    }
    assert(instr_can(plan[2], b));
    assert(plan_can(plan, 3, c));
    assert(plan_can(plan, 2, b));
    assert(plan_can(plan, 1, a));
    assert(plan_can(plan, 0, fs));
    let op_done = law_execute_succeeds(op, name, fs);
    let fs_done = plan_end(plan, 0, fs);
    assert(plan_end(plan, 3, c) == c);
    assert(plan_end(plan, 2, b) == c);
    assert(plan_end(plan, 1, a) == c);
    assert(fs_done == c);
    lemma_executed_made_plan(op, name, fs, op_done, fs_done);
    assert(op_done.backup_path == joined(op.temp_dir, name));
    let undo = op_done.rollback_plan();
    assert(c.is_file(backup));
    assert(c.is_dir(source.drop_last())) by {
        if source.drop_last().len() > 0 {
            assert(b.nodes.contains_key(source.drop_last()));
        }
    }
    assert(instr_can(undo[0], c));
    let d = instr_next(undo[0], c);
    assert(plan_can(undo, 1, d));
    assert(plan_can(undo, 0, c));
    let op_undone = law_rollback_succeeds(op_done, c);
    (op_done, fs_done, op_undone, plan_end(undo, 0, c))
}

/// Whether the filesystem allows every instruction of every operation of
/// `ops` from index `from` on, each at its turn, and none of these
/// operations was started before. The operation at index `i` gets `names[i]`
/// as the name of its backup.
pub open spec fn ops_can(
    ops: Seq<OperationView>,
    names: Seq<Seq<char>>,
    from: nat,
    fs: FsState,
) -> bool
    decreases ops.len() - from,
{
    from < ops.len() ==> {
        let plan = ops[from as int].named(names[from as int]).execute_plan();
        &&& ops[from as int].activity == Activity::Idle
        &&& plan_can(plan, 0, fs)
        &&& ops_can(ops, names, from + 1, plan_end(plan, 0, fs))
    }
}

/// The filesystem after every operation of `ops` from index `from` on.
pub open spec fn ops_end(
    ops: Seq<OperationView>,
    names: Seq<Seq<char>>,
    from: nat,
    fs: FsState,
) -> FsState
    decreases ops.len() - from,
{
    if from < ops.len() {
        let plan = ops[from as int].named(names[from as int]).execute_plan();
        ops_end(ops, names, from + 1, plan_end(plan, 0, fs))
    } else {
        fs
    }
}

/// What the filesystem allows of the operations from an index on, and what
/// they leave, does not depend on the operations before that index.
proof fn lemma_ops_from(
    ops: Seq<OperationView>,
    other: Seq<OperationView>,
    names: Seq<Seq<char>>,
    from: nat,
    fs: FsState,
)
    requires
        ops.len() == other.len(),
        forall|k: int| from <= k < ops.len() ==> ops[k] == other[k],
    ensures
        ops_can(ops, names, from, fs) == ops_can(other, names, from, fs),
        ops_end(ops, names, from, fs) == ops_end(other, names, from, fs),
    decreases ops.len() - from,
{
    if from < ops.len() {
        let plan = ops[from as int].named(names[from as int]).execute_plan();
        lemma_ops_from(ops, other, names, from + 1, plan_end(plan, 0, fs));
    }
}

/// While a transaction is busy with an operation, it goes as the operation
/// goes: where the execution of the operation ends well on some replies,
/// the transaction goes on with the next operation on the replies that
/// follow.
proof fn lemma_tx_as_execution(
    tx: TransactionView,
    step: StepView,
    names: Seq<Seq<char>>,
    fs: FsState,
    replies: Seq<Reply>,
    tail: Seq<Reply>,
    op_done: OperationView,
    fs_done: FsState,
)
    requires
        tx.phase == Phase::Executing,
        0 < tx.execution_count <= tx.ops.len(),
        step is Ask,
        execute_trace(tx.ops[tx.execution_count - 1], step, fs, replies) == Some(
            (op_done, StepView::Finished(Ok(())), fs_done),
        ),
    ensures
        ({
            let moved = TransactionView {
                ops: tx.ops.update(tx.execution_count - 1, op_done),
                ..tx
            };
            let next = moved.execute_proceed(names[tx.execution_count as int]);
            tx_execute_trace(tx, step, names, fs, replies + tail) == tx_execute_trace(
                next.0,
                next.1,
                names,
                fs_done,
                tail,
            )
        }),
    decreases replies.len(),
{
    let i = tx.execution_count - 1;
    let op = tx.ops[i];
    assert(replies.len() > 0);
    let reply = replies[0];
    let rest = replies.drop_first();
    let all = replies + tail;
    assert(all[0] == reply);
    assert(all.drop_first() =~= rest + tail);
    let advanced = op.execute_next(reply);
    let fs1 = fs.after(step->Ask_0, reply);
    let moved = TransactionView { ops: tx.ops.update(i, advanced.0), ..tx };
    let name = names[tx.execution_count as int];
    assert(tx_execute_trace(tx, step, names, fs, all) == tx_execute_trace(
        tx.execute_next(reply, name).0,
        tx.execute_next(reply, name).1,
        names,
        fs1,
        rest + tail,
    ));
    match advanced.1 {
        StepView::Ask(_) => {
            assert(tx.execute_next(reply, name) == (moved, advanced.1));
            lemma_tx_as_execution(moved, advanced.1, names, fs1, rest, tail, op_done, fs_done);
            assert(moved.ops.update(i, op_done) =~= tx.ops.update(i, op_done));
        },
        StepView::Finished(Ok(unit)) => {
            assert(unit == ());
            if rest.len() > 0 {
                assert(execute_trace(advanced.0, advanced.1, fs1, rest) is None);
            }
            assert(rest + tail =~= tail);
        },
        StepView::Finished(Err(_)) => {
            if rest.len() > 0 {
                assert(execute_trace(advanced.0, advanced.1, fs1, rest) is None);
            }
        },
    }
}

/// From the start of an operation on, a transaction whose every operation
/// the filesystem allows ends well.
proof fn lemma_tx_succeeds(tx: TransactionView, names: Seq<Seq<char>>, fs: FsState) -> (r: (
    Seq<Reply>,
    TransactionView,
))
    requires
        tx.phase == Phase::Executing,
        tx.execution_count <= tx.ops.len(),
        ops_can(tx.ops, names, tx.execution_count, fs),
    ensures
        tx_execute_trace(
            tx.execute_proceed(names[tx.execution_count as int]).0,
            tx.execute_proceed(names[tx.execution_count as int]).1,
            names,
            fs,
            r.0,
        ) == Some(
            (r.1, StepView::Finished(Ok(())), ops_end(tx.ops, names, tx.execution_count, fs)),
        ),
        r.1.execution_count == tx.ops.len(),
    decreases tx.ops.len() - tx.execution_count,
{
    let i = tx.execution_count as int;
    let started = tx.execute_proceed(names[i]);
    if tx.execution_count < tx.ops.len() {
        let op = tx.ops[i];
        let plan = op.named(names[i]).execute_plan();
        let fs_done = plan_end(plan, 0, fs);
        let op_done = law_execute_succeeds(op, names[i], fs);
        let replies = choose|replies: Seq<Reply>| #[trigger]
            execute_trace(op.execute_start(names[i]).0, op.execute_start(names[i]).1, fs, replies)
                == Some((op_done, StepView::Finished(Ok(())), fs_done));
        lemma_execute_start_asks(op, names[i]);
        let moved = TransactionView { ops: started.0.ops.update(i, op_done), ..started.0 };
        lemma_ops_from(tx.ops, moved.ops, names, (i + 1) as nat, fs_done);
        let rest = lemma_tx_succeeds(moved, names, fs_done);
        lemma_tx_as_execution(started.0, started.1, names, fs, replies, rest.0, op_done, fs_done);
        (replies + rest.0, rest.1)
    } else {
        (Seq::empty(), started.0)
    }
}

/// A transaction whose every operation the filesystem allows, each on the
/// filesystem that the one before leaves, ends well when no reply is a
/// failure: there are replies that the filesystem can give, one after the
/// other, on which the execution of the whole transaction ends well, with
/// every operation reached.
pub proof fn law_transaction_succeeds(
    built: TransactionView,
    names: Seq<Seq<char>>,
    fs: FsState,
) -> (r: (Seq<Reply>, TransactionView))
    requires
        built.phase == Phase::Building,
        built.execution_count == 0,
        ops_can(built.ops, names, 0, fs),
    ensures
        tx_execute_trace(
            built.execute_start(names[0]).0,
            built.execute_start(names[0]).1,
            names,
            fs,
            r.0,
        ) == Some((r.1, StepView::Finished(Ok(())), ops_end(built.ops, names, 0, fs))),
        r.1.execution_count == built.ops.len(),
{
    lemma_tx_succeeds(TransactionView { phase: Phase::Executing, ..built }, names, fs)
}

/// The backup of a directory can be taken for certain where the directory
/// exists with a finite and well named tree, the backup directory does not
/// lie in it, no file stands where the backup directory or a directory
/// leading to it is to be, and nothing exists by the name of the backup. The
/// backup directory and the directories that lead to it need not exist:
/// they are made.
pub proof fn law_tree_backup_succeeds(
    op: OperationView,
    name: Seq<char>,
    fs: FsState,
    depth: nat,
) -> (op_done: OperationView)
    requires
        op.kind == OpKind::CopyDirectory || op.kind == OpKind::DeleteDirectory,
        op.activity == Activity::Idle,
        is_entry_name(name),
        tree_backup_ready(op, name, fs),
        !fs.nodes.contains_key(backup_key(op, name)),
        forall|k: Key| #[trigger] within(k, locate(op.temp_dir)) ==> !fs.is_file(k),
        tree_finite(fs, locate(op.source), depth),
    ensures
        backs_up(
            op,
            name,
            fs,
            op_done,
            fs.with_dirs(locate(op.temp_dir)).grafted(locate(op.source), backup_key(op, name)),
        ),
{
    let source = locate(op.source);
    let temp = locate(op.temp_dir);
    let backup = backup_key(op, name);
    let plan = op.named(name).backup_plan();
    lemma_locate_joined(op.temp_dir, name);
    lemma_with_dirs(fs, temp);
    lemma_within_self(temp, name);
    assert(backup.drop_last() =~= temp);
    let a = instr_next(plan[0], fs);
    assert(a == fs.with_dirs(temp));
    assert(instr_can(plan[0], fs));
    assert(!a.nodes.contains_key(backup));
    assert(!within(source, backup)) by {
        if within(source, backup) {
            lemma_leads_to_parent(source, temp, name);
        }
    }
    assert(!within(backup, source)) by {
        if within(backup, source) {
            lemma_ancestors_are_dirs(a, backup, source);
        }
    }
    assert(a.can_graft(source, backup));
    assert forall|k: Key| #[trigger] within(k, backup) implies !a.is_file(k) by {
        if k != backup {
            lemma_leads_to_parent(k, temp, name);
        }
    }
    assert forall|k: Key|
        #![trigger a.nodes.contains_key(k)]
        within(source, k) implies a.nodes.contains_key(k) == fs.nodes.contains_key(k) && (
        fs.nodes.contains_key(k) ==> a.nodes[k] == fs.nodes[k]) by {
        if within(k, temp) {
            lemma_within_trans(source, k, temp);
        }
    }
    lemma_tree_finite_same(fs, a, source, depth);
    assert(plan[1] == InstrView::CopyNewTree { from: op.source, to: joined(op.temp_dir, name) });
    assert(locate(joined(op.temp_dir, name)) == backup);
    assert(tree_ready(a, locate(op.source), locate(joined(op.temp_dir, name)), depth));
    assert(copy_owed(op.source, joined(op.temp_dir, name), a));
    assert(instr_can(plan[1], a));
    let b = instr_next(plan[1], a);
    assert(plan_can(plan, 2, b));
    assert(plan_can(plan, 1, a));
    assert(plan_can(plan, 0, fs));
    assert(plan_end(plan, 2, b) == b);
    assert(plan_end(plan, 1, a) == b);
    assert(plan_end(plan, 0, fs) == b);
    law_backup_succeeds(op, name, fs)
}

/// Where a removal of a directory can be executed and rolled back: the
/// operation was not started before, the backup of the tree can be taken,
/// nothing exists by the name of the backup, no file stands where the backup
/// directory or a directory leading to it is to be, and the tree is finite
/// and well named.
pub open spec fn dir_round_trip_owed(
    op: OperationView,
    name: Seq<char>,
    fs: FsState,
    depth: nat,
) -> bool {
    &&& op.kind == OpKind::DeleteDirectory
    &&& op.activity == Activity::Idle
    &&& is_entry_name(name)
    &&& tree_backup_ready(op, name, fs)
    &&& !fs.nodes.contains_key(backup_key(op, name))
    &&& forall|k: Key| #[trigger] within(k, locate(op.temp_dir)) ==> !fs.is_file(k)
    &&& tree_finite(fs, locate(op.source), depth)
}

/// On a filesystem that allows it, a removal of a directory with a finite
/// tree can be executed to a good end, and can then be rolled back to a
/// good end.
pub proof fn law_delete_dir_round_trip_succeeds(
    op: OperationView,
    name: Seq<char>,
    fs: FsState,
    depth: nat,
) -> (r: (OperationView, FsState, OperationView, FsState))
    requires
        dir_round_trip_owed(op, name, fs, depth),
    ensures
        executes(op, name, fs, r.0, r.1),
        rolls_back(r.0, r.1, r.2, r.3),
{
    let source = locate(op.source);
    let temp = locate(op.temp_dir);
    let backup = backup_key(op, name);
    let started = op.named(name);
    let plan = started.execute_plan();
    lemma_locate_joined(op.temp_dir, name);
    lemma_with_dirs(fs, temp);
    lemma_within_self(temp, name);
    assert(backup.drop_last() =~= temp);
    let a = instr_next(plan[0], fs);
    assert(a == fs.with_dirs(temp));
    assert(instr_can(plan[0], fs));
    assert(!a.nodes.contains_key(backup));
    assert(!within(source, backup)) by {
        if within(source, backup) {
            lemma_leads_to_parent(source, temp, name);
        }
    }
    assert(!within(backup, source)) by {
        if within(backup, source) {
            lemma_ancestors_are_dirs(a, backup, source);
        }
    }
    assert(a.can_graft(source, backup));
    assert forall|k: Key| #[trigger] within(k, backup) implies !a.is_file(k) by {
        if k != backup {
            lemma_leads_to_parent(k, temp, name);
        }
    }
    assert forall|k: Key|
        #![trigger a.nodes.contains_key(k)]
        within(source, k) implies a.nodes.contains_key(k) == fs.nodes.contains_key(k) && (
        fs.nodes.contains_key(k) ==> a.nodes[k] == fs.nodes[k]) by {
        if within(k, temp) {
            lemma_within_trans(source, k, temp);
        }
    }
    lemma_tree_finite_same(fs, a, source, depth);
    assert(plan[1] == InstrView::CopyNewTree { from: op.source, to: joined(op.temp_dir, name) });
    assert(locate(joined(op.temp_dir, name)) == backup);
    assert(tree_ready(a, locate(op.source), locate(joined(op.temp_dir, name)), depth));
    assert(copy_owed(op.source, joined(op.temp_dir, name), a));
    assert(instr_can(plan[1], a));
    let b = instr_next(plan[1], a);
    assert(b == a.grafted(source, backup));
    lemma_grafted(a, source, backup, source);
    assert(source.len() > 0);
    assert(instr_can(plan[2], b));
    let c = instr_next(plan[2], b);
    assert(plan_can(plan, 3, c));
    assert(plan_can(plan, 2, b));
    assert(plan_can(plan, 1, a));
    assert(plan_can(plan, 0, fs));
    let op_done = law_execute_succeeds(op, name, fs);
    let fs_done = plan_end(plan, 0, fs);
    assert(plan_end(plan, 3, c) == c);
    assert(plan_end(plan, 2, b) == c);
    assert(plan_end(plan, 1, a) == c);
    assert(fs_done == c);
    lemma_executed_made_plan(op, name, fs, op_done, fs_done);
    assert(op_done.backup_path == joined(op.temp_dir, name));

    let undo = op_done.rollback_plan();
    lemma_graft_then_remove(a, source, backup);
    assert(within(backup, backup)) by {
        lemma_within_self(backup, Seq::empty());
    }
    assert(c.nodes.contains_key(backup));
    let above = source.drop_last();
    assert(fs.is_dir(above));
    assert(!within(source, above));
    if above.len() > 0 {
        lemma_grafted(a, source, backup, above);
        assert(a.nodes.contains_key(above));
    }
    assert(c.is_dir(above));
    assert(instr_can(undo[0], c));
    let d = instr_next(undo[0], c);
    assert(plan_can(undo, 1, d));
    assert(plan_can(undo, 0, c));
    let op_undone = law_rollback_succeeds(op_done, c);
    (op_done, fs_done, op_undone, plan_end(undo, 0, c))
}

} // verus!
