//! How far a transaction gets, and in which order it undoes what it did.
//!
//! The statements here hold whatever the replies are: they speak of the
//! transaction alone, not of any filesystem.

use vstd::prelude::*;
use crate::operation::{
    lemma_execute_start_asks, lemma_rollback_start_asks, Activity, OperationView,
};
use crate::plan::{lemma_proceed_and_stage, lemma_step_and_stage, RunStage, RunView};
use crate::protocol::{Reply, StepView};
use crate::transaction::{Phase, TransactionView};

verus! {

/// Whether the execution of the operation ended well.
pub open spec fn executed(op: OperationView) -> bool {
    op.activity == Activity::Executing && op.run.stage == RunStage::Finished
}

/// Whether the execution of the operation ended with an error.
pub open spec fn execution_failed(op: OperationView) -> bool {
    op.activity == Activity::Executing && op.run.stage == RunStage::Failed
}

/// Whether the execution of the operation is under way.
pub open spec fn executing(op: OperationView) -> bool {
    op.activity == Activity::Executing && !op.run.is_over()
}

/// Whether the operation did not start, because it was started before: it
/// is as it was.
pub open spec fn refused(before: OperationView, after: OperationView) -> bool {
    before.activity != Activity::Idle && after == before
}

/// Whether the rollback of the operation ended well.
pub open spec fn rolled_back(op: OperationView) -> bool {
    op.activity == Activity::RollingBack && op.run.stage == RunStage::Finished
}

/// Whether the rollback of the operation ended with an error.
pub open spec fn rollback_failed(op: OperationView) -> bool {
    op.activity == Activity::RollingBack && op.run.stage == RunStage::Failed
}

/// Whether the rollback of the operation is under way.
pub open spec fn rolling_back(op: OperationView) -> bool {
    op.activity == Activity::RollingBack && !op.run.is_over()
}

/// Neither adding an operation nor any call of `execute` or `rollback` lets
/// the count of operations reached pass the number of operations, or the
/// number of operations still to undo pass that count.
pub proof fn law_bounds_kept(
    tx: TransactionView,
    op: OperationView,
    reply: Option<Reply>,
    name: Seq<char>,
)
    requires
        tx.wf(),
    ensures
        TransactionView::empty().wf(),
        tx.with(op).wf(),
        tx.execute_step(reply, name).0.wf(),
        tx.rollback_step(reply).0.wf(),
        tx.execute_step(reply, name).0.ops.len() == tx.ops.len(),
        tx.rollback_step(reply).0.ops.len() == tx.ops.len(),
        tx.execute_step(reply, name).0.execution_count >= tx.execution_count,
        tx.rollback_step(reply).0.execution_count == tx.execution_count,
{
}

/// The transaction and its step after `replies` were handed to `execute`
/// one by one, for as long as it asked. The operation at index `i` gets
/// `names[i]` as the name of its backup.
pub open spec fn execute_run(
    tx: TransactionView,
    step: StepView,
    names: Seq<Seq<char>>,
    replies: Seq<Reply>,
) -> (TransactionView, StepView)
    decreases replies.len(),
{
    if replies.len() == 0 || step is Finished {
        (tx, step)
    } else {
        let advanced = tx.execute_next(replies[0], names[tx.execution_count as int]);
        execute_run(advanced.0, advanced.1, names, replies.drop_first())
    }
}

/// The transaction and its step after `replies` were handed to `rollback`
/// one by one, for as long as it asked.
pub open spec fn rollback_run(tx: TransactionView, step: StepView, replies: Seq<Reply>) -> (
    TransactionView,
    StepView,
)
    decreases replies.len(),
{
    if replies.len() == 0 || step is Finished {
        (tx, step)
    } else {
        let advanced = tx.rollback_next(replies[0]);
        rollback_run(advanced.0, advanced.1, replies.drop_first())
    }
}

/// Where an execution stands, told from the transaction `built` that it
/// began with.
///
/// Every operation before the one reached last was executed and ended well,
/// and every operation that was not reached is as it was built. While the
/// transaction asks, the operation reached last is under way. When it has
/// ended with an error, that operation is the one that failed, or the one
/// that did not start because it was started before it was added, so that
/// the count of operations reached is its position, counted from one. When
/// it has ended well, every operation was reached.
pub open spec fn execution_state(built: TransactionView, tx: TransactionView, step: StepView) -> bool {
    let count = tx.execution_count;
    &&& tx.ops.len() == built.ops.len()
    &&& count <= tx.ops.len()
    &&& tx.remaining == built.remaining
    &&& forall|i: int| 0 <= i < count - 1 ==> executed(#[trigger] tx.ops[i])
    &&& forall|i: int| count <= i < tx.ops.len() ==> #[trigger] tx.ops[i] == built.ops[i]
    &&& match step {
        StepView::Ask(_) => {
            &&& tx.phase == Phase::Executing
            &&& count > 0
            &&& executing(tx.ops[count - 1])
        },
        StepView::Finished(Err(_)) => {
            &&& tx.phase == Phase::Terminal
            &&& count > 0
            &&& execution_failed(tx.ops[count - 1]) || refused(
                built.ops[count - 1],
                tx.ops[count - 1],
            )
        },
        StepView::Finished(Ok(_)) => {
            &&& tx.phase == Phase::Terminal
            &&& count == tx.ops.len()
            &&& count > 0 ==> executed(tx.ops[count - 1])
        },
    }
}

/// Starting the next operation, or ending where none is left, leads to a
/// state of the execution.
proof fn lemma_execute_proceed(built: TransactionView, tx: TransactionView, name: Seq<char>)
    requires
        tx.phase == Phase::Executing,
        tx.ops.len() == built.ops.len(),
        tx.execution_count <= tx.ops.len(),
        tx.remaining == built.remaining,
        forall|i: int| 0 <= i < tx.execution_count ==> executed(#[trigger] tx.ops[i]),
        forall|i: int| tx.execution_count <= i < tx.ops.len() ==> #[trigger] tx.ops[i] == built.ops[i],
    ensures
        execution_state(built, tx.execute_proceed(name).0, tx.execute_proceed(name).1),
{
    if tx.execution_count < tx.ops.len() {
        let i = tx.execution_count as int;
        let op = tx.ops[i];
        if op.activity == Activity::Idle {
            lemma_execute_start_asks(op, name);
            lemma_proceed_and_stage(
                RunView { plan: op.named(name).execute_plan(), ..RunView::idle() },
            );
        }
    }
}

/// Every call of `execute` with a reply leads from a state of the execution
/// in which the transaction asks to a state of the execution.
pub proof fn lemma_execute_next_keeps(
    built: TransactionView,
    tx: TransactionView,
    step: StepView,
    reply: Reply,
    name: Seq<char>,
)
    requires
        execution_state(built, tx, step),
        step is Ask,
    ensures
        execution_state(built, tx.execute_next(reply, name).0, tx.execute_next(reply, name).1),
{
    let i = tx.execution_count - 1;
    let op = tx.ops[i];
    let advanced = op.execute_next(reply);
    lemma_step_and_stage(op.run, reply);
    let moved = TransactionView { ops: tx.ops.update(i, advanced.0), ..tx };
    match advanced.1 {
        StepView::Finished(Ok(_)) => {
            lemma_execute_proceed(built, moved, name);
        },
        _ => {},
    }
}

/// Where an execution gets to.
///
/// Whatever the replies, a transaction that was being built and is then
/// executed is at every moment in a state of the execution. So where the
/// execution has ended with an error, the count of operations reached is the
/// position of the operation that failed, counted from one; the operations
/// before it have ended well, and those after it were never touched.
pub proof fn law_execution_count(
    built: TransactionView,
    names: Seq<Seq<char>>,
    replies: Seq<Reply>,
)
    requires
        built.phase == Phase::Building,
        built.execution_count == 0,
    ensures
        ({
            let started = built.execute_start(names[0]);
            let reached = execute_run(started.0, started.1, names, replies);
            execution_state(built, reached.0, reached.1)
        }),
{
    let started = built.execute_start(names[0]);
    lemma_execute_proceed(built, TransactionView { phase: Phase::Executing, ..built }, names[0]);
    lemma_execute_run_keeps(built, started.0, started.1, names, replies);
}

/// A run of `execute` leads from a state of the execution to a state of the
/// execution.
proof fn lemma_execute_run_keeps(
    built: TransactionView,
    tx: TransactionView,
    step: StepView,
    names: Seq<Seq<char>>,
    replies: Seq<Reply>,
)
    requires
        execution_state(built, tx, step),
    ensures
        execution_state(
            built,
            execute_run(tx, step, names, replies).0,
            execute_run(tx, step, names, replies).1,
        ),
    decreases replies.len(),
{
    if replies.len() > 0 && step is Ask {
        let name = names[tx.execution_count as int];
        lemma_execute_next_keeps(built, tx, step, replies[0], name);
        let advanced = tx.execute_next(replies[0], name);
        lemma_execute_run_keeps(built, advanced.0, advanced.1, names, replies.drop_first());
    }
}

/// Where a rollback stands, told from the transaction `reached` that it
/// began with.
///
/// The operations still to undo are the first `remaining` ones. Every
/// operation that was reached and is not among them was rolled back and
/// ended well; every operation among them but the last is as it was, and so
/// is every operation that was never reached. So the operations are undone
/// in the opposite order of their execution, starting with the one reached
/// last. While the transaction asks, the last of those still to undo is
/// under rollback. When it has ended with an error, that operation is the
/// one whose rollback failed. When it has ended well, none is left to undo.
pub open spec fn rollback_state(reached: TransactionView, tx: TransactionView, step: StepView) -> bool {
    let count = reached.execution_count;
    let left = tx.remaining;
    &&& tx.ops.len() == reached.ops.len()
    &&& tx.execution_count == count
    &&& count <= tx.ops.len()
    &&& left <= count
    &&& forall|i: int| left <= i < count ==> rolled_back(#[trigger] tx.ops[i])
    &&& forall|i: int| 0 <= i < left - 1 ==> #[trigger] tx.ops[i] == reached.ops[i]
    &&& forall|i: int| count <= i < tx.ops.len() ==> #[trigger] tx.ops[i] == reached.ops[i]
    &&& match step {
        StepView::Ask(_) => {
            &&& tx.phase == Phase::RollingBack
            &&& left > 0
            &&& rolling_back(tx.ops[left - 1])
        },
        StepView::Finished(Err(_)) => {
            &&& tx.phase == Phase::Terminal
            &&& left > 0
            &&& rollback_failed(tx.ops[left - 1])
        },
        StepView::Finished(Ok(_)) => tx.phase == Phase::Terminal && left == 0,
    }
}

/// Starting the rollback of the next operation, or ending where none is
/// left, leads to a state of the rollback.
proof fn lemma_rollback_proceed(reached: TransactionView, tx: TransactionView)
    requires
        tx.phase == Phase::RollingBack,
        tx.ops.len() == reached.ops.len(),
        tx.execution_count == reached.execution_count,
        tx.execution_count <= tx.ops.len(),
        tx.remaining <= tx.execution_count,
        forall|i: int| tx.remaining <= i < tx.execution_count ==> rolled_back(#[trigger] tx.ops[i]),
        forall|i: int| 0 <= i < tx.remaining ==> #[trigger] tx.ops[i] == reached.ops[i],
        forall|i: int| tx.execution_count <= i < tx.ops.len() ==> #[trigger] tx.ops[i] == reached.ops[i],
    ensures
        rollback_state(reached, tx.rollback_proceed().0, tx.rollback_proceed().1),
{
    if tx.remaining > 0 {
        let i = tx.remaining - 1;
        let op = tx.ops[i];
        lemma_rollback_start_asks(op);
        lemma_proceed_and_stage(RunView { plan: op.rollback_plan(), ..RunView::idle() });
    }
}

/// Every call of `rollback` with a reply leads from a state of the rollback
/// in which the transaction asks to a state of the rollback.
pub proof fn lemma_rollback_next_keeps(
    reached: TransactionView,
    tx: TransactionView,
    step: StepView,
    reply: Reply,
)
    requires
        rollback_state(reached, tx, step),
        step is Ask,
    ensures
        rollback_state(reached, tx.rollback_next(reply).0, tx.rollback_next(reply).1),
{
    let i = tx.remaining - 1;
    let op = tx.ops[i];
    let advanced = op.rollback_next(reply);
    lemma_step_and_stage(op.run, reply);
    let moved = TransactionView { ops: tx.ops.update(i, advanced.0), ..tx };
    match advanced.1 {
        StepView::Finished(Ok(_)) => {
            lemma_rollback_proceed(
                reached,
                TransactionView { remaining: (tx.remaining - 1) as nat, ..moved },
            );
        },
        _ => {},
    }
}

/// A run of `rollback` leads from a state of the rollback to a state of the
/// rollback.
proof fn lemma_rollback_run_keeps(
    reached: TransactionView,
    tx: TransactionView,
    step: StepView,
    replies: Seq<Reply>,
)
    requires
        rollback_state(reached, tx, step),
    ensures
        rollback_state(
            reached,
            rollback_run(tx, step, replies).0,
            rollback_run(tx, step, replies).1,
        ),
    decreases replies.len(),
{
    if replies.len() > 0 && step is Ask {
        lemma_rollback_next_keeps(reached, tx, step, replies[0]);
        let advanced = tx.rollback_next(replies[0]);
        lemma_rollback_run_keeps(reached, advanced.0, advanced.1, replies.drop_first());
    }
}

/// In which order a rollback undoes.
///
/// Whatever the replies, a transaction that is rolled back is at every
/// moment in a state of the rollback. So only operations that were reached
/// are ever undone; they are undone from the one reached last, which is the
/// one that failed where the execution failed, down to the first; and where
/// a rollback fails, the operations before it are left as they are.
pub proof fn law_rollback_order(reached: TransactionView, replies: Seq<Reply>)
    requires
        reached.execution_count <= reached.ops.len(),
    ensures
        ({
            let started = reached.rollback_start();
            let ended = rollback_run(started.0, started.1, replies);
            rollback_state(reached, ended.0, ended.1)
        }),
{
    let started = reached.rollback_start();
    lemma_rollback_proceed(
        reached,
        TransactionView {
            phase: Phase::RollingBack,
            remaining: reached.execution_count,
            ..reached
        },
    );
    lemma_rollback_run_keeps(reached, started.0, started.1, replies);
}

} // verus!
