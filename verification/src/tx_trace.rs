//! Transactions against the model: a transaction that is executed to a good
//! end has executed its operations one after the other, each on the
//! filesystem that the one before left; and a transaction that is rolled
//! back to a good end has rolled them back one after the other in the
//! opposite order.
//!
//! So what is proved of the execution and the rollback of one operation
//! carries over to each operation of a transaction.

use vstd::prelude::*;
use crate::model::FsState;
use crate::operation::{
    lemma_execute_start_asks, lemma_rollback_start_asks, Activity, OperationView,
};
use crate::protocol::{Reply, StepView};
use crate::trace::{execute_trace, executes, rollback_trace, rolls_back};
use crate::transaction::{Phase, TransactionView};

verus! {

/// The transaction, its step and the filesystem after `replies` were given
/// to `execute` one by one, each to the request that was open; `None` where
/// a reply is one that the filesystem cannot give, or where replies are left
/// when the execution is over. The operation at index `i` gets `names[i]`
/// as the name of its backup.
pub open spec fn tx_execute_trace(
    tx: TransactionView,
    step: StepView,
    names: Seq<Seq<char>>,
    fs: FsState,
    replies: Seq<Reply>,
) -> Option<(TransactionView, StepView, FsState)>
    decreases replies.len(),
{
    if replies.len() == 0 {
        Some((tx, step, fs))
    } else {
        match step {
            StepView::Ask(request) => if fs.admits(request, replies[0]) {
                let advanced = tx.execute_next(replies[0], names[tx.execution_count as int]);
                tx_execute_trace(
                    advanced.0,
                    advanced.1,
                    names,
                    fs.after(request, replies[0]),
                    replies.drop_first(),
                )
            } else {
                None
            },
            StepView::Finished(_) => None,
        }
    }
}

/// The same for `rollback`.
pub open spec fn tx_rollback_trace(
    tx: TransactionView,
    step: StepView,
    fs: FsState,
    replies: Seq<Reply>,
) -> Option<(TransactionView, StepView, FsState)>
    decreases replies.len(),
{
    if replies.len() == 0 {
        Some((tx, step, fs))
    } else {
        match step {
            StepView::Ask(request) => if fs.admits(request, replies[0]) {
                let advanced = tx.rollback_next(replies[0]);
                tx_rollback_trace(
                    advanced.0,
                    advanced.1,
                    fs.after(request, replies[0]),
                    replies.drop_first(),
                )
            } else {
                None
            },
            StepView::Finished(_) => None,
        }
    }
}

/// Whether the operations of `before` from index `from` on were executed
/// one after the other, each to a good end, starting at `fs` and leaving
/// `fs_last`, and are now as `after` has them.
pub open spec fn executed_in_order(
    before: Seq<OperationView>,
    after: Seq<OperationView>,
    names: Seq<Seq<char>>,
    from: int,
    fs: FsState,
    fs_last: FsState,
) -> bool
    decreases before.len() - from,
{
    if from >= before.len() || from < 0 {
        fs_last == fs
    } else {
        exists|mid: FsState| #[trigger]
            executes(before[from], names[from], fs, after[from], mid) && executed_in_order(
                before,
                after,
                names,
                from + 1,
                mid,
                fs_last,
            )
    }
}

/// Whether the first `count` operations of `before` were rolled back one
/// after the other, the last of them first, each to a good end, starting at
/// `fs` and leaving `fs_last`, and are now as `after` has them.
pub open spec fn undone_in_order(
    before: Seq<OperationView>,
    after: Seq<OperationView>,
    count: int,
    fs: FsState,
    fs_last: FsState,
) -> bool
    decreases count,
{
    if count <= 0 || count > before.len() {
        fs_last == fs
    } else {
        exists|mid: FsState| #[trigger]
            rolls_back(before[count - 1], fs, after[count - 1], mid) && undone_in_order(
                before,
                after,
                count - 1,
                mid,
                fs_last,
            )
    }
}

/// While a transaction is busy with an operation, it goes as the operation
/// goes: an execution that ends well has seen that operation end well after
/// some of the replies, and has gone on to the next from there.
proof fn lemma_tx_follows_execution(
    tx: TransactionView,
    step: StepView,
    names: Seq<Seq<char>>,
    fs: FsState,
    replies: Seq<Reply>,
    last: TransactionView,
    fs_last: FsState,
) -> (r: (int, OperationView, FsState))
    requires
        tx.phase == Phase::Executing,
        0 < tx.execution_count <= tx.ops.len(),
        step is Ask,
        tx_execute_trace(tx, step, names, fs, replies) == Some(
            (last, StepView::Finished(Ok(())), fs_last),
        ),
    ensures
        0 < r.0 <= replies.len(),
        execute_trace(tx.ops[tx.execution_count - 1], step, fs, replies.take(r.0)) == Some(
            (r.1, StepView::Finished(Ok(())), r.2),
        ),
        ({
            let moved = TransactionView { ops: tx.ops.update(tx.execution_count - 1, r.1), ..tx };
            let next = moved.execute_proceed(names[tx.execution_count as int]);
            tx_execute_trace(next.0, next.1, names, r.2, replies.skip(r.0)) == Some(
                (last, StepView::Finished(Ok(())), fs_last),
            )
        }),
    decreases replies.len(),
{
    let i = tx.execution_count - 1;
    let op = tx.ops[i];
    let request = step->Ask_0;
    let reply = replies[0];
    let rest = replies.drop_first();
    let advanced_op = op.execute_next(reply);
    let advanced = tx.execute_next(reply, names[tx.execution_count as int]);
    let fs1 = fs.after(request, reply);
    let moved = TransactionView { ops: tx.ops.update(i, advanced_op.0), ..tx };
    match advanced_op.1 {
        StepView::Ask(q) => {
            assert(advanced.0 == moved);
            let r = lemma_tx_follows_execution(moved, advanced.1, names, fs1, rest, last, fs_last);
            let head = replies.take(r.0 + 1);
            assert(head.drop_first() =~= rest.take(r.0));
            assert(head[0] == reply);
            assert(replies.skip(r.0 + 1) =~= rest.skip(r.0));
            assert(moved.ops.update(i, r.1) =~= tx.ops.update(i, r.1));
            assert(execute_trace(op, step, fs, head) == execute_trace(
                advanced_op.0,
                advanced_op.1,
                fs1,
                head.drop_first(),
            ));
            (r.0 + 1, r.1, r.2)
        },
        StepView::Finished(Ok(unit)) => {
            assert(unit == ());
            let head = replies.take(1);
            assert(head.drop_first() =~= Seq::<Reply>::empty());
            assert(head[0] == reply);
            assert(replies.skip(1) =~= rest);
            assert(execute_trace(op, step, fs, head) == execute_trace(
                advanced_op.0,
                advanced_op.1,
                fs1,
                head.drop_first(),
            ));
            (1, advanced_op.0, fs1)
        },
        StepView::Finished(Err(e)) => {
            if rest.len() > 0 {
                assert(tx_execute_trace(advanced.0, advanced.1, names, fs1, rest) is None);
            }
            assert(false);
            (1, advanced_op.0, fs1)
        },
    }
}

/// From the start of an operation on, an execution that ends well has
/// executed every operation that was left, in order.
proof fn lemma_executed_in_order(
    tx: TransactionView,
    names: Seq<Seq<char>>,
    fs: FsState,
    replies: Seq<Reply>,
    last: TransactionView,
    fs_last: FsState,
)
    requires
        tx.phase == Phase::Executing,
        tx.execution_count <= tx.ops.len(),
        tx_execute_trace(
            tx.execute_proceed(names[tx.execution_count as int]).0,
            tx.execute_proceed(names[tx.execution_count as int]).1,
            names,
            fs,
            replies,
        ) == Some((last, StepView::Finished(Ok(())), fs_last)),
    ensures
        last.ops.len() == tx.ops.len(),
        last.execution_count == tx.ops.len(),
        forall|k: int| 0 <= k < tx.execution_count ==> #[trigger] last.ops[k] == tx.ops[k],
        executed_in_order(tx.ops, last.ops, names, tx.execution_count as int, fs, fs_last),
    decreases tx.ops.len() - tx.execution_count,
{
    let i = tx.execution_count as int;
    let started = tx.execute_proceed(names[i]);
    if tx.execution_count < tx.ops.len() {
        if tx.ops[i].activity != Activity::Idle {
            if replies.len() > 0 {
                assert(tx_execute_trace(started.0, started.1, names, fs, replies) is None);
            }
            assert(false);
        }
        lemma_execute_start_asks(tx.ops[i], names[i]);
        let r = lemma_tx_follows_execution(
            started.0,
            started.1,
            names,
            fs,
            replies,
            last,
            fs_last,
        );
        let moved = TransactionView { ops: started.0.ops.update(i, r.1), ..started.0 };
        lemma_executed_in_order(moved, names, r.2, replies.skip(r.0), last, fs_last);
        assert(last.ops[i] == moved.ops[i]);
        assert(executes(tx.ops[i], names[i], fs, last.ops[i], r.2));
        assert forall|k: int| 0 <= k < tx.execution_count implies #[trigger] last.ops[k]
            == tx.ops[k] by {
            assert(last.ops[k] == moved.ops[k]);
        }
        lemma_same_from(tx.ops, moved.ops, last.ops, names, i + 1, r.2, fs_last);
    }
}

/// What was executed in order from an index on is so whatever the operations
/// before that index were.
proof fn lemma_same_from(
    before: Seq<OperationView>,
    other: Seq<OperationView>,
    after: Seq<OperationView>,
    names: Seq<Seq<char>>,
    from: int,
    fs: FsState,
    fs_last: FsState,
)
    requires
        before.len() == other.len(),
        0 <= from,
        forall|k: int| from <= k < before.len() ==> before[k] == other[k],
        executed_in_order(other, after, names, from, fs, fs_last),
    ensures
        executed_in_order(before, after, names, from, fs, fs_last),
    decreases before.len() - from,
{
    if from < before.len() {
        let mid = choose|mid: FsState| #[trigger]
            executes(other[from], names[from], fs, after[from], mid) && executed_in_order(
                other,
                after,
                names,
                from + 1,
                mid,
                fs_last,
            );
        lemma_same_from(before, other, after, names, from + 1, mid, fs_last);
        assert(executes(before[from], names[from], fs, after[from], mid));
    }
}

/// A transaction that is executed to a good end has executed every one of
/// its operations to a good end, in the order in which they were added,
/// each on the filesystem that the one before left.
pub proof fn law_transaction_executes_in_order(
    built: TransactionView,
    names: Seq<Seq<char>>,
    fs: FsState,
    replies: Seq<Reply>,
    last: TransactionView,
    fs_last: FsState,
)
    requires
        built.phase == Phase::Building,
        built.execution_count == 0,
        tx_execute_trace(
            built.execute_start(names[0]).0,
            built.execute_start(names[0]).1,
            names,
            fs,
            replies,
        ) == Some((last, StepView::Finished(Ok(())), fs_last)),
    ensures
        last.ops.len() == built.ops.len(),
        last.execution_count == built.ops.len(),
        executed_in_order(built.ops, last.ops, names, 0, fs, fs_last),
{
    lemma_executed_in_order(
        TransactionView { phase: Phase::Executing, ..built },
        names,
        fs,
        replies,
        last,
        fs_last,
    );
}

/// While a transaction is busy with the rollback of an operation, it goes
/// as that rollback goes.
proof fn lemma_tx_follows_rollback(
    tx: TransactionView,
    step: StepView,
    fs: FsState,
    replies: Seq<Reply>,
    last: TransactionView,
    fs_last: FsState,
) -> (r: (int, OperationView, FsState))
    requires
        tx.phase == Phase::RollingBack,
        0 < tx.remaining <= tx.ops.len(),
        step is Ask,
        tx_rollback_trace(tx, step, fs, replies) == Some(
            (last, StepView::Finished(Ok(())), fs_last),
        ),
    ensures
        0 < r.0 <= replies.len(),
        rollback_trace(tx.ops[tx.remaining - 1], step, fs, replies.take(r.0)) == Some(
            (r.1, StepView::Finished(Ok(())), r.2),
        ),
        ({
            let moved = TransactionView {
                ops: tx.ops.update(tx.remaining - 1, r.1),
                remaining: (tx.remaining - 1) as nat,
                ..tx
            };
            let next = moved.rollback_proceed();
            tx_rollback_trace(next.0, next.1, r.2, replies.skip(r.0)) == Some(
                (last, StepView::Finished(Ok(())), fs_last),
            )
        }),
    decreases replies.len(),
{
    let i = tx.remaining - 1;
    let op = tx.ops[i];
    let request = step->Ask_0;
    let reply = replies[0];
    let rest = replies.drop_first();
    let advanced_op = op.rollback_next(reply);
    let advanced = tx.rollback_next(reply);
    let fs1 = fs.after(request, reply);
    let moved = TransactionView { ops: tx.ops.update(i, advanced_op.0), ..tx };
    match advanced_op.1 {
        StepView::Ask(q) => {
            assert(advanced.0 == moved);
            let r = lemma_tx_follows_rollback(moved, advanced.1, fs1, rest, last, fs_last);
            let head = replies.take(r.0 + 1);
            assert(head.drop_first() =~= rest.take(r.0));
            assert(head[0] == reply);
            assert(replies.skip(r.0 + 1) =~= rest.skip(r.0));
            assert(moved.ops.update(i, r.1) =~= tx.ops.update(i, r.1));
            assert(rollback_trace(op, step, fs, head) == rollback_trace(
                advanced_op.0,
                advanced_op.1,
                fs1,
                head.drop_first(),
            ));
            (r.0 + 1, r.1, r.2)
        },
        StepView::Finished(Ok(unit)) => {
            assert(unit == ());
            let head = replies.take(1);
            assert(head.drop_first() =~= Seq::<Reply>::empty());
            assert(head[0] == reply);
            assert(replies.skip(1) =~= rest);
            assert(rollback_trace(op, step, fs, head) == rollback_trace(
                advanced_op.0,
                advanced_op.1,
                fs1,
                head.drop_first(),
            ));
            (1, advanced_op.0, fs1)
        },
        StepView::Finished(Err(e)) => {
            if rest.len() > 0 {
                assert(tx_rollback_trace(advanced.0, advanced.1, fs1, rest) is None);
            }
            assert(false);
            (1, advanced_op.0, fs1)
        },
    }
}

/// From the start of the rollback of an operation on, a rollback that ends
/// well has rolled back every operation that was left, the last first.
proof fn lemma_undone_in_order(
    tx: TransactionView,
    fs: FsState,
    replies: Seq<Reply>,
    last: TransactionView,
    fs_last: FsState,
)
    requires
        tx.phase == Phase::RollingBack,
        tx.remaining <= tx.ops.len(),
        tx_rollback_trace(tx.rollback_proceed().0, tx.rollback_proceed().1, fs, replies) == Some(
            (last, StepView::Finished(Ok(())), fs_last),
        ),
    ensures
        last.ops.len() == tx.ops.len(),
        last.remaining == 0,
        forall|k: int| tx.remaining <= k < tx.ops.len() ==> #[trigger] last.ops[k] == tx.ops[k],
        undone_in_order(tx.ops, last.ops, tx.remaining as int, fs, fs_last),
    decreases tx.remaining,
{
    let started = tx.rollback_proceed();
    if tx.remaining > 0 {
        let i = tx.remaining - 1;
        lemma_rollback_start_asks(tx.ops[i]);
        let r = lemma_tx_follows_rollback(started.0, started.1, fs, replies, last, fs_last);
        let moved = TransactionView {
            ops: started.0.ops.update(i, r.1),
            remaining: i as nat,
            ..started.0
        };
        lemma_undone_in_order(moved, r.2, replies.skip(r.0), last, fs_last);
        assert(last.ops[i] == moved.ops[i]);
        assert(rolls_back(tx.ops[i], fs, last.ops[i], r.2));
        assert forall|k: int| tx.remaining <= k < tx.ops.len() implies #[trigger] last.ops[k]
            == tx.ops[k] by {
            assert(last.ops[k] == moved.ops[k]);
        }
        lemma_same_upto(tx.ops, moved.ops, last.ops, i, r.2, fs_last);
    }
}

/// What was rolled back in order up to an index is so whatever the
/// operations from that index on were.
proof fn lemma_same_upto(
    before: Seq<OperationView>,
    other: Seq<OperationView>,
    after: Seq<OperationView>,
    count: int,
    fs: FsState,
    fs_last: FsState,
)
    requires
        before.len() == other.len(),
        count <= before.len(),
        forall|k: int| 0 <= k < count ==> before[k] == other[k],
        undone_in_order(other, after, count, fs, fs_last),
    ensures
        undone_in_order(before, after, count, fs, fs_last),
    decreases count,
{
    if count > 0 {
        let mid = choose|mid: FsState| #[trigger]
            rolls_back(other[count - 1], fs, after[count - 1], mid) && undone_in_order(
                other,
                after,
                count - 1,
                mid,
                fs_last,
            );
        lemma_same_upto(before, other, after, count - 1, mid, fs_last);
        assert(rolls_back(before[count - 1], fs, after[count - 1], mid));
    }
}

/// A transaction that is rolled back to a good end has rolled back every
/// operation that was reached, and no other, to a good end, the one reached
/// last first, each on the filesystem that the rollback before it left.
pub proof fn law_transaction_undoes_in_reverse(
    reached: TransactionView,
    fs: FsState,
    replies: Seq<Reply>,
    last: TransactionView,
    fs_last: FsState,
)
    requires
        reached.execution_count <= reached.ops.len(),
        tx_rollback_trace(reached.rollback_start().0, reached.rollback_start().1, fs, replies)
            == Some((last, StepView::Finished(Ok(())), fs_last)),
    ensures
        last.ops.len() == reached.ops.len(),
        forall|k: int|
            reached.execution_count <= k < reached.ops.len() ==> #[trigger] last.ops[k]
                == reached.ops[k],
        undone_in_order(reached.ops, last.ops, reached.execution_count as int, fs, fs_last),
{
    lemma_undone_in_order(
        TransactionView {
            phase: Phase::RollingBack,
            remaining: reached.execution_count,
            ..reached
        },
        fs,
        replies,
        last,
        fs_last,
    );
}

} // verus!
