//! What executing and undoing an operation does to the filesystem of the
//! model.
//!
//! Each statement speaks of an execution, or of a backup taken by itself,
//! that ended well and, where it says so, of a rollback that ended well
//! after it. None asks that the name of the backup be fresh: a backup is
//! written as a new file or a new tree, so that one that ended well has
//! found nothing by its name.

use vstd::prelude::*;
use crate::model::{
    lemma_absent_is_vacant, lemma_ancestors_are_dirs, lemma_comparable, lemma_dirs_then_remove_top,
    lemma_graft_then_remove, lemma_graft_then_remove_top, lemma_graft_then_swap, lemma_grafted,
    lemma_leads_to_parent, lemma_locate_joined, lemma_rebase, lemma_topmost_missing,
    lemma_with_dirs, lemma_within_self, lemma_within_trans, locate, rebase, topmost_missing,
    within, FsState, Key, Node,
};
use crate::operation::{OpKind, OperationView};
use crate::path::{is_entry_name, joined};
use crate::plan::InstrView;
use crate::protocol::{Request, WriteMode};
use crate::trace::{
    backs_up, executes, instr_post, instr_trail, lemma_backed_up_made_plan,
    lemma_executed_made_plan, lemma_rolled_back_made_plan, plan_post, plan_trail, rolls_back,
    Point,
};
use crate::tree_laws::{lemma_walk_ends_grafted, Graft};

verus! {

/// The filesystem between the first instruction still to make and the rest.
pub proof fn lemma_plan_post_step(plan: Seq<InstrView>, done: nat, fs: FsState, last: FsState) -> (mid:
    FsState)
    requires
        plan_post(plan, done, fs, last),
        done < plan.len(),
    ensures
        instr_post(plan[done as int], fs, mid),
        plan_post(plan, done + 1, mid, last),
{
    choose|mid: FsState| #[trigger]
        instr_post(plan[done as int], fs, mid) && plan_post(plan, done + 1, mid, last)
}

/// The same for the filesystem together with what the last survey found.
pub proof fn lemma_plan_trail_step(plan: Seq<InstrView>, done: nat, at: Point, last: Point) -> (mid:
    Point)
    requires
        plan_trail(plan, done, at, last),
        done < plan.len(),
    ensures
        instr_trail(plan[done as int], at, mid),
        plan_trail(plan, done + 1, mid, last),
{
    choose|mid: Point| #[trigger]
        instr_trail(plan[done as int], at, mid) && plan_trail(plan, done + 1, mid, last)
}

/// Whether the kind saves one file before it touches it.
pub open spec fn saves_file(kind: OpKind) -> bool {
    kind == OpKind::Write || kind == OpKind::Append || kind == OpKind::DeleteFile
}

/// The key of the backup that `op` takes under the name `name`.
pub open spec fn backup_key(op: OperationView, name: Seq<char>) -> Key {
    locate(op.temp_dir).push(name)
}

/// What a write, an append or a removal of a file leaves.
///
/// After a write the file holds the payload, and nothing else: whatever it
/// held before is gone, whether that was longer than the payload or not.
/// After an append it holds what it held before, followed by the payload.
/// After a removal nothing exists at its path. In each case the backup,
/// under the backup directory by the name drawn, holds the bytes that the
/// file held before, and the backup path is written down.
pub proof fn law_file_execution(
    op: OperationView,
    name: Seq<char>,
    fs: FsState,
    op_done: OperationView,
    fs_done: FsState,
)
    requires
        saves_file(op.kind),
        is_entry_name(name),
        executes(op, name, fs, op_done, fs_done),
    ensures
        !fs.nodes.contains_key(backup_key(op, name)),
        fs.is_file(locate(op.source)),
        op.kind == OpKind::Write ==> fs_done.is_file(locate(op.source)) && fs_done.bytes(
            locate(op.source),
        ) == op.payload,
        op.kind == OpKind::Append ==> fs_done.is_file(locate(op.source)) && fs_done.bytes(
            locate(op.source),
        ) == fs.bytes(locate(op.source)) + op.payload,
        op.kind == OpKind::DeleteFile ==> !fs_done.nodes.contains_key(locate(op.source)),
        fs_done.is_file(backup_key(op, name)),
        fs_done.bytes(backup_key(op, name)) == fs.bytes(locate(op.source)),
        op_done.backup_path == joined(op.temp_dir, name),
{
    let source = locate(op.source);
    let temp = locate(op.temp_dir);
    let backup = backup_key(op, name);
    lemma_locate_joined(op.temp_dir, name);
    lemma_executed_made_plan(op, name, fs, op_done, fs_done);
    assert(op_done.candidate() == joined(op.temp_dir, name));
    let plan = op_done.execute_plan();
    assert(plan.len() == 3);
    let a = lemma_plan_post_step(plan, 0, fs, fs_done);
    let b = lemma_plan_post_step(plan, 1, a, fs_done);
    let c = lemma_plan_post_step(plan, 2, b, fs_done);
    assert(c == fs_done);
    assert(plan[0] == InstrView::EnsureDir { path: op.temp_dir });
    assert(plan[1] == InstrView::Transfer {
        from: op.source,
        to: op_done.candidate(),
        mode: WriteMode::CreateNew,
    });
    assert(a == fs.with_dirs(temp));
    lemma_within_self(temp, name);
    assert(!a.nodes.contains_key(backup));
    assert(a.is_file(source));
    assert(source != backup);
    let held = a.bytes(source);
    assert(fs.is_file(source) && fs.bytes(source) == held);
    assert(b == a.with_file(backup, held));
    assert(b.bytes(source) == held);
}

/// A write, an append or a removal of a file that is executed and then
/// rolled back leaves the file with the bytes it had before, byte for byte.
///
/// The filesystem as a whole is then as it was before, but for the backup
/// directory, which exists now, and the backup in it, which holds those same
/// bytes. Once the backup is discarded, only the backup directory tells the
/// filesystem from what it was.
pub proof fn law_file_rollback_restores(
    op: OperationView,
    name: Seq<char>,
    fs: FsState,
    op_done: OperationView,
    fs_done: FsState,
    op_undone: OperationView,
    fs_undone: FsState,
)
    requires
        saves_file(op.kind),
        is_entry_name(name),
        executes(op, name, fs, op_done, fs_done),
        rolls_back(op_done, fs_done, op_undone, fs_undone),
    ensures
        !fs.nodes.contains_key(backup_key(op, name)),
        fs.is_file(locate(op.source)),
        fs_undone.is_file(locate(op.source)),
        fs_undone.bytes(locate(op.source)) == fs.bytes(locate(op.source)),
        fs_undone == fs.with_dirs(locate(op.temp_dir)).with_file(
            backup_key(op, name),
            fs.bytes(locate(op.source)),
        ),
        op_undone.dispose_request() == Some(
            Request::RemoveFile { path: joined(op.temp_dir, name) },
        ),
        fs_undone.allows(op_undone.dispose_request()->Some_0),
        fs_undone.apply(op_undone.dispose_request()->Some_0) == fs.with_dirs(locate(op.temp_dir)),
{
    let source = locate(op.source);
    let temp = locate(op.temp_dir);
    let backup = backup_key(op, name);
    lemma_locate_joined(op.temp_dir, name);
    lemma_executed_made_plan(op, name, fs, op_done, fs_done);
    lemma_rolled_back_made_plan(op_done, fs_done, op_undone, fs_undone);
    assert(op_done.candidate() == joined(op.temp_dir, name));
    assert(locate(op_done.candidate()) == backup);

    let plan = op_done.execute_plan();
    assert(plan.len() == 3);
    let a = lemma_plan_post_step(plan, 0, fs, fs_done);
    let b = lemma_plan_post_step(plan, 1, a, fs_done);
    let c = lemma_plan_post_step(plan, 2, b, fs_done);
    assert(c == fs_done);
    assert(plan[0] == InstrView::EnsureDir { path: op.temp_dir });
    assert(plan[1] == InstrView::Transfer {
        from: op.source,
        to: op_done.candidate(),
        mode: WriteMode::CreateNew,
    });
    assert(a == fs.with_dirs(temp));
    assert(!within(backup, temp));
    assert(!a.nodes.contains_key(backup));
    assert(a.is_file(source));
    assert(source != backup);
    let held = a.bytes(source);
    assert(fs.is_file(source) && fs.bytes(source) == held);
    assert(a.nodes[source] == Node::File(held));
    assert(b == a.with_file(backup, held));
    assert(b.bytes(source) == held);

    let undo = op_done.rollback_plan();
    assert(undo.len() == 1);
    let d = lemma_plan_post_step(undo, 0, fs_done, fs_undone);
    assert(d == fs_undone);
    assert(fs_done.nodes.contains_key(backup) && fs_done.nodes[backup] == Node::File(held));
    assert(fs_done.bytes(backup) == held);
    assert(fs_undone.nodes =~= b.nodes.insert(source, Node::File(held)));
    assert(fs_undone.nodes =~= a.with_file(backup, held).nodes);

    assert(joined(op.temp_dir, name).len() > 0);
    assert(fs_undone.nodes.remove(backup) =~= a.nodes);
}

/// A creation of a file that is executed and then rolled back leaves the
/// filesystem exactly as it was.
pub proof fn law_create_file_round_trip(
    op: OperationView,
    name: Seq<char>,
    fs: FsState,
    op_done: OperationView,
    fs_done: FsState,
    op_undone: OperationView,
    fs_undone: FsState,
)
    requires
        op.kind == OpKind::CreateFile,
        executes(op, name, fs, op_done, fs_done),
        rolls_back(op_done, fs_done, op_undone, fs_undone),
    ensures
        !fs.nodes.contains_key(locate(op.source)),
        fs_done.is_file(locate(op.source)),
        fs_done.bytes(locate(op.source)) == Seq::<u8>::empty(),
        fs_undone == fs,
{
    lemma_executed_made_plan(op, name, fs, op_done, fs_done);
    lemma_rolled_back_made_plan(op_done, fs_done, op_undone, fs_undone);
    let a = lemma_plan_post_step(op_done.execute_plan(), 0, fs, fs_done);
    let b = lemma_plan_post_step(op_done.rollback_plan(), 0, fs_done, fs_undone);
    assert(fs_undone.nodes =~= fs.nodes);
}

/// A copy of a file to a destination at which nothing existed, executed and
/// then rolled back, leaves the filesystem exactly as it was. In between the
/// destination holds the bytes of the source.
pub proof fn law_copy_file_round_trip(
    op: OperationView,
    name: Seq<char>,
    fs: FsState,
    op_done: OperationView,
    fs_done: FsState,
    op_undone: OperationView,
    fs_undone: FsState,
)
    requires
        op.kind == OpKind::CopyFile,
        !fs.nodes.contains_key(locate(op.dest)),
        executes(op, name, fs, op_done, fs_done),
        rolls_back(op_done, fs_done, op_undone, fs_undone),
    ensures
        fs.is_file(locate(op.source)),
        fs_done.is_file(locate(op.dest)),
        fs_done.bytes(locate(op.dest)) == fs.bytes(locate(op.source)),
        fs_done.bytes(locate(op.source)) == fs.bytes(locate(op.source)),
        fs_undone == fs,
{
    lemma_executed_made_plan(op, name, fs, op_done, fs_done);
    lemma_rolled_back_made_plan(op_done, fs_done, op_undone, fs_undone);
    let a = lemma_plan_post_step(op_done.execute_plan(), 0, fs, fs_done);
    let b = lemma_plan_post_step(op_done.rollback_plan(), 0, fs_done, fs_undone);
    assert(fs_undone.nodes =~= fs.nodes);
}

/// A move to a destination at which nothing existed, executed and then
/// rolled back, leaves the filesystem exactly as it was. In between
/// everything that was at the source or under it is at the destination or
/// under it, and nothing is at the source.
pub proof fn law_move_round_trip(
    op: OperationView,
    name: Seq<char>,
    fs: FsState,
    op_done: OperationView,
    fs_done: FsState,
    op_undone: OperationView,
    fs_undone: FsState,
)
    requires
        op.kind == OpKind::Move,
        executes(op, name, fs, op_done, fs_done),
        rolls_back(op_done, fs_done, op_undone, fs_undone),
    ensures
        fs_done == fs.moved(locate(op.source), locate(op.dest)),
        fs_done.vacant(locate(op.source)),
        fs_undone == fs,
{
    let from = locate(op.source);
    let to = locate(op.dest);
    lemma_executed_made_plan(op, name, fs, op_done, fs_done);
    lemma_rolled_back_made_plan(op_done, fs_done, op_undone, fs_undone);
    let a = lemma_plan_post_step(op_done.execute_plan(), 0, fs, fs_done);
    let b = lemma_plan_post_step(op_done.rollback_plan(), 0, fs_done, fs_undone);
    assert(fs_done == fs.moved(from, to));
    assert(fs_undone == fs_done.moved(to, from));
    assert(fs.vacant(to));
    assert forall|k: Key| #[trigger] fs_done.nodes.contains_key(k) implies !within(from, k) by {
        if within(from, k) {
            lemma_comparable(from, to, k);
        }
    }
    assert forall|k: Key|
        #![trigger fs_undone.nodes.contains_key(k)]
        #![trigger fs.nodes.contains_key(k)]
        fs_undone.nodes.contains_key(k) == fs.nodes.contains_key(k) && (fs.nodes.contains_key(k)
            ==> fs_undone.nodes[k] == fs.nodes[k]) by {
        if within(from, k) {
            let there = rebase(from.len() as int, to, k);
            lemma_rebase(from, to, k);
            assert(!fs.nodes.contains_key(there));
            if within(to, k) {
                lemma_comparable(from, to, k);
            }
        } else if fs.nodes.contains_key(k) {
            assert(!within(to, k));
        }
    }
    assert(fs_undone.nodes =~= fs.nodes);
}

/// What a creation of a directory leaves, where nothing existed at its path:
/// the directory and every directory that leads to it. The level that it
/// found missing and keeps in mind is the topmost one at which nothing
/// existed: what is just above that level existed before.
pub proof fn law_create_dir_execution(
    op: OperationView,
    name: Seq<char>,
    fs: FsState,
    op_done: OperationView,
    fs_done: FsState,
)
    requires
        op.kind == OpKind::CreateDirectory,
        !fs.present(locate(op.source)),
        executes(op, name, fs, op_done, fs_done),
    ensures
        fs_done == fs.with_dirs(locate(op.source)),
        fs_done.is_dir(locate(op.source)),
        op_done.created == topmost_missing(op.source, fs),
        op_done.removal_root() == topmost_missing(op.source, fs),
        within(locate(op_done.created), locate(op.source)),
        !fs.present(locate(op_done.created)),
        fs.present(locate(op_done.created).drop_last()),
{
    let key = locate(op.source);
    lemma_executed_made_plan(op, name, fs, op_done, fs_done);
    let plan = op_done.execute_plan();
    assert(plan.len() == 2);
    let at_start = Point { fs, missing: Seq::empty() };
    let at_end = Point { fs: fs_done, missing: op_done.run.missing };
    let a = lemma_plan_trail_step(plan, 0, at_start, at_end);
    let b = lemma_plan_trail_step(plan, 1, a, at_end);
    assert(b == at_end);
    lemma_topmost_missing(op.source, fs);
    assert(within(key, key)) by {
        lemma_within_self(key, Seq::empty());
    }
}

/// The rollback of a creation of a directory removes every level that the
/// execution made, from the topmost one down, and everything under them, at
/// whatever depth, whatever was put there since the execution; everything
/// else stays as it is.
pub proof fn law_create_dir_rollback_removes_created(
    op: OperationView,
    name: Seq<char>,
    fs: FsState,
    op_done: OperationView,
    fs_done: FsState,
    later: FsState,
    op_undone: OperationView,
    fs_undone: FsState,
)
    requires
        op.kind == OpKind::CreateDirectory,
        !fs.present(locate(op.source)),
        executes(op, name, fs, op_done, fs_done),
        rolls_back(op_done, later, op_undone, fs_undone),
    ensures
        within(locate(topmost_missing(op.source, fs)), locate(op.source)),
        fs_undone == later.without(locate(topmost_missing(op.source, fs))),
        fs_undone.vacant(locate(topmost_missing(op.source, fs))),
        fs_undone.vacant(locate(op.source)),
        forall|k: Key|
            #![trigger fs_undone.nodes.contains_key(k)]
            !within(locate(topmost_missing(op.source, fs)), k) ==> fs_undone.nodes.contains_key(k)
                == later.nodes.contains_key(k) && (later.nodes.contains_key(k)
                ==> fs_undone.nodes[k] == later.nodes[k]),
{
    let top = locate(topmost_missing(op.source, fs));
    law_create_dir_execution(op, name, fs, op_done, fs_done);
    lemma_executed_made_plan(op, name, fs, op_done, fs_done);
    lemma_rolled_back_made_plan(op_done, later, op_undone, fs_undone);
    lemma_topmost_missing(op.source, fs);
    let b = lemma_plan_post_step(op_done.rollback_plan(), 0, later, fs_undone);
    assert forall|k: Key| #[trigger] fs_undone.nodes.contains_key(k) implies !within(
        locate(op.source),
        k,
    ) by {
        if within(locate(op.source), k) {
            lemma_within_trans(top, locate(op.source), k);
        }
    }
}

/// A creation of a directory where nothing existed, executed and then rolled
/// back, leaves the filesystem exactly as it was, however many levels it
/// made. In between the directory exists.
pub proof fn law_create_dir_round_trip(
    op: OperationView,
    name: Seq<char>,
    fs: FsState,
    op_done: OperationView,
    fs_done: FsState,
    op_undone: OperationView,
    fs_undone: FsState,
)
    requires
        op.kind == OpKind::CreateDirectory,
        fs.wf(),
        !fs.present(locate(op.source)),
        executes(op, name, fs, op_done, fs_done),
        rolls_back(op_done, fs_done, op_undone, fs_undone),
    ensures
        fs_done.is_dir(locate(op.source)),
        fs_undone == fs,
{
    let key = locate(op.source);
    let top = locate(topmost_missing(op.source, fs));
    law_create_dir_execution(op, name, fs, op_done, fs_done);
    law_create_dir_rollback_removes_created(
        op,
        name,
        fs,
        op_done,
        fs_done,
        fs_done,
        op_undone,
        fs_undone,
    );
    lemma_topmost_missing(op.source, fs);
    lemma_dirs_then_remove_top(fs, key, top);
}

/// Where a backup of the directory at `source` can be taken: everything
/// lies in a directory that exists, the directory exists, and the backup
/// directory does not lie in the directory. Nothing is asked of the name of
/// the backup: the backup is made as a new tree, so that a backup that ends
/// well has found its name free.
pub open spec fn tree_backup_ready(op: OperationView, name: Seq<char>, fs: FsState) -> bool {
    &&& fs.wf()
    &&& fs.nodes.contains_key(locate(op.source))
    &&& fs.nodes[locate(op.source)] is Dir
    &&& !within(locate(op.source), locate(op.temp_dir))
}

/// Whether `after` holds under `to` exactly a copy of what `before` holds
/// under `from`: the same names at every depth, directories for
/// directories, and files with the same bytes.
pub open spec fn holds_copy(before: FsState, after: FsState, from: Key, to: Key) -> bool {
    forall|k: Key|
        #![trigger after.nodes.contains_key(k)]
        within(to, k) ==> after.nodes.contains_key(k) == before.nodes.contains_key(
            rebase(to.len() as int, from, k),
        ) && (after.nodes.contains_key(k) ==> after.nodes[k] == before.nodes[rebase(
            to.len() as int,
            from,
            k,
        )])
}

/// Whether `after` holds under `root` exactly what `before` holds there.
pub open spec fn same_under(before: FsState, after: FsState, root: Key) -> bool {
    forall|k: Key|
        #![trigger after.nodes.contains_key(k)]
        within(root, k) ==> after.nodes.contains_key(k) == before.nodes.contains_key(k) && (
        before.nodes.contains_key(k) ==> after.nodes[k] == before.nodes[k])
}

/// The backup of a directory, once taken: the filesystem is as it was, with
/// the backup directory, plus a copy of the whole tree under the name drawn.
proof fn lemma_tree_backup(op: OperationView, name: Seq<char>, fs: FsState, made: FsState, kept: FsState)
    requires
        is_entry_name(name),
        tree_backup_ready(op, name, fs),
        instr_post(InstrView::EnsureDir { path: op.temp_dir }, fs, made),
        instr_post(
            InstrView::CopyNewTree { from: op.source, to: joined(op.temp_dir, name) },
            made,
            kept,
        ),
    ensures
        made == fs.with_dirs(locate(op.temp_dir)),
        made.wf(),
        made.can_graft(locate(op.source), backup_key(op, name)),
        kept == made.grafted(locate(op.source), backup_key(op, name)),
        kept.wf(),
        backup_key(op, name).drop_last() == locate(op.temp_dir),
        made.is_dir(locate(op.temp_dir)),
        same_under(fs, made, locate(op.source)),
        same_under(fs, kept, locate(op.source)),
        holds_copy(fs, kept, locate(op.source), backup_key(op, name)),
{
    let source = locate(op.source);
    let temp = locate(op.temp_dir);
    let backup = backup_key(op, name);
    lemma_locate_joined(op.temp_dir, name);
    lemma_with_dirs(fs, temp);
    lemma_within_self(temp, name);
    assert(backup.drop_last() =~= temp);
    assert(!made.present(locate(joined(op.temp_dir, name))));
    assert(!made.nodes.contains_key(backup));
    assert(!within(source, backup)) by {
        if within(source, backup) {
            lemma_leads_to_parent(source, temp, name);
        }
    }
    assert(!within(backup, source)) by {
        if within(backup, source) {
            lemma_ancestors_are_dirs(made, backup, source);
        }
    }
    lemma_walk_ends_grafted(op.source, joined(op.temp_dir, name), made, kept);
    assert forall|k: Key|
        #![trigger made.nodes.contains_key(k)]
        within(source, k) implies made.nodes.contains_key(k) == fs.nodes.contains_key(k) && (
        fs.nodes.contains_key(k) ==> made.nodes[k] == fs.nodes[k]) by {
        if within(k, temp) {
            lemma_within_trans(source, k, temp);
        }
    }
    assert forall|k: Key|
        #![trigger kept.nodes.contains_key(k)]
        within(source, k) implies kept.nodes.contains_key(k) == fs.nodes.contains_key(k) && (
        fs.nodes.contains_key(k) ==> kept.nodes[k] == fs.nodes[k]) by {
        lemma_grafted(made, source, backup, k);
        assert(made.nodes.contains_key(k) == fs.nodes.contains_key(k));
    }
    assert forall|k: Key|
        #![trigger kept.nodes.contains_key(k)]
        within(backup, k) implies kept.nodes.contains_key(k) == fs.nodes.contains_key(
        rebase(backup.len() as int, source, k),
    ) && (kept.nodes.contains_key(k) ==> kept.nodes[k] == fs.nodes[rebase(
        backup.len() as int,
        source,
        k,
    )]) by {
        let there = rebase(backup.len() as int, source, k);
        lemma_grafted(made, source, backup, k);
        lemma_rebase(backup, source, k);
        assert(made.nodes.contains_key(there) == fs.nodes.contains_key(there));
    }
}

/// What a removal of a directory leaves: nothing at the path of the
/// directory or under it, and under the backup directory, by the name drawn,
/// exactly a copy of the tree that was at the path. Everything else is as it
/// was, but for the backup directory, which exists now.
pub proof fn law_delete_dir_execution(
    op: OperationView,
    name: Seq<char>,
    fs: FsState,
    op_done: OperationView,
    fs_done: FsState,
)
    requires
        op.kind == OpKind::DeleteDirectory,
        is_entry_name(name),
        tree_backup_ready(op, name, fs),
        executes(op, name, fs, op_done, fs_done),
    ensures
        fs_done == fs.with_dirs(locate(op.temp_dir)).grafted(
            locate(op.source),
            backup_key(op, name),
        ).without(locate(op.source)),
        fs_done.vacant(locate(op.source)),
        holds_copy(fs, fs_done, locate(op.source), backup_key(op, name)),
        op_done.backup_path == joined(op.temp_dir, name),
{
    let source = locate(op.source);
    let backup = backup_key(op, name);
    lemma_executed_made_plan(op, name, fs, op_done, fs_done);
    let plan = op_done.execute_plan();
    assert(plan.len() == 3);
    let a = lemma_plan_post_step(plan, 0, fs, fs_done);
    let b = lemma_plan_post_step(plan, 1, a, fs_done);
    let c = lemma_plan_post_step(plan, 2, b, fs_done);
    assert(c == fs_done);
    assert(plan[0] == InstrView::EnsureDir { path: op.temp_dir });
    assert(plan[1] == InstrView::CopyNewTree { from: op.source, to: joined(op.temp_dir, name) });
    lemma_tree_backup(op, name, fs, a, b);
    assert(fs_done == b.without(source));
    assert forall|k: Key|
        #![trigger fs_done.nodes.contains_key(k)]
        within(backup, k) implies fs_done.nodes.contains_key(k) == b.nodes.contains_key(k) by {
        if within(source, k) {
            lemma_comparable(source, backup, k);
        }
    }
}

/// A removal of a directory that is executed and then rolled back puts the
/// directory back at the very path it had, with everything that was in it,
/// at whatever depth, byte for byte; and the backup is gone from where it
/// was kept, for it was moved, not copied, so that nothing is left to
/// discard.
///
/// The filesystem as a whole is then as it was before, but for the backup
/// directory, which exists now.
pub proof fn law_delete_dir_rollback_restores(
    op: OperationView,
    name: Seq<char>,
    fs: FsState,
    op_done: OperationView,
    fs_done: FsState,
    op_undone: OperationView,
    fs_undone: FsState,
)
    requires
        op.kind == OpKind::DeleteDirectory,
        is_entry_name(name),
        tree_backup_ready(op, name, fs),
        executes(op, name, fs, op_done, fs_done),
        rolls_back(op_done, fs_done, op_undone, fs_undone),
    ensures
        fs_done.vacant(locate(op.source)),
        fs_undone == fs.with_dirs(locate(op.temp_dir)),
        fs_undone.vacant(backup_key(op, name)),
        same_under(fs, fs_undone, locate(op.source)),
        op_undone.dispose_request() is None,
{
    let source = locate(op.source);
    let temp = locate(op.temp_dir);
    let backup = backup_key(op, name);
    law_delete_dir_execution(op, name, fs, op_done, fs_done);
    lemma_executed_made_plan(op, name, fs, op_done, fs_done);
    lemma_rolled_back_made_plan(op_done, fs_done, op_undone, fs_undone);
    let plan = op_done.execute_plan();
    let a = lemma_plan_post_step(plan, 0, fs, fs_done);
    let b = lemma_plan_post_step(plan, 1, a, fs_done);
    assert(plan[0] == InstrView::EnsureDir { path: op.temp_dir });
    assert(plan[1] == InstrView::CopyNewTree { from: op.source, to: joined(op.temp_dir, name) });
    lemma_tree_backup(op, name, fs, a, b);
    let undo = op_done.rollback_plan();
    let d = lemma_plan_post_step(undo, 0, fs_done, fs_undone);
    lemma_locate_joined(op.temp_dir, name);
    assert(fs_undone == fs_done.moved(backup, source));
    lemma_graft_then_swap(a, source, backup);
    lemma_absent_is_vacant(a, backup);
}

/// Where the copy of the directory at `source` can go to `dest`: nothing
/// exists at the destination, and it lies neither in the directory nor in
/// the backup nor above the backup.
pub open spec fn tree_dest_ready(op: OperationView, name: Seq<char>, fs: FsState) -> bool {
    let dest = locate(op.dest);
    &&& !fs.present(dest)
    &&& !within(locate(op.source), dest)
    &&& !within(backup_key(op, name), dest)
    &&& !within(dest, backup_key(op, name))
}

/// The filesystem with the backup of a directory that is to be copied: the
/// backup directory, and in it a copy of the tree under the name drawn.
pub open spec fn with_backup(op: OperationView, name: Seq<char>, fs: FsState) -> FsState {
    fs.with_dirs(locate(op.temp_dir)).grafted(locate(op.source), backup_key(op, name))
}

/// What a copy of a directory leaves: at the destination exactly a copy of
/// everything that is at the source or under it, with the same names and
/// the same bytes, and nothing else; the same under the backup directory, by
/// the name drawn; and the source as it was. The level that the execution
/// found missing on the way to the destination, and keeps in mind, is the
/// topmost one at which nothing existed.
pub proof fn law_copy_dir_execution(
    op: OperationView,
    name: Seq<char>,
    fs: FsState,
    op_done: OperationView,
    fs_done: FsState,
)
    requires
        op.kind == OpKind::CopyDirectory,
        is_entry_name(name),
        tree_backup_ready(op, name, fs),
        tree_dest_ready(op, name, fs),
        executes(op, name, fs, op_done, fs_done),
    ensures
        fs_done == with_backup(op, name, fs).grafted(locate(op.source), locate(op.dest)),
        holds_copy(fs, fs_done, locate(op.source), locate(op.dest)),
        holds_copy(fs, fs_done, locate(op.source), backup_key(op, name)),
        same_under(fs, fs_done, locate(op.source)),
        with_backup(op, name, fs).can_graft(locate(op.source), locate(op.dest)),
        op_done.removal_root() == topmost_missing(op.dest, with_backup(op, name, fs)),
        op_done.backup_path == joined(op.temp_dir, name),
{
    let source = locate(op.source);
    let temp = locate(op.temp_dir);
    let dest = locate(op.dest);
    let backup = backup_key(op, name);
    lemma_executed_made_plan(op, name, fs, op_done, fs_done);
    let plan = op_done.execute_plan();
    assert(plan.len() == 4);
    let at_start = Point { fs, missing: Seq::empty() };
    let at_end = Point { fs: fs_done, missing: op_done.run.missing };
    let pa = lemma_plan_trail_step(plan, 0, at_start, at_end);
    let pb = lemma_plan_trail_step(plan, 1, pa, at_end);
    let ps = lemma_plan_trail_step(plan, 2, pb, at_end);
    let pc = lemma_plan_trail_step(plan, 3, ps, at_end);
    assert(pc == at_end);
    assert(plan[0] == InstrView::EnsureDir { path: op.temp_dir });
    assert(plan[1] == InstrView::CopyNewTree { from: op.source, to: joined(op.temp_dir, name) });
    assert(plan[2] == InstrView::Survey { path: op.dest });
    assert(plan[3] == InstrView::CopyTree { from: op.source, to: op.dest });
    let a = pa.fs;
    let b = pb.fs;
    lemma_tree_backup(op, name, fs, a, b);
    assert(ps.fs == b);
    lemma_copy_dest_ready(op, name, fs);
    lemma_walk_ends_grafted(op.source, op.dest, b, fs_done);
    lemma_topmost_missing(op.dest, b);

    assert forall|k: Key|
        #![trigger fs_done.nodes.contains_key(k)]
        within(dest, k) implies fs_done.nodes.contains_key(k) == fs.nodes.contains_key(
        rebase(dest.len() as int, source, k),
    ) && (fs_done.nodes.contains_key(k) ==> fs_done.nodes[k] == fs.nodes[rebase(
        dest.len() as int,
        source,
        k,
    )]) by {
        let there = rebase(dest.len() as int, source, k);
        lemma_grafted(b, source, dest, k);
        lemma_rebase(dest, source, k);
        assert(b.nodes.contains_key(there) == fs.nodes.contains_key(there));
    }
    assert forall|k: Key|
        #![trigger fs_done.nodes.contains_key(k)]
        within(source, k) implies fs_done.nodes.contains_key(k) == fs.nodes.contains_key(k) && (
        fs.nodes.contains_key(k) ==> fs_done.nodes[k] == fs.nodes[k]) by {
        lemma_grafted(b, source, dest, k);
        assert(b.nodes.contains_key(k) == fs.nodes.contains_key(k));
    }
    assert forall|k: Key|
        #![trigger fs_done.nodes.contains_key(k)]
        within(backup, k) implies fs_done.nodes.contains_key(k) == fs.nodes.contains_key(
        rebase(backup.len() as int, source, k),
    ) && (fs_done.nodes.contains_key(k) ==> fs_done.nodes[k] == fs.nodes[rebase(
        backup.len() as int,
        source,
        k,
    )]) by {
        lemma_grafted(b, source, dest, k);
        if within(dest, k) {
            lemma_comparable(dest, backup, k);
        }
        if within(k, dest) {
            lemma_within_trans(backup, k, dest);
        }
        assert(fs_done.nodes.contains_key(k) == b.nodes.contains_key(k));
    }
}

/// A copy of a directory that is executed and then rolled back leaves
/// nothing at the destination or under it, nor any directory that the
/// execution made on the way to the destination; the source is as it was.
///
/// The filesystem as a whole is after the rollback as it was before the
/// execution, but for the backup directory and the backup in it; once the
/// backup is discarded, only the backup directory tells the filesystem from
/// what it was.
pub proof fn law_copy_dir_round_trip(
    op: OperationView,
    name: Seq<char>,
    fs: FsState,
    op_done: OperationView,
    fs_done: FsState,
    op_undone: OperationView,
    fs_undone: FsState,
)
    requires
        op.kind == OpKind::CopyDirectory,
        is_entry_name(name),
        tree_backup_ready(op, name, fs),
        tree_dest_ready(op, name, fs),
        executes(op, name, fs, op_done, fs_done),
        rolls_back(op_done, fs_done, op_undone, fs_undone),
    ensures
        fs_undone.vacant(locate(op.dest)),
        fs_undone == with_backup(op, name, fs),
        same_under(fs, fs_undone, locate(op.source)),
        op_undone.dispose_request() == Some(
            Request::RemoveDirAll { path: joined(op.temp_dir, name) },
        ),
        fs_undone.allows(op_undone.dispose_request()->Some_0),
        fs_undone.apply(op_undone.dispose_request()->Some_0) == fs.with_dirs(locate(op.temp_dir)),
{
    let source = locate(op.source);
    let temp = locate(op.temp_dir);
    let dest = locate(op.dest);
    let backup = backup_key(op, name);
    let a = fs.with_dirs(temp);
    let b = with_backup(op, name, fs);
    law_copy_dir_execution(op, name, fs, op_done, fs_done);
    lemma_executed_made_plan(op, name, fs, op_done, fs_done);
    lemma_rolled_back_made_plan(op_done, fs_done, op_undone, fs_undone);
    let plan = op_done.execute_plan();
    let pa = lemma_plan_post_step(plan, 0, fs, fs_done);
    let pb = lemma_plan_post_step(plan, 1, pa, fs_done);
    assert(plan[0] == InstrView::EnsureDir { path: op.temp_dir });
    assert(plan[1] == InstrView::CopyNewTree { from: op.source, to: joined(op.temp_dir, name) });
    lemma_tree_backup(op, name, fs, pa, pb);
    lemma_locate_joined(op.temp_dir, name);

    let top = locate(topmost_missing(op.dest, b));
    lemma_topmost_missing(op.dest, b);
    let undo = op_done.rollback_plan();
    let d = lemma_plan_post_step(undo, 0, fs_done, fs_undone);
    assert(fs_undone == fs_done.without(top));
    lemma_graft_then_remove_top(b, source, dest, top);
    lemma_absent_is_vacant(b, dest);

    assert(joined(op.temp_dir, name).len() > 0);
    lemma_graft_then_remove(a, source, backup);
}

/// Before a copy of a directory goes to its destination, the backup is
/// taken; the filesystem with the backup is as ready for the copy as the
/// filesystem was before.
proof fn lemma_copy_dest_ready(op: OperationView, name: Seq<char>, fs: FsState)
    requires
        is_entry_name(name),
        tree_backup_ready(op, name, fs),
        tree_dest_ready(op, name, fs),
        fs.with_dirs(locate(op.temp_dir)).can_graft(locate(op.source), backup_key(op, name)),
        with_backup(op, name, fs).wf(),
        forall|k: Key| #[trigger] within(k, locate(op.temp_dir)) ==> !fs.is_file(k),
    ensures
        with_backup(op, name, fs).can_graft(locate(op.source), locate(op.dest)),
{
    let source = locate(op.source);
    let temp = locate(op.temp_dir);
    let dest = locate(op.dest);
    let backup = backup_key(op, name);
    let a = fs.with_dirs(temp);
    let b = a.grafted(source, backup);
    lemma_with_dirs(fs, temp);
    lemma_within_self(temp, name);
    lemma_grafted(a, source, backup, dest);
    lemma_grafted(a, source, backup, source);
    if within(dest, temp) {
        lemma_within_trans(dest, temp, backup);
    }
    assert(!b.nodes.contains_key(dest));
    if within(dest, source) {
        lemma_ancestors_are_dirs(b, dest, source);
    }
}

/// Where an operation of any kind can be executed and rolled back without
/// a trace: what the round trip of each kind asks of the filesystem and of
/// the name of the backup.
///
/// A creation of a directory asks that nothing exists at the path; a copy of
/// a file, that nothing exists at the destination; an operation that saves
/// a directory, what the backup of the tree asks, and a copy of a directory
/// also what its destination asks. A creation of a file, a move and an
/// operation that saves a file ask nothing of the filesystem: the backup of
/// a file is written as a new file, so that an execution that ends well has
/// found the name of its backup free.
pub open spec fn round_trip_ready(op: OperationView, name: Seq<char>, fs: FsState) -> bool {
    match op.kind {
        OpKind::CreateFile | OpKind::Move => true,
        OpKind::CreateDirectory => fs.wf() && !fs.present(locate(op.source)),
        OpKind::CopyFile => !fs.nodes.contains_key(locate(op.dest)),
        OpKind::Write | OpKind::Append | OpKind::DeleteFile => is_entry_name(name),
        OpKind::DeleteDirectory => is_entry_name(name) && tree_backup_ready(op, name, fs),
        OpKind::CopyDirectory => is_entry_name(name) && tree_backup_ready(op, name, fs)
            && tree_dest_ready(op, name, fs),
    }
}

/// The filesystem once the backup that the operation still has, if any, is
/// discarded.
pub open spec fn settled(op: OperationView, fs: FsState) -> FsState {
    match op.dispose_request() {
        Some(request) => if fs.allows(request) {
            fs.apply(request)
        } else {
            fs
        },
        None => fs,
    }
}

/// Executing and then rolling back leaves no trace, for every kind of
/// operation.
///
/// Once the backup that is left is discarded, the filesystem is exactly as
/// it was before the execution, but for the backup directory of the kinds
/// that take a backup, which exists now with the directories that lead to
/// it. Where that directory existed before and everything lies in a
/// directory that exists, nothing at all tells the filesystem from what it
/// was.
pub proof fn law_round_trip(
    op: OperationView,
    name: Seq<char>,
    fs: FsState,
    op_done: OperationView,
    fs_done: FsState,
    op_undone: OperationView,
    fs_undone: FsState,
)
    requires
        round_trip_ready(op, name, fs),
        executes(op, name, fs, op_done, fs_done),
        rolls_back(op_done, fs_done, op_undone, fs_undone),
    ensures
        settled(op_undone, fs_undone) == if op.takes_backup() {
            fs.with_dirs(locate(op.temp_dir))
        } else {
            fs
        },
        op.takes_backup() && fs.wf() && fs.is_dir(locate(op.temp_dir)) ==> settled(
            op_undone,
            fs_undone,
        ) == fs,
{
    lemma_executed_made_plan(op, name, fs, op_done, fs_done);
    lemma_rolled_back_made_plan(op_done, fs_done, op_undone, fs_undone);
    match op.kind {
        OpKind::CreateFile => {
            law_create_file_round_trip(op, name, fs, op_done, fs_done, op_undone, fs_undone);
        },
        OpKind::CreateDirectory => {
            law_create_dir_round_trip(op, name, fs, op_done, fs_done, op_undone, fs_undone);
        },
        OpKind::CopyFile => {
            law_copy_file_round_trip(op, name, fs, op_done, fs_done, op_undone, fs_undone);
        },
        OpKind::Move => {
            law_move_round_trip(op, name, fs, op_done, fs_done, op_undone, fs_undone);
        },
        OpKind::Write | OpKind::Append | OpKind::DeleteFile => {
            law_file_rollback_restores(op, name, fs, op_done, fs_done, op_undone, fs_undone);
        },
        OpKind::CopyDirectory => {
            law_copy_dir_round_trip(op, name, fs, op_done, fs_done, op_undone, fs_undone);
        },
        OpKind::DeleteDirectory => {
            law_delete_dir_rollback_restores(op, name, fs, op_done, fs_done, op_undone, fs_undone);
            lemma_locate_joined(op.temp_dir, name);
            assert(op_undone.backup_path == joined(op.temp_dir, name));
            assert(within(backup_key(op, name), backup_key(op, name))) by {
                lemma_within_self(backup_key(op, name), Seq::empty());
            }
            assert(!fs_undone.nodes.contains_key(backup_key(op, name)));
        },
    }
    if op.takes_backup() && fs.wf() && fs.is_dir(locate(op.temp_dir)) {
        let a = lemma_plan_post_step(op_done.execute_plan(), 0, fs, fs_done);
        lemma_with_dirs(fs, locate(op.temp_dir));
    }
}

/// For every kind of operation that takes a backup: after a rollback,
/// everything at the path of the operation and under it is there as it was
/// before the execution, with the same names and the same bytes, and nothing
/// else is there.
pub proof fn law_rollback_restores_target(
    op: OperationView,
    name: Seq<char>,
    fs: FsState,
    op_done: OperationView,
    fs_done: FsState,
    op_undone: OperationView,
    fs_undone: FsState,
    k: Key,
)
    requires
        op.takes_backup(),
        round_trip_ready(op, name, fs),
        executes(op, name, fs, op_done, fs_done),
        rolls_back(op_done, fs_done, op_undone, fs_undone),
        within(locate(op.source), k),
    ensures
        fs_undone.nodes.contains_key(k) == fs.nodes.contains_key(k),
        fs.nodes.contains_key(k) ==> fs_undone.nodes[k] == fs.nodes[k],
{
    let source = locate(op.source);
    let temp = locate(op.temp_dir);
    let backup = backup_key(op, name);
    lemma_within_self(temp, name);
    match op.kind {
        OpKind::Write | OpKind::Append | OpKind::DeleteFile => {
            law_file_rollback_restores(op, name, fs, op_done, fs_done, op_undone, fs_undone);
            lemma_executed_made_plan(op, name, fs, op_done, fs_done);
            let a = lemma_plan_post_step(op_done.execute_plan(), 0, fs, fs_done);
            assert(within(source, source)) by {
                lemma_within_self(source, Seq::empty());
            }
            if within(k, temp) {
                lemma_within_trans(source, k, temp);
            }
            if k == backup {
                lemma_leads_to_parent(source, temp, name);
            }
        },
        OpKind::DeleteDirectory => {
            law_delete_dir_rollback_restores(op, name, fs, op_done, fs_done, op_undone, fs_undone);
        },
        OpKind::CopyDirectory => {
            law_copy_dir_round_trip(op, name, fs, op_done, fs_done, op_undone, fs_undone);
            let a = fs.with_dirs(temp);
            let g = Graft { from: source, to: backup, start: a };
            if within(k, temp) {
                lemma_within_trans(source, k, temp);
            }
            if within(backup, k) {
                lemma_comparable(source, backup, k);
                if within(source, backup) {
                    assert(source != backup);
                    lemma_leads_to_parent(source, temp, name);
                }
                if within(backup, source) {
                    assert(source != backup);
                    lemma_ancestors_are_dirs(fs, backup, source);
                }
            }
            if within(k, backup) && k != backup {
                lemma_leads_to_parent(k, temp, name);
                lemma_within_trans(source, k, temp);
            }
        },
        _ => {},
    }
}

/// What the backup of a file leaves, taken by itself under the name `name`.
///
/// The backup path of the operation is the backup directory joined with the
/// name; the backup directory exists; the backup is a file that holds the
/// bytes that the file held, and the file holds them still. Nothing existed
/// by that name before, for the backup is written as a new file. The
/// filesystem is as it was but for the backup directory and the backup, and
/// the request that discards the backup removes that file.
pub proof fn law_file_backup(
    op: OperationView,
    name: Seq<char>,
    fs: FsState,
    op_done: OperationView,
    fs_done: FsState,
)
    requires
        saves_file(op.kind),
        is_entry_name(name),
        backs_up(op, name, fs, op_done, fs_done),
    ensures
        fs.is_file(locate(op.source)),
        !fs.nodes.contains_key(backup_key(op, name)),
        op_done.backup_path == joined(op.temp_dir, name),
        locate(op_done.backup_path) == backup_key(op, name),
        backup_key(op, name).drop_last() == locate(op.temp_dir),
        fs_done.is_dir(locate(op.temp_dir)),
        fs_done.is_file(backup_key(op, name)),
        fs_done.bytes(backup_key(op, name)) == fs.bytes(locate(op.source)),
        fs_done.is_file(locate(op.source)),
        fs_done.bytes(locate(op.source)) == fs.bytes(locate(op.source)),
        fs_done == fs.with_dirs(locate(op.temp_dir)).with_file(
            backup_key(op, name),
            fs.bytes(locate(op.source)),
        ),
        op_done.dispose_request() == Some(
            Request::RemoveFile { path: joined(op.temp_dir, name) },
        ),
{
    let source = locate(op.source);
    let temp = locate(op.temp_dir);
    let backup = backup_key(op, name);
    lemma_locate_joined(op.temp_dir, name);
    lemma_backed_up_made_plan(op, name, fs, op_done, fs_done);
    let plan = op_done.backup_plan();
    let a = lemma_plan_post_step(plan, 0, fs, fs_done);
    let b = lemma_plan_post_step(plan, 1, a, fs_done);
    assert(b == fs_done);
    assert(plan[0] == InstrView::EnsureDir { path: op.temp_dir });
    assert(plan[1] == InstrView::Transfer {
        from: op.source,
        to: op_done.candidate(),
        mode: WriteMode::CreateNew,
    });
    assert(a == fs.with_dirs(temp));
    lemma_within_self(temp, name);
    assert(backup.drop_last() =~= temp);
    assert(a.is_file(source));
    assert(source != backup);
    assert(fs.is_file(source) && fs.bytes(source) == a.bytes(source));
    assert(joined(op.temp_dir, name).len() > 0);
}

/// What the backup of a directory leaves, taken by itself under the name
/// `name`.
///
/// The backup path of the operation is the backup directory joined with the
/// name; under it lies exactly a copy of the tree, with the same names at
/// every depth and the same bytes; the tree itself is as it was. Nothing
/// existed by the name of the backup before. This holds where the backup of
/// the tree can be taken: the directory exists, and the backup directory
/// does not lie in the directory.
pub proof fn law_tree_backup(
    op: OperationView,
    name: Seq<char>,
    fs: FsState,
    op_done: OperationView,
    fs_done: FsState,
)
    requires
        op.kind == OpKind::CopyDirectory || op.kind == OpKind::DeleteDirectory,
        is_entry_name(name),
        tree_backup_ready(op, name, fs),
        backs_up(op, name, fs, op_done, fs_done),
    ensures
        op_done.backup_path == joined(op.temp_dir, name),
        locate(op_done.backup_path) == backup_key(op, name),
        fs_done.is_dir(locate(op.temp_dir)),
        holds_copy(fs, fs_done, locate(op.source), backup_key(op, name)),
        same_under(fs, fs_done, locate(op.source)),
        fs_done == with_backup(op, name, fs),
        op_done.dispose_request() == Some(
            Request::RemoveDirAll { path: joined(op.temp_dir, name) },
        ),
{
    let source = locate(op.source);
    let temp = locate(op.temp_dir);
    let backup = backup_key(op, name);
    lemma_locate_joined(op.temp_dir, name);
    lemma_backed_up_made_plan(op, name, fs, op_done, fs_done);
    let plan = op_done.backup_plan();
    let a = lemma_plan_post_step(plan, 0, fs, fs_done);
    let b = lemma_plan_post_step(plan, 1, a, fs_done);
    assert(b == fs_done);
    assert(plan[0] == InstrView::EnsureDir { path: op.temp_dir });
    assert(plan[1] == InstrView::CopyNewTree { from: op.source, to: joined(op.temp_dir, name) });
    lemma_tree_backup(op, name, fs, a, b);
    lemma_grafted(a, source, backup, temp);
    assert(joined(op.temp_dir, name).len() > 0);
}

} // verus!
