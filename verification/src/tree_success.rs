//! When a copy of a directory tree is owed its good end: on a tree that is
//! finite, with names that can name entries, into a destination at which
//! nothing exists and to which directories can be made, the filesystem can
//! answer every request of the walk, and the walk then ends well.
//!
//! A tree is finite where it has a depth that no path in it exceeds and
//! where every directory in it can be listed.

use vstd::prelude::*;
use crate::model::{
    lemma_ancestors_are_dirs, lemma_comparable, lemma_locate_joined, lemma_within_self,
    lemma_within_trans, locate, within, FsState, Key,
};
use crate::path::{is_entry_name, joined};
use crate::protocol::{Entry, Reply, StepView};
use crate::trace::walk_trace;
use crate::tree::{TreeCopyView, WalkStage};
use crate::tree_laws::{
    base_inv, failed, law_walk_copies_tree, lemma_between, lemma_keys_match,
    lemma_source_untouched, lemma_walk_starts, lemma_walk_step, walk_inv, Graft,
};

verus! {

/// Whether nothing under `root` lies more than `depth` levels below it.
pub open spec fn shallow(fs: FsState, root: Key, depth: nat) -> bool {
    forall|k: Key| #[trigger]
        fs.nodes.contains_key(k) && within(root, k) ==> k.len() <= root.len() + depth
}

/// Whether the tree at `root` is finite and well named: it is no deeper
/// than `depth`, every directory in it can be listed, and every name in it
/// can name an entry.
pub open spec fn tree_finite(fs: FsState, root: Key, depth: nat) -> bool {
    &&& shallow(fs, root, depth)
    &&& forall|k: Key|
        #![trigger fs.nodes.contains_key(k)]
        fs.nodes.contains_key(k) && within(root, k) && fs.nodes[k] is Dir ==> exists|
            entries: Seq<Entry>,
        | #[trigger] fs.lists(k, entries)
    &&& forall|k: Key|
        #![trigger fs.nodes.contains_key(k)]
        fs.nodes.contains_key(k) && within(root, k) && k != root ==> is_entry_name(k.last())
}

/// Whether the tree at `from` can be copied to `to` for certain: a copy can
/// be made there without meeting anything, no file stands where a directory
/// leading to the destination is to be, and the tree is finite and well
/// named.
pub open spec fn tree_ready(fs: FsState, from: Key, to: Key, depth: nat) -> bool {
    &&& fs.can_graft(from, to)
    &&& forall|k: Key| #[trigger] within(k, to) ==> !fs.is_file(k)
    &&& tree_finite(fs, from, depth)
}

/// A tree that is finite and well named in one filesystem is so in every
/// filesystem that holds the same under its root.
pub proof fn lemma_tree_finite_same(fs: FsState, other: FsState, root: Key, depth: nat)
    requires
        tree_finite(fs, root, depth),
        forall|k: Key|
            #![trigger other.nodes.contains_key(k)]
            within(root, k) ==> other.nodes.contains_key(k) == fs.nodes.contains_key(k) && (
            fs.nodes.contains_key(k) ==> other.nodes[k] == fs.nodes[k]),
    ensures
        tree_finite(other, root, depth),
{
    assert forall|k: Key|
        #![trigger other.nodes.contains_key(k)]
        other.nodes.contains_key(k) && within(root, k) && other.nodes[k] is Dir implies exists|
        entries: Seq<Entry>,
    | #[trigger] other.lists(k, entries) by {
        assert(fs.nodes.contains_key(k));
        let entries = choose|entries: Seq<Entry>| #[trigger] fs.lists(k, entries);
        assert forall|i: int| 0 <= i < entries.len() implies {
            &&& other.nodes.contains_key(k.push(#[trigger] entries[i].name))
            &&& entries[i].is_dir == (other.nodes[k.push(entries[i].name)] is Dir)
        } by {
            let child = k.push(entries[i].name);
            lemma_within_self(k, entries[i].name);
            lemma_within_trans(root, k, child);
            assert(fs.nodes.contains_key(child));
            assert(other.nodes.contains_key(child) == fs.nodes.contains_key(child));
        }
        assert forall|child: Key| #[trigger]
            other.nodes.contains_key(child) && child.len() == k.len() + 1 && within(
                k,
                child,
            ) implies exists|i: int| 0 <= i < entries.len() && entries[i].name == child.last() by {
            lemma_within_trans(root, k, child);
            assert(fs.nodes.contains_key(child));
        }
        assert(other.lists(k, entries));
    }
    assert forall|k: Key| #[trigger]
        other.nodes.contains_key(k) && within(root, k) implies k.len() <= root.len() + depth by {
        assert(fs.nodes.contains_key(k));
    }
    assert forall|k: Key|
        #![trigger other.nodes.contains_key(k)]
        other.nodes.contains_key(k) && within(root, k) && k != root implies is_entry_name(
        k.last(),
    ) by {
        assert(fs.nodes.contains_key(k));
    }
}

/// A trace over replies put one after the other is the trace over the
/// first, gone on with over the second.
pub proof fn lemma_trace_concat(
    walk: TreeCopyView,
    step: StepView,
    fs: FsState,
    first: Seq<Reply>,
    second: Seq<Reply>,
)
    ensures
        walk_trace(walk, step, fs, first + second) == match walk_trace(walk, step, fs, first) {
            Some((w, s, f)) => walk_trace(w, s, f, second),
            None => None,
        },
    decreases first.len(),
{
    if first.len() == 0 {
        assert(first + second =~= second);
    } else {
        let all = first + second;
        assert(all[0] == first[0]);
        assert(all.drop_first() =~= first.drop_first() + second);
        match step {
            StepView::Ask(request) => {
                if fs.admits(request, first[0]) {
                    let advanced = walk.advance(first[0]);
                    lemma_trace_concat(
                        advanced.0,
                        advanced.1,
                        fs.after(request, first[0]),
                        first.drop_first(),
                        second,
                    );
                }
            },
            StepView::Finished(_) => {},
        }
    }
}

/// Whether the walk is where it takes the next directory off the stack
/// `before`: finished where the stack is empty, and else asking whether the
/// destination of the last directory on it exists.
pub open spec fn at_visit(
    walk: TreeCopyView,
    step: StepView,
    before: Seq<(Seq<char>, Seq<char>)>,
) -> bool {
    if before.len() == 0 {
        walk.stage == WalkStage::Finished && step == StepView::Finished(Ok(()))
    } else {
        &&& walk.stage == WalkStage::Probing
        &&& walk.stack == before.drop_last()
        &&& walk.src_dir == before.last().0
        &&& walk.dst_dir == before.last().1
    }
}

/// Whether the stack `grown` is the stack `stack` with directories put on it
/// that lie directly in the directory `dir`.
pub open spec fn grown_stack(
    stack: Seq<(Seq<char>, Seq<char>)>,
    grown: Seq<(Seq<char>, Seq<char>)>,
    dir: Key,
) -> bool {
    &&& grown.len() >= stack.len()
    &&& grown.take(stack.len() as int) == stack
    &&& forall|i: int|
        stack.len() <= i < grown.len() ==> locate((#[trigger] grown[i]).0).len() == dir.len() + 1
            && within(dir, locate(grown[i].0))
}

/// Whether every entry of the listing from `next` on has a name that can
/// name an entry.
pub open spec fn names_fit(walk: TreeCopyView) -> bool {
    forall|j: int| walk.next <= j < walk.entries.len() ==> is_entry_name(
        (#[trigger] walk.entries[j]).name,
    )
}

/// Where going through a listing gets to, when every name fits: to the next
/// file of the listing, or to the end of the listing, with the
/// subdirectories that it passed put on the stack.
pub proof fn lemma_scan_shape(walk: TreeCopyView) -> (before: Seq<(Seq<char>, Seq<char>)>)
    requires
        names_fit(walk),
    ensures
        grown_stack(walk.stack, before, locate(walk.src_dir)),
        !failed(walk.scan().1),
        at_visit(walk.scan().0, walk.scan().1, before) || ({
            let reached = walk.scan().0;
            &&& reached.stage == WalkStage::Loading
            &&& reached.stack == before
            &&& reached.entries == walk.entries
            &&& reached.src_dir == walk.src_dir
            &&& reached.dst_dir == walk.dst_dir
            &&& walk.next <= reached.next < walk.entries.len()
        }),
    decreases walk.entries.len() - walk.next,
{
    let dir = locate(walk.src_dir);
    if walk.next >= walk.entries.len() {
        assert(walk.stack.take(walk.stack.len() as int) =~= walk.stack);
        walk.stack
    } else {
        let entry = walk.entries[walk.next as int];
        if entry.is_dir {
            let pair = (joined(walk.src_dir, entry.name), joined(walk.dst_dir, entry.name));
            let next = TreeCopyView { stack: walk.stack.push(pair), next: walk.next + 1, ..walk };
            let before = lemma_scan_shape(next);
            lemma_locate_joined(walk.src_dir, entry.name);
            lemma_within_self(dir, entry.name);
            assert(before.take(walk.stack.len() as int) =~= before.take(
                next.stack.len() as int,
            ).take(walk.stack.len() as int));
            assert(next.stack.take(walk.stack.len() as int) =~= walk.stack);
            assert forall|i: int| walk.stack.len() <= i < before.len() implies locate(
                (#[trigger] before[i]).0,
            ).len() == dir.len() + 1 && within(dir, locate(before[i].0)) by {
                if i == walk.stack.len() {
                    assert(before[i] == before.take(next.stack.len() as int)[i]);
                    assert(next.stack[i] == pair);
                }
            }
            before
        } else {
            assert(walk.stack.take(walk.stack.len() as int) =~= walk.stack);
            walk.stack
        }
    }
}

/// The names of a listing of a directory of the tree can all name entries.
proof fn lemma_names_fit(g: Graft, depth: nat, dir: Key, entries: Seq<Entry>)
    requires
        tree_ready(g.start, g.from, g.to, depth),
        within(g.from, dir),
        g.start.lists(dir, entries),
    ensures
        forall|j: int| 0 <= j < entries.len() ==> is_entry_name((#[trigger] entries[j]).name),
{
    assert forall|j: int| 0 <= j < entries.len() implies is_entry_name(
        (#[trigger] entries[j]).name,
    ) by {
        let child = dir.push(entries[j].name);
        lemma_within_self(dir, entries[j].name);
        lemma_within_trans(g.from, dir, child);
        assert(g.start.nodes.contains_key(child));
        assert(child.last() == entries[j].name);
    }
}

/// One reply that the filesystem can give leads the trace one step on.
proof fn lemma_trace_step(
    walk: TreeCopyView,
    step: StepView,
    fs: FsState,
    reply: Reply,
    rest: Seq<Reply>,
)
    requires
        step is Ask,
        fs.admits(step->Ask_0, reply),
    ensures
        walk_trace(walk, step, fs, seq![reply] + rest) == walk_trace(
            walk.advance(reply).0,
            walk.advance(reply).1,
            fs.after(step->Ask_0, reply),
            rest,
        ),
{
    let all = seq![reply] + rest;
    assert(all[0] == reply);
    assert(all.drop_first() =~= rest);
}

/// Nothing existed at the destination or under it when the copy started.
proof fn lemma_dest_vacant(g: Graft, depth: nat, k: Key)
    requires
        tree_ready(g.start, g.from, g.to, depth),
        within(g.to, k),
    ensures
        !g.start.nodes.contains_key(k),
{
    if g.start.nodes.contains_key(k) {
        if k != g.to {
            lemma_ancestors_are_dirs(g.start, g.to, k);
        }
    }
}

/// The filesystem can make the destination directory when the walk asks
/// for it.
proof fn lemma_can_create(g: Graft, depth: nat, walk: TreeCopyView, step: StepView, fs: FsState)
    requires
        tree_ready(g.start, g.from, g.to, depth),
        walk_inv(g, walk, step, fs),
        walk.stage == WalkStage::Creating,
    ensures
        step is Ask,
        fs.admits(step->Ask_0, Reply::Done),
{
    reveal(base_inv);
    let dir = locate(walk.src_dir);
    let dest = locate(walk.dst_dir);
    lemma_keys_match(g, dir);
    assert forall|k: Key| #[trigger] within(k, dest) implies !fs.is_file(k) by {
        if fs.is_file(k) {
            lemma_comparable(k, g.to, dest);
            if g.start.nodes.contains_key(k) {
                if within(g.to, k) {
                    lemma_dest_vacant(g, depth, k);
                }
                assert(!g.is_file_copy(fs, k)) by {
                    if g.is_file_copy(fs, k) {
                        lemma_dest_vacant(g, depth, k);
                    }
                }
            } else {
                assert(g.is_added(fs, k));
                if g.is_copy(fs, k) {
                    lemma_between(g, k, dir);
                    if g.src_of(k) != dir {
                        lemma_ancestors_are_dirs(g.start, g.src_of(k), dir);
                    }
                }
            }
        }
    }
}

/// The filesystem can list the directory under visit when the walk asks
/// for it, and the listing is the one that the tree had at the start.
proof fn lemma_can_list(
    g: Graft,
    walk: TreeCopyView,
    step: StepView,
    fs: FsState,
    entries: Seq<Entry>,
)
    requires
        walk_inv(g, walk, step, fs),
        walk.stage == WalkStage::Listing,
        g.start.lists(locate(walk.src_dir), entries),
    ensures
        step is Ask,
        fs.admits(step->Ask_0, Reply::Entries(entries)),
{
    let dir = locate(walk.src_dir);
    lemma_source_untouched(g, fs, dir);
    assert forall|i: int| 0 <= i < entries.len() implies {
        &&& fs.nodes.contains_key(dir.push(#[trigger] entries[i].name))
        &&& entries[i].is_dir == (fs.nodes[dir.push(entries[i].name)] is Dir)
    } by {
        lemma_within_self(dir, entries[i].name);
        lemma_within_trans(g.from, dir, dir.push(entries[i].name));
        lemma_source_untouched(g, fs, dir.push(entries[i].name));
    }
    assert forall|child: Key| #[trigger]
        fs.nodes.contains_key(child) && child.len() == dir.len() + 1 && within(
            dir,
            child,
        ) implies exists|i: int| 0 <= i < entries.len() && entries[i].name == child.last() by {
        lemma_within_trans(g.from, dir, child);
        lemma_source_untouched(g, fs, child);
        assert(g.start.nodes.contains_key(child));
    }
}

/// The filesystem can hand out the bytes of the file under copy.
proof fn lemma_can_read(g: Graft, walk: TreeCopyView, step: StepView, fs: FsState)
    requires
        walk_inv(g, walk, step, fs),
        walk.stage == WalkStage::Loading,
    ensures
        step is Ask,
        fs.admits(
            step->Ask_0,
            Reply::Bytes(
                g.start.bytes(locate(walk.src_dir).push(walk.entries[walk.next as int].name)),
            ),
        ),
{
    let dir = locate(walk.src_dir);
    let name = walk.entries[walk.next as int].name;
    let source = dir.push(name);
    lemma_locate_joined(walk.src_dir, name);
    lemma_within_self(dir, name);
    lemma_within_trans(g.from, dir, source);
    lemma_source_untouched(g, fs, source);
    assert(g.start.nodes.contains_key(source));
}

/// The filesystem can write the copy of the file under copy.
proof fn lemma_can_write(g: Graft, depth: nat, walk: TreeCopyView, step: StepView, fs: FsState)
    requires
        tree_ready(g.start, g.from, g.to, depth),
        walk_inv(g, walk, step, fs),
        walk.stage == WalkStage::Storing,
    ensures
        step is Ask,
        fs.admits(step->Ask_0, Reply::Done),
{
    reveal(base_inv);
    let dir = locate(walk.src_dir);
    let name = walk.entries[walk.next as int].name;
    let source = dir.push(name);
    let dest = g.dst_of(source);
    lemma_locate_joined(walk.dst_dir, name);
    lemma_within_self(dir, name);
    lemma_within_trans(g.from, dir, source);
    lemma_keys_match(g, dir);
    lemma_keys_match(g, source);
    assert(locate(joined(walk.dst_dir, name)) == dest);
    assert(dest.drop_last() =~= g.dst_of(dir));
    lemma_dest_vacant(g, depth, g.dst_of(dir));
    lemma_dest_vacant(g, depth, dest);
    assert(g.copied(fs, dir));
    assert(fs.is_dir(g.dst_of(dir)));
    assert(g.start.nodes.contains_key(source) && !(g.start.nodes[source] is Dir));
    if fs.nodes.contains_key(dest) {
        assert(g.is_added(fs, dest));
        if g.leads_to_dest(fs, dest) {
            assert(dest.len() > g.to.len());
        }
    }
}

/// The files of the listing under way, from the one under copy on, can all
/// be copied; the walk then takes the next directory off the stack, on
/// which the subdirectories of the listing lie.
proof fn lemma_files_succeed(
    g: Graft,
    depth: nat,
    walk: TreeCopyView,
    step: StepView,
    fs: FsState,
) -> (r: (Seq<Reply>, TreeCopyView, StepView, FsState, Seq<(Seq<char>, Seq<char>)>))
    requires
        tree_ready(g.start, g.from, g.to, depth),
        walk_inv(g, walk, step, fs),
        walk.stage == WalkStage::Loading,
    ensures
        walk_trace(walk, step, fs, r.0) == Some((r.1, r.2, r.3)),
        walk_inv(g, r.1, r.2, r.3),
        at_visit(r.1, r.2, r.4),
        grown_stack(walk.stack, r.4, locate(walk.src_dir)),
    decreases walk.entries.len() - walk.next,
{
    let dir = locate(walk.src_dir);
    let name = walk.entries[walk.next as int].name;
    let first = Reply::Bytes(g.start.bytes(dir.push(name)));
    lemma_can_read(g, walk, step, fs);
    let loaded = walk.advance(first);
    let fs1 = fs.after(step->Ask_0, first);
    lemma_walk_step(g, walk, step, fs, first);
    assert(!failed(loaded.1));
    lemma_can_write(g, depth, loaded.0, loaded.1, fs1);
    let stored = loaded.0.advance(Reply::Done);
    let fs2 = fs1.after(loaded.1->Ask_0, Reply::Done);
    let moved_on = TreeCopyView { next: loaded.0.next + 1, ..loaded.0 };
    assert(stored == moved_on.scan());
    lemma_names_fit(g, depth, dir, walk.entries);
    let shape = lemma_scan_shape(moved_on);
    lemma_walk_step(g, loaded.0, loaded.1, fs1, Reply::Done);
    if at_visit(stored.0, stored.1, shape) {
        let replies = seq![first] + (seq![Reply::Done] + Seq::<Reply>::empty());
        lemma_trace_step(loaded.0, loaded.1, fs1, Reply::Done, Seq::empty());
        lemma_trace_step(walk, step, fs, first, seq![Reply::Done] + Seq::<Reply>::empty());
        (replies, stored.0, stored.1, fs2, shape)
    } else {
        let rest = lemma_files_succeed(g, depth, stored.0, stored.1, fs2);
        let replies = seq![first] + (seq![Reply::Done] + rest.0);
        lemma_trace_step(loaded.0, loaded.1, fs1, Reply::Done, rest.0);
        lemma_trace_step(walk, step, fs, first, seq![Reply::Done] + rest.0);
        lemma_grown_twice(walk.stack, shape, rest.4, dir);
        (replies, rest.1, rest.2, rest.3, rest.4)
    }
}

/// From where the walk asks whether the destination of a directory exists,
/// it gets to where it asks for the listing of the directory.
proof fn lemma_reach_listing(
    g: Graft,
    total: nat,
    walk: TreeCopyView,
    step: StepView,
    fs: FsState,
) -> (r: (Seq<Reply>, TreeCopyView, StepView, FsState))
    requires
        tree_ready(g.start, g.from, g.to, total),
        walk_inv(g, walk, step, fs),
        walk.stage == WalkStage::Probing,
    ensures
        walk_trace(walk, step, fs, r.0) == Some((r.1, r.2, r.3)),
        walk_inv(g, r.1, r.2, r.3),
        r.1.stage == WalkStage::Listing,
        r.1.src_dir == walk.src_dir,
        r.1.stack == walk.stack,
{
    let there = fs.present(locate(walk.dst_dir));
    let probe = Reply::Found(there);
    let probed = walk.advance(probe);
    lemma_walk_step(g, walk, step, fs, probe);
    assert(fs.after(step->Ask_0, probe) == fs);
    if there {
        lemma_trace_step(walk, step, fs, probe, Seq::empty());
        (seq![probe] + Seq::<Reply>::empty(), probed.0, probed.1, fs)
    } else {
        lemma_can_create(g, total, probed.0, probed.1, fs);
        let made = probed.0.advance(Reply::Done);
        let fs1 = fs.after(probed.1->Ask_0, Reply::Done);
        lemma_walk_step(g, probed.0, probed.1, fs, Reply::Done);
        lemma_trace_step(probed.0, probed.1, fs, Reply::Done, Seq::empty());
        lemma_trace_step(walk, step, fs, probe, seq![Reply::Done] + Seq::<Reply>::empty());
        (seq![probe] + (seq![Reply::Done] + Seq::<Reply>::empty()), made.0, made.1, fs1)
    }
}

/// Putting directories on a stack that has grown is growing the stack.
proof fn lemma_grown_twice(
    stack: Seq<(Seq<char>, Seq<char>)>,
    middle: Seq<(Seq<char>, Seq<char>)>,
    grown: Seq<(Seq<char>, Seq<char>)>,
    dir: Key,
)
    requires
        grown_stack(stack, middle, dir),
        grown_stack(middle, grown, dir),
    ensures
        grown_stack(stack, grown, dir),
{
    assert(grown.take(stack.len() as int) =~= grown.take(middle.len() as int).take(
        stack.len() as int,
    ));
    assert forall|i: int| stack.len() <= i < grown.len() implies locate(
        (#[trigger] grown[i]).0,
    ).len() == dir.len() + 1 && within(dir, locate(grown[i].0)) by {
        if i < middle.len() {
            assert(grown[i] == grown.take(middle.len() as int)[i]);
        }
    }
}

/// From where the walk asks for the listing of a directory, it gets to
/// where it takes the next directory off the stack, on which the
/// subdirectories of the directory lie; every file of the directory is
/// copied by then.
proof fn lemma_list_succeeds(
    g: Graft,
    total: nat,
    walk: TreeCopyView,
    step: StepView,
    fs: FsState,
) -> (r: (Seq<Reply>, TreeCopyView, StepView, FsState, Seq<(Seq<char>, Seq<char>)>))
    requires
        tree_ready(g.start, g.from, g.to, total),
        walk_inv(g, walk, step, fs),
        walk.stage == WalkStage::Listing,
    ensures
        walk_trace(walk, step, fs, r.0) == Some((r.1, r.2, r.3)),
        walk_inv(g, r.1, r.2, r.3),
        at_visit(r.1, r.2, r.4),
        grown_stack(walk.stack, r.4, locate(walk.src_dir)),
{
    let dir = locate(walk.src_dir);
    assert(g.start.nodes.contains_key(dir));
    let entries = choose|entries: Seq<Entry>| #[trigger] g.start.lists(dir, entries);
    lemma_can_list(g, walk, step, fs, entries);
    let reply = Reply::Entries(entries);
    let listed = TreeCopyView { entries, next: 0, ..walk };
    let scanned = walk.advance(reply);
    assert(scanned == listed.scan());
    lemma_names_fit(g, total, dir, entries);
    let shape = lemma_scan_shape(listed);
    lemma_walk_step(g, walk, step, fs, reply);
    assert(fs.after(step->Ask_0, reply) == fs);
    if at_visit(scanned.0, scanned.1, shape) {
        lemma_trace_step(walk, step, fs, reply, Seq::empty());
        (seq![reply] + Seq::<Reply>::empty(), scanned.0, scanned.1, fs, shape)
    } else {
        let files = lemma_files_succeed(g, total, scanned.0, scanned.1, fs);
        lemma_trace_step(walk, step, fs, reply, files.0);
        lemma_grown_twice(walk.stack, shape, files.4, dir);
        (seq![reply] + files.0, files.1, files.2, files.3, files.4)
    }
}

/// The directories that lie directly in a directory are each one level less
/// deep than the directory.
proof fn lemma_children_shallow(
    g: Graft,
    stack: Seq<(Seq<char>, Seq<char>)>,
    before: Seq<(Seq<char>, Seq<char>)>,
    dir: Key,
    depth: nat,
)
    requires
        depth > 0,
        shallow(g.start, dir, depth),
        grown_stack(stack, before, dir),
    ensures
        forall|i: int|
            stack.len() <= i < before.len() ==> shallow(
                g.start,
                locate((#[trigger] before[i]).0),
                (depth - 1) as nat,
            ),
{
    assert forall|i: int| stack.len() <= i < before.len() implies shallow(
        g.start,
        locate((#[trigger] before[i]).0),
        (depth - 1) as nat,
    ) by {
        let child = locate(before[i].0);
        assert forall|k: Key| #[trigger]
            g.start.nodes.contains_key(k) && within(child, k) implies k.len() <= child.len() + (
        depth - 1) by {
            lemma_within_trans(dir, child, k);
        }
    }
}

/// A directory of the tree, with everything under it, can be copied: from
/// where the walk asks whether its destination exists, the walk gets to
/// where it takes the next directory off the stack as it was.
proof fn lemma_visit_succeeds(
    g: Graft,
    total: nat,
    walk: TreeCopyView,
    step: StepView,
    fs: FsState,
    depth: nat,
) -> (r: (Seq<Reply>, TreeCopyView, StepView, FsState))
    requires
        tree_ready(g.start, g.from, g.to, total),
        walk_inv(g, walk, step, fs),
        walk.stage == WalkStage::Probing,
        shallow(g.start, locate(walk.src_dir), depth),
    ensures
        walk_trace(walk, step, fs, r.0) == Some((r.1, r.2, r.3)),
        walk_inv(g, r.1, r.2, r.3),
        at_visit(r.1, r.2, walk.stack),
    decreases depth, 0nat,
{
    let dir = locate(walk.src_dir);
    let head = lemma_reach_listing(g, total, walk, step, fs);
    let tail = lemma_list_succeeds(g, total, head.1, head.2, head.3);
    let before = tail.4;
    lemma_trace_concat(walk, step, fs, head.0, tail.0);
    if before.len() == walk.stack.len() {
        assert(before =~= walk.stack) by {
            assert(before.take(before.len() as int) =~= before);
        }
        (head.0 + tail.0, tail.1, tail.2, tail.3)
    } else {
        let last = before.len() - 1;
        assert(tail.1.src_dir == before[last].0);
        assert(g.pair_ok(tail.3, (tail.1.src_dir, tail.1.dst_dir)));
        assert(g.start.nodes.contains_key(locate(before[last].0)));
        lemma_within_self(locate(before[last].0), Seq::empty());
        assert(depth > 0);
        lemma_children_shallow(g, walk.stack, before, dir, depth);
        let drained = lemma_drain_succeeds(
            g,
            total,
            tail.1,
            tail.2,
            tail.3,
            walk.stack,
            before,
            (depth - 1) as nat,
        );
        lemma_trace_concat(walk, step, fs, head.0 + tail.0, drained.0);
        (head.0 + tail.0 + drained.0, drained.1, drained.2, drained.3)
    }
}

/// The directories on the stack above `rest`, each with everything under
/// it, can all be copied: the walk gets to where it takes the next directory
/// off the stack `rest`.
proof fn lemma_drain_succeeds(
    g: Graft,
    total: nat,
    walk: TreeCopyView,
    step: StepView,
    fs: FsState,
    rest: Seq<(Seq<char>, Seq<char>)>,
    before: Seq<(Seq<char>, Seq<char>)>,
    depth: nat,
) -> (r: (Seq<Reply>, TreeCopyView, StepView, FsState))
    requires
        tree_ready(g.start, g.from, g.to, total),
        walk_inv(g, walk, step, fs),
        at_visit(walk, step, before),
        before.len() >= rest.len(),
        before.take(rest.len() as int) == rest,
        forall|i: int|
            rest.len() <= i < before.len() ==> shallow(
                g.start,
                locate((#[trigger] before[i]).0),
                depth,
            ),
    ensures
        walk_trace(walk, step, fs, r.0) == Some((r.1, r.2, r.3)),
        walk_inv(g, r.1, r.2, r.3),
        at_visit(r.1, r.2, rest),
    decreases depth, 1 + before.len() - rest.len(),
{
    if before.len() == rest.len() {
        assert(before =~= rest) by {
            assert(before.take(before.len() as int) =~= before);
        }
        (Seq::empty(), walk, step, fs)
    } else {
        let last = before.len() - 1;
        assert(walk.src_dir == before[last].0);
        let visited = lemma_visit_succeeds(g, total, walk, step, fs, depth);
        let shorter = before.drop_last();
        assert(shorter.take(rest.len() as int) =~= rest);
        assert forall|i: int| rest.len() <= i < shorter.len() implies shallow(
            g.start,
            locate((#[trigger] shorter[i]).0),
            depth,
        ) by {
            assert(shorter[i] == before[i]);
        }
        let drained = lemma_drain_succeeds(
            g,
            total,
            visited.1,
            visited.2,
            visited.3,
            rest,
            shorter,
            depth,
        );
        lemma_trace_concat(walk, step, fs, visited.0, drained.0);
        (visited.0 + drained.0, drained.1, drained.2, drained.3)
    }
}

/// A copy of a finite tree ends well.
///
/// Where the tree at the source is no deeper than some depth, every
/// directory in it can be listed, every name in it can name an entry,
/// nothing exists at the destination, neither of source and destination
/// lies in the other, and no file stands where a directory leading to the
/// destination is to be, there are replies that the filesystem can give to
/// the walk, one after the other, on which the walk ends well; and the
/// filesystem then holds the copy.
pub proof fn law_walk_succeeds(from: Seq<char>, to: Seq<char>, fs: FsState, depth: nat) -> (r: (
    Seq<Reply>,
    TreeCopyView,
))
    requires
        tree_ready(fs, locate(from), locate(to), depth),
    ensures
        walk_trace(TreeCopyView::start(from, to).0, TreeCopyView::start(from, to).1, fs, r.0)
            == Some((r.1, StepView::Finished(Ok(())), fs.grafted(locate(from), locate(to)))),
{
    let g = Graft { from: locate(from), to: locate(to), start: fs };
    let started = TreeCopyView::start(from, to);
    lemma_walk_starts(from, to, fs);
    let done = lemma_visit_succeeds(g, depth, started.0, started.1, fs, depth);
    law_walk_copies_tree(from, to, fs, done.0, done.1, done.3);
    (done.0, done.1)
}

} // verus!
