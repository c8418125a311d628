//! What a copy of a directory tree does to the filesystem of the model.
//!
//! The statements at the end of this file: a walk that ends well, from a
//! source directory into a destination that lies neither in the source nor
//! above it, fills the destination with the source tree and leaves what the
//! destination held under other names; where nothing existed at the
//! destination, it leaves the filesystem as it was plus a copy of the whole
//! source tree there. The rest of the file is the invariant that every step
//! of the walk keeps, and its proof.

use vstd::prelude::*;
use crate::model::{
    lemma_ancestors_are_dirs, lemma_comparable, lemma_filled_is_grafted, lemma_locate_joined,
    lemma_within_self, lemma_within_trans, locate, rebase, within, FsState, Key, Node,
};
use crate::path::{is_entry_name, joined};
use crate::protocol::{Entry, Reply, Request, StepView, WriteMode};
use crate::trace::{ended_well, walk_ends, walk_trace};
use crate::tree::{TreeCopyView, WalkStage};

verus! {

/// A copy under way: the key of the source, the key of the destination, and
/// the filesystem as it was when the copy started.
pub struct Graft {
    pub from: Key,
    pub to: Key,
    pub start: FsState,
}

impl Graft {
    /// Where the copy starts from: everything lies in a directory that
    /// exists, the source is a directory, and neither of source and
    /// destination lies in the other.
    pub open spec fn ok(self) -> bool {
        self.start.can_fill(self.from, self.to)
    }

    /// The key in the destination that stands for the key `source` in the
    /// source.
    pub open spec fn dst_of(self, source: Key) -> Key {
        rebase(self.from.len() as int, self.to, source)
    }

    /// The key in the source that the key `dest` in the destination stands
    /// for.
    pub open spec fn src_of(self, dest: Key) -> Key {
        rebase(self.to.len() as int, self.from, dest)
    }

    /// Whether what is at `k` is the copy of a file of the source.
    pub open spec fn is_file_copy(self, fs: FsState, k: Key) -> bool {
        self.is_copy(fs, k) && self.start.nodes[self.src_of(k)] is File
    }

    /// Whether everything that existed at the start still exists, and is
    /// unchanged unless the copy of a file has taken its place.
    pub open spec fn keeps(self, fs: FsState) -> bool {
        forall|k: Key| #[trigger]
            self.start.nodes.contains_key(k) ==> fs.nodes.contains_key(k) && (fs.nodes[k]
                == self.start.nodes[k] || self.is_file_copy(fs, k))
    }

    /// Whether `k` is a directory that leads to the destination.
    pub open spec fn leads_to_dest(self, fs: FsState, k: Key) -> bool {
        k.len() > 0 && within(k, self.to) && fs.nodes[k] is Dir
    }

    /// Whether what is at `k` is the copy of what was at the matching key in
    /// the source.
    pub open spec fn is_copy(self, fs: FsState, k: Key) -> bool {
        &&& within(self.to, k)
        &&& self.start.nodes.contains_key(self.src_of(k))
        &&& within(self.from, self.src_of(k))
        &&& fs.nodes[k] == self.start.nodes[self.src_of(k)]
    }

    /// Whether `k` exists now and did not at the start.
    pub open spec fn is_added(self, fs: FsState, k: Key) -> bool {
        fs.nodes.contains_key(k) && !self.start.nodes.contains_key(k)
    }

    /// Whether everything that exists now and did not at the start is a
    /// directory that leads to the destination or a copy.
    pub open spec fn adds_only(self, fs: FsState) -> bool {
        forall|k: Key| #[trigger]
            self.is_added(fs, k) ==> self.leads_to_dest(fs, k) || self.is_copy(fs, k)
    }

    /// What stands for a directory of the source once it is copied: what
    /// was at its place before, or else a directory.
    pub open spec fn dir_copy(self, source: Key) -> Node {
        if self.start.nodes.contains_key(self.dst_of(source)) {
            self.start.nodes[self.dst_of(source)]
        } else {
            Node::Dir
        }
    }

    /// Whether the copy of what was at `source` is in place: for a file the
    /// file with its bytes, for a directory what was there before or else a
    /// directory.
    pub open spec fn copied(self, fs: FsState, source: Key) -> bool {
        &&& fs.nodes.contains_key(self.dst_of(source))
        &&& fs.nodes[self.dst_of(source)] == if self.start.nodes[source] is File {
            self.start.nodes[source]
        } else {
            self.dir_copy(source)
        }
    }

    /// Whether a pair of paths names a directory of the source and the
    /// place of its copy.
    pub open spec fn pair_ok(self, fs: FsState, pair: (Seq<char>, Seq<char>)) -> bool {
        let source = locate(pair.0);
        &&& within(self.from, source)
        &&& self.start.nodes.contains_key(source)
        &&& self.start.nodes[source] is Dir
        &&& locate(pair.1) == self.dst_of(source)
    }

    /// Whether every pair on the stack is such a pair.
    pub open spec fn stack_ok(self, fs: FsState, stack: Seq<(Seq<char>, Seq<char>)>) -> bool {
        forall|i: int| 0 <= i < stack.len() ==> self.pair_ok(fs, #[trigger] stack[i])
    }
}

/// Whether `source` is a directory on the stack or lies under one.
pub open spec fn on_stack(stack: Seq<(Seq<char>, Seq<char>)>, source: Key) -> bool {
    exists|i: int| 0 <= i < stack.len() && within(locate((#[trigger] stack[i]).0), source)
}

/// Whether `source` is an entry of the listing from `next` on, or lies
/// under one.
pub open spec fn in_listing(dir: Key, entries: Seq<Entry>, next: nat, source: Key) -> bool {
    exists|j: int|
        next <= j < entries.len() && within(dir.push((#[trigger] entries[j]).name), source)
}

/// Whether the walk still has `source` before it.
pub open spec fn pending(walk: TreeCopyView, source: Key) -> bool {
    let dir = locate(walk.src_dir);
    on_stack(walk.stack, source) || match walk.stage {
        WalkStage::Probing | WalkStage::Creating => within(dir, source),
        WalkStage::Listing => within(dir, source) && source != dir,
        WalkStage::Loading | WalkStage::Storing => in_listing(
            dir,
            walk.entries,
            walk.next,
            source,
        ),
        _ => false,
    }
}

/// Whether everything of the source is copied or still before the walk,
/// where `later` tells what is still before it.
pub open spec fn progress(g: Graft, fs: FsState, later: spec_fn(Key) -> bool) -> bool {
    forall|k: Key| #[trigger]
        g.start.nodes.contains_key(k) && within(g.from, k) ==> g.copied(fs, k) || later(k)
}

/// What holds of the filesystem all through a walk.
#[verifier::opaque]
pub open spec fn base_inv(g: Graft, fs: FsState) -> bool {
    &&& g.ok()
    &&& fs.wf()
    &&& g.keeps(fs)
    &&& g.adds_only(fs)
}

/// What holds while the walk goes through a listing: the directory under
/// visit is copied, the listing is that of the directory, and everything of
/// the source is copied, on the stack, or in the listing from `next` on.
pub open spec fn scan_inv(g: Graft, walk: TreeCopyView, fs: FsState) -> bool {
    let dir = locate(walk.src_dir);
    &&& base_inv(g, fs)
    &&& g.stack_ok(fs, walk.stack)
    &&& g.pair_ok(fs, (walk.src_dir, walk.dst_dir))
    &&& g.copied(fs, dir)
    &&& g.start.lists(dir, walk.entries)
    &&& walk.next <= walk.entries.len()
    &&& progress(
        g,
        fs,
        |k: Key| on_stack(walk.stack, k) || in_listing(dir, walk.entries, walk.next, k),
    )
}

/// What holds between two requests of a walk that has not failed.
pub open spec fn walk_inv(g: Graft, walk: TreeCopyView, step: StepView, fs: FsState) -> bool {
    let dir = locate(walk.src_dir);
    &&& base_inv(g, fs)
    &&& g.stack_ok(fs, walk.stack)
    &&& progress(g, fs, |k: Key| pending(walk, k))
    &&& match walk.stage {
        WalkStage::Probing => {
            &&& g.pair_ok(fs, (walk.src_dir, walk.dst_dir))
            &&& step == StepView::Ask(Request::Probe { path: walk.dst_dir })
        },
        WalkStage::Creating => {
            &&& g.pair_ok(fs, (walk.src_dir, walk.dst_dir))
            &&& step == StepView::Ask(Request::CreateDirAll { path: walk.dst_dir })
        },
        WalkStage::Listing => {
            &&& g.pair_ok(fs, (walk.src_dir, walk.dst_dir))
            &&& g.copied(fs, dir)
            &&& step == StepView::Ask(Request::ListDir { path: walk.src_dir })
        },
        WalkStage::Loading => {
            &&& scan_inv(g, walk, fs)
            &&& walk.next < walk.entries.len()
            &&& is_entry_name(walk.entries[walk.next as int].name)
            &&& !walk.entries[walk.next as int].is_dir
            &&& step == StepView::Ask(
                Request::Read { path: joined(walk.src_dir, walk.entries[walk.next as int].name) },
            )
        },
        WalkStage::Storing => {
            &&& scan_inv(g, walk, fs)
            &&& walk.next < walk.entries.len()
            &&& is_entry_name(walk.entries[walk.next as int].name)
            &&& !walk.entries[walk.next as int].is_dir
            &&& step == StepView::Ask(
                Request::Write {
                    path: joined(walk.dst_dir, walk.entries[walk.next as int].name),
                    data: g.start.bytes(dir.push(walk.entries[walk.next as int].name)),
                    mode: WriteMode::Replace,
                },
            )
        },
        WalkStage::Finished => walk.stack.len() == 0 && step == StepView::Finished(Ok(())),
        _ => false,
    }
}

/// A key between the destination and the place of a copy stands for a key
/// between the source and what is copied.
pub proof fn lemma_between(g: Graft, k: Key, source: Key)
    requires
        within(g.from, source),
        within(g.to, k),
        within(k, g.dst_of(source)),
    ensures
        within(g.from, g.src_of(k)),
        within(g.src_of(k), source),
        g.dst_of(g.src_of(k)) == k,
        (g.src_of(k) == source) == (k == g.dst_of(source)),
{
    let dest = g.dst_of(source);
    let s = g.src_of(k);
    lemma_keys_match(g, source);
    lemma_keys_match_back(g, k);
    assert(source.subrange(0, s.len() as int) =~= s) by {
        assert(k =~= dest.subrange(0, k.len() as int));
        assert(source.subrange(0, g.from.len() as int) =~= g.from);
    }
    if k == dest {
        assert(s == source);
    }
    if s == source {
        assert(g.dst_of(s) == dest);
    }
}

/// Source and destination keys match each other.
pub proof fn lemma_keys_match(g: Graft, source: Key)
    requires
        within(g.from, source),
    ensures
        within(g.to, g.dst_of(source)),
        g.src_of(g.dst_of(source)) == source,
        g.dst_of(source).len() == g.to.len() + source.len() - g.from.len(),
        forall|name: Seq<char>| #[trigger]
            g.dst_of(source.push(name)) == g.dst_of(source).push(name),
        source == g.from ==> g.dst_of(source) == g.to,
        source != g.from ==> g.dst_of(source) != g.to,
{
    let d = g.dst_of(source);
    assert(d.subrange(0, g.to.len() as int) =~= g.to);
    assert(d.subrange(g.to.len() as int, d.len() as int) =~= source.subrange(
        g.from.len() as int,
        source.len() as int,
    ));
    assert(g.src_of(d) =~= source);
    assert forall|name: Seq<char>| #[trigger]
        g.dst_of(source.push(name)) == g.dst_of(source).push(name) by {
        assert(source.push(name).subrange(g.from.len() as int, source.len() as int + 1)
            =~= source.subrange(g.from.len() as int, source.len() as int).push(name));
        assert(g.dst_of(source.push(name)) =~= g.dst_of(source).push(name));
    }
    if source == g.from {
        assert(d =~= g.to);
    } else {
        if source.len() == g.from.len() {
            assert(source.subrange(0, source.len() as int) =~= source);
        }
    }
}

/// And the other way round.
pub proof fn lemma_keys_match_back(g: Graft, dest: Key)
    requires
        within(g.to, dest),
    ensures
        within(g.from, g.src_of(dest)),
        g.dst_of(g.src_of(dest)) == dest,
{
    let s = g.src_of(dest);
    assert(s.subrange(0, g.from.len() as int) =~= g.from);
    assert(s.subrange(g.from.len() as int, s.len() as int) =~= dest.subrange(
        g.to.len() as int,
        dest.len() as int,
    ));
    assert(g.dst_of(s) =~= dest);
}

/// Under the source the filesystem is all through the walk as it was at the
/// start.
pub proof fn lemma_source_untouched(g: Graft, fs: FsState, k: Key)
    requires
        base_inv(g, fs),
        within(g.from, k),
    ensures
        fs.nodes.contains_key(k) == g.start.nodes.contains_key(k),
        fs.nodes.contains_key(k) ==> fs.nodes[k] == g.start.nodes[k],
{
    reveal(base_inv);
    if g.is_added(fs, k) {
        if g.leads_to_dest(fs, k) {
            lemma_within_trans(g.from, k, g.to);
        } else {
            lemma_comparable(g.from, g.to, k);
        }
    }
}

/// The walk takes the next directory off the stack, or is finished.
proof fn lemma_visit(g: Graft, walk: TreeCopyView, fs: FsState)
    requires
        base_inv(g, fs),
        g.stack_ok(fs, walk.stack),
        progress(g, fs, |k: Key| on_stack(walk.stack, k)),
    ensures
        walk_inv(g, walk.visit().0, walk.visit().1, fs),
{
    let after = walk.visit().0;
    if walk.stack.len() > 0 {
        let top = walk.stack.last();
        assert(top == walk.stack[walk.stack.len() - 1]);
        assert forall|i: int| 0 <= i < after.stack.len() implies g.pair_ok(
            fs,
            #[trigger] after.stack[i],
        ) by {
            assert(after.stack[i] == walk.stack[i]);
        }
        assert forall|k: Key| #[trigger]
            g.start.nodes.contains_key(k) && within(g.from, k) implies g.copied(fs, k) || pending(
            after,
            k,
        ) by {
            if !g.copied(fs, k) {
                assert(on_stack(walk.stack, k));
                let i = choose|i: int|
                    0 <= i < walk.stack.len() && within(locate((#[trigger] walk.stack[i]).0), k);
                if i < walk.stack.len() - 1 {
                    assert(after.stack[i] == walk.stack[i]);
                    assert(on_stack(after.stack, k));
                }
            }
        }
    } else {
        assert forall|k: Key| #[trigger]
            g.start.nodes.contains_key(k) && within(g.from, k) implies g.copied(fs, k) || pending(
            after,
            k,
        ) by {
            assert(!on_stack(walk.stack, k));
        }
    }
}

/// Going through a listing keeps the invariant, or fails.
proof fn lemma_scan(g: Graft, walk: TreeCopyView, fs: FsState)
    requires
        scan_inv(g, walk, fs),
    ensures
        walk.scan().1 matches StepView::Finished(Err(_)) || walk_inv(
            g,
            walk.scan().0,
            walk.scan().1,
            fs,
        ),
    decreases walk.entries.len() - walk.next,
{
    let dir = locate(walk.src_dir);
    if walk.next >= walk.entries.len() {
        assert forall|k: Key| #[trigger]
            g.start.nodes.contains_key(k) && within(g.from, k) implies g.copied(fs, k)
            || on_stack(walk.stack, k) by {
            assert(!in_listing(dir, walk.entries, walk.next, k));
        }
        lemma_visit(g, walk, fs);
    } else {
        let entry = walk.entries[walk.next as int];
        if !is_entry_name(entry.name) {
        } else if entry.is_dir {
            let pair = (joined(walk.src_dir, entry.name), joined(walk.dst_dir, entry.name));
            let next = TreeCopyView { stack: walk.stack.push(pair), next: walk.next + 1, ..walk };
            lemma_locate_joined(walk.src_dir, entry.name);
            lemma_locate_joined(walk.dst_dir, entry.name);
            lemma_keys_match(g, dir);
            lemma_within_self(dir, entry.name);
            lemma_within_trans(g.from, dir, dir.push(entry.name));
            let sub = dir.push(entry.name);
            assert(g.pair_ok(fs, pair)) by {
                assert(g.dst_of(sub) == g.dst_of(dir).push(entry.name));
                assert(g.dst_of(sub).drop_last() =~= g.dst_of(dir));
            }
            assert forall|i: int| 0 <= i < next.stack.len() implies g.pair_ok(
                fs,
                #[trigger] next.stack[i],
            ) by {
                if i < walk.stack.len() {
                    assert(next.stack[i] == walk.stack[i]);
                }
            }
            assert forall|k: Key| #[trigger]
                g.start.nodes.contains_key(k) && within(g.from, k) implies g.copied(fs, k)
                || on_stack(next.stack, k) || in_listing(dir, next.entries, next.next, k) by {
                if !g.copied(fs, k) {
                    if on_stack(walk.stack, k) {
                        let i = choose|i: int|
                            0 <= i < walk.stack.len() && within(
                                locate((#[trigger] walk.stack[i]).0),
                                k,
                            );
                        assert(next.stack[i] == walk.stack[i]);
                    } else {
                        let j = choose|j: int|
                            walk.next <= j < walk.entries.len() && within(
                                dir.push((#[trigger] walk.entries[j]).name),
                                k,
                            );
                        if j == walk.next {
                            assert(next.stack[walk.stack.len() as int] == pair);
                            assert(on_stack(next.stack, k));
                        } else {
                            assert(in_listing(dir, next.entries, next.next, k));
                        }
                    }
                }
            }
            assert(scan_inv(g, next, fs));
            lemma_scan(g, next, fs);
        } else {
            let after = TreeCopyView { stage: WalkStage::Loading, ..walk };
            assert(scan_inv(g, after, fs));
            assert(walk_inv(g, walk.scan().0, walk.scan().1, fs));
        }
    }
}

/// Whether the step is a failure.
pub open spec fn failed(step: StepView) -> bool {
    step matches StepView::Finished(Err(_))
}

/// The destination of a copy is never the root.
proof fn lemma_dest_not_root(g: Graft, source: Key)
    requires
        g.ok(),
        within(g.from, source),
    ensures
        g.dst_of(source).len() > 0,
        g.from.len() > 0,
        source.len() > 0,
{
    lemma_keys_match(g, source);
    if g.from.len() == 0 {
        assert(g.to.subrange(0, 0) =~= g.from);
    }
}

/// What is found in the place of a copy before the copy is made is that
/// copy already.
proof fn lemma_found_is_copied(g: Graft, fs: FsState, source: Key)
    requires
        base_inv(g, fs),
        within(g.from, source),
        g.start.nodes.contains_key(source),
        g.start.nodes[source] is Dir,
        fs.nodes.contains_key(g.dst_of(source)),
    ensures
        g.copied(fs, source),
{
    reveal(base_inv);
    let dest = g.dst_of(source);
    lemma_keys_match(g, source);
    if g.start.nodes.contains_key(dest) {
        assert(!g.is_file_copy(fs, dest));
    } else {
        assert(g.is_added(fs, dest));
        if g.leads_to_dest(fs, dest) {
            assert(fs.nodes[dest] == Node::Dir);
        } else {
            assert(fs.nodes[dest] == g.start.nodes[source]);
            assert(g.start.nodes[source] == Node::Dir);
        }
    }
}

/// The answer to the question whether the destination directory exists.
proof fn lemma_step_probing(g: Graft, walk: TreeCopyView, step: StepView, fs: FsState, reply: Reply)
    requires
        walk_inv(g, walk, step, fs),
        walk.stage == WalkStage::Probing,
        fs.admits(step->Ask_0, reply),
    ensures
        failed(walk.advance(reply).1) || walk_inv(
            g,
            walk.advance(reply).0,
            walk.advance(reply).1,
            fs.after(step->Ask_0, reply),
        ),
        base_inv(g, fs.after(step->Ask_0, reply)),
{
    let dir = locate(walk.src_dir);
    let after = walk.advance(reply).0;
    assert(fs.after(step->Ask_0, reply) == fs);
    match reply {
        Reply::Found(true) => {
            assert(base_inv(g, fs));
            assert(g.ok()) by {
                reveal(base_inv);
            }
            lemma_dest_not_root(g, dir);
            lemma_found_is_copied(g, fs, dir);
            assert forall|k: Key| #[trigger]
                g.start.nodes.contains_key(k) && within(g.from, k) implies g.copied(fs, k)
                || pending(after, k) by {
                if !g.copied(fs, k) {
                    assert(pending(walk, k));
                }
            }
        },
        Reply::Found(false) => {
            assert forall|k: Key| #[trigger]
                g.start.nodes.contains_key(k) && within(g.from, k) implies g.copied(fs, k)
                || pending(after, k) by {
                if !g.copied(fs, k) {
                    assert(pending(walk, k));
                }
            }
        },
        Reply::Failed(_) => {
            assert forall|k: Key| #[trigger]
                g.start.nodes.contains_key(k) && within(g.from, k) implies g.copied(fs, k)
                || pending(after, k) by {
                if !g.copied(fs, k) {
                    assert(pending(walk, k));
                }
            }
        },
        _ => {},
    }
}

/// The bytes of the file under copy.
proof fn lemma_step_loading(g: Graft, walk: TreeCopyView, step: StepView, fs: FsState, reply: Reply)
    requires
        walk_inv(g, walk, step, fs),
        walk.stage == WalkStage::Loading,
        fs.admits(step->Ask_0, reply),
    ensures
        failed(walk.advance(reply).1) || walk_inv(
            g,
            walk.advance(reply).0,
            walk.advance(reply).1,
            fs.after(step->Ask_0, reply),
        ),
        base_inv(g, fs.after(step->Ask_0, reply)),
{
    let dir = locate(walk.src_dir);
    let after = walk.advance(reply).0;
    let name = walk.entries[walk.next as int].name;
    match reply {
        Reply::Bytes(data) => {
            assert(fs.after(step->Ask_0, reply) == fs);
            lemma_locate_joined(walk.src_dir, name);
            lemma_within_self(dir, name);
            lemma_within_trans(g.from, dir, dir.push(name));
            lemma_source_untouched(g, fs, dir.push(name));
            assert(scan_inv(g, after, fs));
            assert forall|k: Key| #[trigger]
                g.start.nodes.contains_key(k) && within(g.from, k) implies g.copied(fs, k)
                || pending(after, k) by {
                if !g.copied(fs, k) {
                    assert(pending(walk, k));
                }
            }
        },
        _ => {},
    }
}

/// The listing of the directory under visit.
proof fn lemma_step_listing(g: Graft, walk: TreeCopyView, step: StepView, fs: FsState, reply: Reply)
    requires
        walk_inv(g, walk, step, fs),
        walk.stage == WalkStage::Listing,
        fs.admits(step->Ask_0, reply),
    ensures
        failed(walk.advance(reply).1) || walk_inv(
            g,
            walk.advance(reply).0,
            walk.advance(reply).1,
            fs.after(step->Ask_0, reply),
        ),
        base_inv(g, fs.after(step->Ask_0, reply)),
{
    let dir = locate(walk.src_dir);
    match reply {
        Reply::Entries(entries) => {
            assert(fs.after(step->Ask_0, reply) == fs);
            let listed = TreeCopyView { entries, next: 0, ..walk };
            assert(g.ok() && g.keeps(fs)) by {
                reveal(base_inv);
            }
            assert(fs.lists(dir, entries));
            assert forall|i: int| 0 <= i < entries.len() implies {
                &&& g.start.nodes.contains_key(dir.push(#[trigger] entries[i].name))
                &&& entries[i].is_dir == (g.start.nodes[dir.push(entries[i].name)] is Dir)
            } by {
                lemma_within_self(dir, entries[i].name);
                lemma_within_trans(g.from, dir, dir.push(entries[i].name));
                lemma_source_untouched(g, fs, dir.push(entries[i].name));
            }
            assert forall|child: Key| #[trigger]
                g.start.nodes.contains_key(child) && child.len() == dir.len() + 1 && within(
                    dir,
                    child,
                ) implies exists|i: int| 0 <= i < entries.len() && entries[i].name == child.last() by {
                assert(fs.nodes.contains_key(child));
            }
            assert(g.start.lists(dir, entries));
            assert forall|k: Key| #[trigger]
                g.start.nodes.contains_key(k) && within(g.from, k) implies g.copied(fs, k)
                || on_stack(listed.stack, k) || in_listing(dir, entries, 0, k) by {
                if !g.copied(fs, k) && !on_stack(walk.stack, k) {
                    assert(pending(walk, k));
                    assert(within(dir, k) && k != dir);
                    assert(k.len() > dir.len()) by {
                        if k.len() == dir.len() {
                            assert(k.subrange(0, k.len() as int) =~= k);
                        }
                    }
                    let child = k.subrange(0, dir.len() as int + 1);
                    assert(within(child, k));
                    assert(within(dir, child)) by {
                        assert(child.subrange(0, dir.len() as int) =~= k.subrange(
                            0,
                            dir.len() as int,
                        ));
                    }
                    if child != k {
                        lemma_ancestors_are_dirs(g.start, child, k);
                    }
                    assert(g.start.nodes.contains_key(child));
                    let i = choose|i: int|
                        0 <= i < entries.len() && entries[i].name == child.last();
                    assert(dir.push(entries[i].name) =~= child);
                    assert(within(dir.push(entries[i].name), k));
                }
            }
            assert(scan_inv(g, listed, fs));
            lemma_scan(g, listed, fs);
        },
        _ => {},
    }
}

/// The filesystem keeps the invariant when the directory of a copy is made.
proof fn lemma_base_with_dirs(g: Graft, fs: FsState, pair: (Seq<char>, Seq<char>), source: Key)
    requires
        base_inv(g, fs),
        g.pair_ok(fs, pair),
        locate(pair.0) == source,
        forall|k: Key| #[trigger] within(k, g.dst_of(source)) ==> !fs.is_file(k),
    ensures
        base_inv(g, fs.with_dirs(g.dst_of(source))),
        g.copied(fs.with_dirs(g.dst_of(source)), source),
        forall|k: Key| #[trigger]
            fs.nodes.contains_key(k) ==> fs.with_dirs(g.dst_of(source)).nodes.contains_key(k)
                && fs.with_dirs(g.dst_of(source)).nodes[k] == fs.nodes[k],
{
    reveal(base_inv);
    let dest = g.dst_of(source);
    let grown = fs.with_dirs(dest);
    lemma_keys_match(g, source);
    lemma_dest_not_root(g, source);
    assert(within(dest, dest)) by {
        assert(dest.subrange(0, dest.len() as int) =~= dest);
    }
    assert forall|key: Key| #[trigger] grown.nodes.contains_key(key) implies key.len() > 0
        && grown.is_dir(key.drop_last()) by {
        let parent = key.drop_last();
        if fs.nodes.contains_key(key) {
            assert(fs.is_dir(parent));
        } else {
            if parent.len() > 0 {
                assert(within(parent, dest)) by {
                    assert(dest.subrange(0, parent.len() as int) =~= dest.subrange(
                        0,
                        key.len() as int,
                    ).subrange(0, parent.len() as int));
                }
                assert(!fs.is_file(parent));
            }
        }
    }
    assert forall|k: Key| #[trigger] g.is_added(grown, k) implies g.leads_to_dest(grown, k)
        || g.is_copy(grown, k) by {
        if fs.nodes.contains_key(k) {
            assert(g.is_added(fs, k));
        } else {
            lemma_comparable(k, g.to, dest);
            if within(k, g.to) {
            } else {
                lemma_between(g, k, source);
                if g.src_of(k) != source {
                    lemma_ancestors_are_dirs(g.start, g.src_of(k), source);
                }
                assert(g.start.nodes[g.src_of(k)] == Node::Dir);
            }
        }
    }
    assert forall|k: Key| #[trigger] g.start.nodes.contains_key(k) implies grown.nodes.contains_key(
        k,
    ) && (grown.nodes[k] == g.start.nodes[k] || g.is_file_copy(grown, k)) by {
        assert(fs.nodes.contains_key(k));
        if g.is_file_copy(fs, k) {
            assert(g.is_file_copy(grown, k));
        }
    }
    if fs.nodes.contains_key(dest) {
        lemma_found_is_copied(g, fs, source);
    }
}

/// What was a good pair stays one when the filesystem only grows.
proof fn lemma_pairs_stay(
    g: Graft,
    fs: FsState,
    grown: FsState,
    stack: Seq<(Seq<char>, Seq<char>)>,
)
    requires
        g.stack_ok(fs, stack),
        forall|k: Key| fs.is_dir(k) ==> grown.is_dir(k),
    ensures
        g.stack_ok(grown, stack),
{
    assert forall|i: int| 0 <= i < stack.len() implies g.pair_ok(grown, #[trigger] stack[i]) by {
        assert(g.pair_ok(fs, stack[i]));
    }
}

/// The making of the destination directory.
proof fn lemma_step_creating(g: Graft, walk: TreeCopyView, step: StepView, fs: FsState, reply: Reply)
    requires
        walk_inv(g, walk, step, fs),
        walk.stage == WalkStage::Creating,
        fs.admits(step->Ask_0, reply),
    ensures
        failed(walk.advance(reply).1) || walk_inv(
            g,
            walk.advance(reply).0,
            walk.advance(reply).1,
            fs.after(step->Ask_0, reply),
        ),
        base_inv(g, fs.after(step->Ask_0, reply)),
{
    let dir = locate(walk.src_dir);
    let after = walk.advance(reply).0;
    match reply {
        Reply::Done => {
            let grown = fs.with_dirs(g.dst_of(dir));
            assert(fs.after(step->Ask_0, reply) == grown);
            lemma_base_with_dirs(g, fs, (walk.src_dir, walk.dst_dir), dir);
            assert forall|k: Key| fs.is_dir(k) implies grown.is_dir(k) by {
                if k.len() > 0 {
                    assert(fs.nodes.contains_key(k));
                }
            }
            lemma_pairs_stay(g, fs, grown, walk.stack);
            assert(g.pair_ok(grown, (walk.src_dir, walk.dst_dir))) by {
                assert(g.pair_ok(fs, (walk.src_dir, walk.dst_dir)));
            }
            assert forall|k: Key| #[trigger]
                g.start.nodes.contains_key(k) && within(g.from, k) implies g.copied(grown, k)
                || pending(after, k) by {
                if g.copied(fs, k) {
                    assert(fs.nodes.contains_key(g.dst_of(k)));
                } else {
                    assert(pending(walk, k));
                }
            }
        },
        _ => {},
    }
}

/// The filesystem keeps the invariant when the copy of a file is written.
proof fn lemma_base_with_file(g: Graft, fs: FsState, source: Key, held: Seq<u8>)
    requires
        base_inv(g, fs),
        within(g.from, source),
        g.start.nodes.contains_key(source),
        g.start.nodes[source] == Node::File(held),
        fs.is_dir(g.dst_of(source).drop_last()),
        !fs.is_dir(g.dst_of(source)),
    ensures
        base_inv(g, fs.with_file(g.dst_of(source), held)),
        g.copied(fs.with_file(g.dst_of(source), held), source),
        forall|k: Key| fs.is_dir(k) ==> fs.with_file(g.dst_of(source), held).is_dir(k),
        forall|k: Key|
            within(g.from, k) && g.copied(fs, k) ==> #[trigger] g.copied(
                fs.with_file(g.dst_of(source), held),
                k,
            ),
{
    reveal(base_inv);
    let dest = g.dst_of(source);
    let grown = fs.with_file(dest, held);
    lemma_keys_match(g, source);
    lemma_dest_not_root(g, source);
    assert forall|k: Key| #[trigger] g.start.nodes.contains_key(k) implies grown.nodes.contains_key(
        k,
    ) && (grown.nodes[k] == g.start.nodes[k] || g.is_file_copy(grown, k)) by {
        assert(fs.nodes.contains_key(k));
        if k != dest && g.is_file_copy(fs, k) {
            assert(g.is_file_copy(grown, k));
        }
    }
    assert forall|key: Key| #[trigger] grown.nodes.contains_key(key) implies key.len() > 0
        && grown.is_dir(key.drop_last()) by {
        if key != dest {
            assert(fs.nodes.contains_key(key));
            assert(fs.is_dir(key.drop_last()));
        }
    }
    assert forall|k: Key| #[trigger] g.is_added(grown, k) implies g.leads_to_dest(grown, k)
        || g.is_copy(grown, k) by {
        if k != dest {
            assert(g.is_added(fs, k));
        }
    }
    assert forall|k: Key| within(g.from, k) && g.copied(fs, k) implies #[trigger] g.copied(
        grown,
        k,
    ) by {
        if g.dst_of(k) == dest {
            lemma_keys_match(g, k);
            assert(k == source);
        }
    }
}

/// The write of the file under copy.
proof fn lemma_step_storing(g: Graft, walk: TreeCopyView, step: StepView, fs: FsState, reply: Reply)
    requires
        walk_inv(g, walk, step, fs),
        walk.stage == WalkStage::Storing,
        fs.admits(step->Ask_0, reply),
    ensures
        failed(walk.advance(reply).1) || walk_inv(
            g,
            walk.advance(reply).0,
            walk.advance(reply).1,
            fs.after(step->Ask_0, reply),
        ),
        base_inv(g, fs.after(step->Ask_0, reply)),
{
    let dir = locate(walk.src_dir);
    let name = walk.entries[walk.next as int].name;
    match reply {
        Reply::Done => {
            let source = dir.push(name);
            let held = g.start.bytes(source);
            let moved_on = TreeCopyView { next: walk.next + 1, ..walk };
            lemma_locate_joined(walk.dst_dir, name);
            lemma_within_self(dir, name);
            lemma_within_trans(g.from, dir, source);
            lemma_keys_match(g, dir);
            assert(locate(joined(walk.dst_dir, name)) == g.dst_of(source));
            assert(g.start.nodes.contains_key(source) && !(g.start.nodes[source] is Dir));
            assert(g.start.is_file(source));
            assert(g.start.nodes[source] == Node::File(held));
            let grown = fs.with_file(g.dst_of(source), held);
            assert(fs.after(step->Ask_0, reply) == grown);
            lemma_base_with_file(g, fs, source, held);
            lemma_pairs_stay(g, fs, grown, walk.stack);
            assert(g.pair_ok(grown, (walk.src_dir, walk.dst_dir))) by {
                assert(g.pair_ok(fs, (walk.src_dir, walk.dst_dir)));
            }
            assert(g.ok()) by {
                reveal(base_inv);
            }
            assert forall|k: Key| #[trigger]
                g.start.nodes.contains_key(k) && within(g.from, k) implies g.copied(grown, k)
                || on_stack(moved_on.stack, k) || in_listing(
                dir,
                moved_on.entries,
                moved_on.next,
                k,
            ) by {
                if g.copied(fs, k) {
                } else if on_stack(walk.stack, k) {
                } else {
                    assert(pending(walk, k));
                    let j = choose|j: int|
                        walk.next <= j < walk.entries.len() && within(
                            dir.push((#[trigger] walk.entries[j]).name),
                            k,
                        );
                    if j == walk.next {
                        if k != source {
                            lemma_ancestors_are_dirs(g.start, source, k);
                        }
                    } else {
                        assert(in_listing(dir, moved_on.entries, moved_on.next, k));
                    }
                }
            }
            assert(scan_inv(g, moved_on, grown));
            lemma_scan(g, moved_on, grown);
        },
        _ => {},
    }
}

/// Every reply that the filesystem can give keeps the invariant, or makes
/// the walk fail.
pub proof fn lemma_walk_step(g: Graft, walk: TreeCopyView, step: StepView, fs: FsState, reply: Reply)
    requires
        walk_inv(g, walk, step, fs),
        step is Ask,
        fs.admits(step->Ask_0, reply),
    ensures
        failed(walk.advance(reply).1) || walk_inv(
            g,
            walk.advance(reply).0,
            walk.advance(reply).1,
            fs.after(step->Ask_0, reply),
        ),
        base_inv(g, fs.after(step->Ask_0, reply)),
{
    match walk.stage {
        WalkStage::Probing => lemma_step_probing(g, walk, step, fs, reply),
        WalkStage::Creating => lemma_step_creating(g, walk, step, fs, reply),
        WalkStage::Listing => lemma_step_listing(g, walk, step, fs, reply),
        WalkStage::Loading => lemma_step_loading(g, walk, step, fs, reply),
        WalkStage::Storing => lemma_step_storing(g, walk, step, fs, reply),
        _ => {},
    }
}

/// A walk that ends well has kept the invariant to its end.
proof fn lemma_walk_keeps(
    g: Graft,
    walk: TreeCopyView,
    step: StepView,
    fs: FsState,
    replies: Seq<Reply>,
    last: TreeCopyView,
    fs_last: FsState,
)
    requires
        walk_inv(g, walk, step, fs),
        walk_trace(walk, step, fs, replies) == Some((last, StepView::Finished(Ok(())), fs_last)),
    ensures
        walk_inv(g, last, StepView::Finished(Ok(())), fs_last),
    decreases replies.len(),
{
    if replies.len() > 0 {
        let reply = replies[0];
        let rest = replies.drop_first();
        let advanced = walk.advance(reply);
        let fs1 = fs.after(step->Ask_0, reply);
        lemma_walk_step(g, walk, step, fs, reply);
        if failed(advanced.1) {
            if rest.len() > 0 {
                assert(walk_trace(advanced.0, advanced.1, fs1, rest) is None);
            }
            assert(false);
        }
        lemma_walk_keeps(g, advanced.0, advanced.1, fs1, rest, last, fs_last);
    }
}

/// Whether the filesystem `fs` differs from `before` only at the
/// destination `to` and in the directories that lead to it: what is at the
/// source `from` or under it is as it was; everything that existed outside
/// the destination exists unchanged; and whatever is new outside the
/// destination is a directory that leads to it.
pub open spec fn only_destination_touched(
    before: FsState,
    fs: FsState,
    from: Key,
    to: Key,
) -> bool {
    &&& forall|k: Key|
        #![trigger fs.nodes.contains_key(k)]
        within(from, k) ==> fs.nodes.contains_key(k) == before.nodes.contains_key(k) && (
        before.nodes.contains_key(k) ==> fs.nodes[k] == before.nodes[k])
    &&& forall|k: Key|
        #![trigger before.nodes.contains_key(k)]
        !within(to, k) && before.nodes.contains_key(k) ==> fs.nodes.contains_key(k)
            && fs.nodes[k] == before.nodes[k]
    &&& forall|k: Key|
        #![trigger fs.nodes.contains_key(k)]
        !within(to, k) && fs.nodes.contains_key(k) && !before.nodes.contains_key(k) ==> within(
            k,
            to,
        ) && fs.nodes[k] is Dir
}

/// A walk keeps the frame to wherever it gets, also where it fails.
proof fn lemma_walk_frame(
    g: Graft,
    walk: TreeCopyView,
    step: StepView,
    fs: FsState,
    replies: Seq<Reply>,
    last: TreeCopyView,
    last_step: StepView,
    fs_last: FsState,
)
    requires
        walk_inv(g, walk, step, fs) || (step is Finished && base_inv(g, fs)),
        walk_trace(walk, step, fs, replies) == Some((last, last_step, fs_last)),
    ensures
        base_inv(g, fs_last),
    decreases replies.len(),
{
    if replies.len() > 0 {
        let reply = replies[0];
        let advanced = walk.advance(reply);
        let fs1 = fs.after(step->Ask_0, reply);
        lemma_walk_step(g, walk, step, fs, reply);
        lemma_walk_frame(
            g,
            advanced.0,
            advanced.1,
            fs1,
            replies.drop_first(),
            last,
            last_step,
            fs_last,
        );
    } else {
        if walk_inv(g, walk, step, fs) {
            assert(base_inv(g, fs));
        }
    }
}

/// A copy of a directory tree touches nothing but its destination, at every
/// point and on every outcome: wherever the walk has got to on replies
/// that the filesystem can give, whether it still asks, has ended well or
/// has failed and left a part of the copy behind, what is at the source or
/// under it is as it was, everything that existed outside the destination is
/// unchanged, and nothing is new outside the destination but directories
/// that lead to it.
///
/// This holds where the source is a directory and neither of source and
/// destination lies in the other.
pub proof fn law_walk_touches_only_destination(
    from: Seq<char>,
    to: Seq<char>,
    fs: FsState,
    replies: Seq<Reply>,
    last: TreeCopyView,
    last_step: StepView,
    fs_last: FsState,
)
    requires
        fs.can_fill(locate(from), locate(to)),
        walk_trace(
            TreeCopyView::start(from, to).0,
            TreeCopyView::start(from, to).1,
            fs,
            replies,
        ) == Some((last, last_step, fs_last)),
    ensures
        only_destination_touched(fs, fs_last, locate(from), locate(to)),
        fs_last.wf(),
{
    let g = Graft { from: locate(from), to: locate(to), start: fs };
    lemma_walk_starts(from, to, fs);
    lemma_walk_frame(
        g,
        TreeCopyView::start(from, to).0,
        TreeCopyView::start(from, to).1,
        fs,
        replies,
        last,
        last_step,
        fs_last,
    );
    assert forall|k: Key|
        #![trigger fs_last.nodes.contains_key(k)]
        within(g.from, k) implies fs_last.nodes.contains_key(k) == fs.nodes.contains_key(k) && (
        fs.nodes.contains_key(k) ==> fs_last.nodes[k] == fs.nodes[k]) by {
        lemma_source_untouched(g, fs_last, k);
    }
    reveal(base_inv);
    assert forall|k: Key|
        #![trigger fs.nodes.contains_key(k)]
        !within(g.to, k) && fs.nodes.contains_key(k) implies fs_last.nodes.contains_key(k)
        && fs_last.nodes[k] == fs.nodes[k] by {
        assert(!g.is_file_copy(fs_last, k));
    }
    assert forall|k: Key|
        #![trigger fs_last.nodes.contains_key(k)]
        !within(g.to, k) && fs_last.nodes.contains_key(k) && !fs.nodes.contains_key(
            k,
        ) implies within(k, g.to) && fs_last.nodes[k] is Dir by {
        assert(g.is_added(fs_last, k));
    }
}

/// The invariant holds when the walk starts.
pub proof fn lemma_walk_starts(from: Seq<char>, to: Seq<char>, fs: FsState)
    requires
        fs.can_fill(locate(from), locate(to)),
    ensures
        walk_inv(
            Graft { from: locate(from), to: locate(to), start: fs },
            TreeCopyView::start(from, to).0,
            TreeCopyView::start(from, to).1,
            fs,
        ),
        TreeCopyView::start(from, to).0.stage == WalkStage::Probing,
        TreeCopyView::start(from, to).0.stack.len() == 0,
        TreeCopyView::start(from, to).0.src_dir == from,
{
    let g = Graft { from: locate(from), to: locate(to), start: fs };
    let first = TreeCopyView { stack: seq![(from, to)], ..TreeCopyView::idle() };
    assert(base_inv(g, fs)) by {
        reveal(base_inv);
    }
    lemma_within_self(g.from, Seq::empty());
    assert(g.dst_of(g.from) =~= g.to);
    assert(first.stack[0] == (from, to));
    assert(g.pair_ok(fs, (from, to)));
    assert forall|k: Key| #[trigger]
        g.start.nodes.contains_key(k) && within(g.from, k) implies g.copied(fs, k) || on_stack(
        first.stack,
        k,
    ) by {
        assert(within(locate(first.stack[0].0), k));
    }
    lemma_visit(g, first, fs);
}

/// A copy of a directory tree that ends well fills the destination,
/// whatever existed there: every file of the source is at the matching place
/// under the destination, with the same name and the same bytes; for every
/// directory of the source something is at the matching place, what was
/// there before or else a new directory; what the destination held under
/// other names is as it was; the directories that lead to the destination
/// exist; and everything else is as it was.
///
/// This holds where the source is a directory and neither of source and
/// destination lies in the other.
pub proof fn law_walk_fills_tree(
    from: Seq<char>,
    to: Seq<char>,
    fs: FsState,
    replies: Seq<Reply>,
    last: TreeCopyView,
    fs_last: FsState,
)
    requires
        fs.can_fill(locate(from), locate(to)),
        walk_trace(
            TreeCopyView::start(from, to).0,
            TreeCopyView::start(from, to).1,
            fs,
            replies,
        ) == Some((last, StepView::Finished(Ok(())), fs_last)),
    ensures
        fs_last == fs.filled(locate(from), locate(to)),
        fs_last.wf(),
{
    let g = Graft { from: locate(from), to: locate(to), start: fs };
    lemma_walk_starts(from, to, fs);
    lemma_walk_keeps(
        g,
        TreeCopyView::start(from, to).0,
        TreeCopyView::start(from, to).1,
        fs,
        replies,
        last,
        fs_last,
    );
    reveal(base_inv);
    let filled = fs.filled(g.from, g.to);
    assert(g.copied(fs_last, g.from)) by {
        assert(!pending(last, g.from));
    }
    assert forall|k: Key|
        #![trigger fs_last.nodes.contains_key(k)]
        #![trigger filled.nodes.contains_key(k)]
        fs_last.nodes.contains_key(k) == filled.nodes.contains_key(k) && (
        fs_last.nodes.contains_key(k) ==> fs_last.nodes[k] == filled.nodes[k]) by {
        let source = g.src_of(k);
        if within(g.to, k) && fs.nodes.contains_key(source) {
            lemma_keys_match_back(g, k);
            assert(!pending(last, source));
            assert(g.copied(fs_last, source));
            if !(fs.nodes[source] is File) && !fs.nodes.contains_key(k) {
                assert(fs_last.nodes[k] == Node::Dir);
            }
        } else if fs.nodes.contains_key(k) {
            assert(!g.is_file_copy(fs_last, k));
        } else if fs_last.nodes.contains_key(k) {
            assert(g.is_added(fs_last, k));
            assert(g.leads_to_dest(fs_last, k));
            assert(fs_last.nodes[k] == Node::Dir);
        } else if k.len() > 0 && within(k, g.to) {
            if k != g.to {
                lemma_ancestors_are_dirs(fs_last, k, g.to);
            }
            assert(false);
        }
    }
    assert(fs_last.nodes =~= filled.nodes);
}

/// A copy of a directory tree into a destination at which nothing existed,
/// when it ends well, leaves the filesystem as it was, plus the directories
/// that lead to the destination, plus, at the destination, a copy of
/// everything that was at the source or under it, with the same names and
/// the same bytes.
pub proof fn law_walk_copies_tree(
    from: Seq<char>,
    to: Seq<char>,
    fs: FsState,
    replies: Seq<Reply>,
    last: TreeCopyView,
    fs_last: FsState,
)
    requires
        fs.can_graft(locate(from), locate(to)),
        walk_trace(
            TreeCopyView::start(from, to).0,
            TreeCopyView::start(from, to).1,
            fs,
            replies,
        ) == Some((last, StepView::Finished(Ok(())), fs_last)),
    ensures
        fs_last == fs.grafted(locate(from), locate(to)),
        fs_last.wf(),
{
    law_walk_fills_tree(from, to, fs, replies, last, fs_last);
    lemma_filled_is_grafted(fs, locate(from), locate(to));
}

/// The same, for a copy of which only the end is known.
pub proof fn lemma_walk_ends_grafted(from: Seq<char>, to: Seq<char>, fs: FsState, next: FsState)
    requires
        fs.can_graft(locate(from), locate(to)),
        walk_ends(from, to, fs, next),
    ensures
        next == fs.grafted(locate(from), locate(to)),
        next.wf(),
{
    let started = TreeCopyView::start(from, to);
    let replies = choose|replies: Seq<Reply>|
        ended_well(#[trigger] walk_trace(started.0, started.1, fs, replies), next);
    let result = walk_trace(started.0, started.1, fs, replies);
    match result {
        Some((last, StepView::Finished(Ok(unit)), fs_last)) => {
            assert(unit == ());
            law_walk_copies_tree(from, to, fs, replies, last, fs_last);
        },
        _ => {},
    }
}

} // verus!
