//! A mathematical model of the filesystem: which replies it can give to a
//! request, and what it looks like afterwards.
//!
//! The model names every file and directory by its key, the sequence of the
//! components of its path. It knows files with their bytes and directories;
//! it does not know permissions, links or volumes, and it reads `..` as an
//! ordinary name. The key of a path keeps neither its empty components nor
//! those that are a single dot, so that a `/` at the very start of a path is
//! lost: the model has one root, takes `/a`, `a` and `./a` for the same key,
//! and so describes paths that are all relative to one directory, or all
//! absolute. A request that fails changes nothing. Every request can fail; a
//! request can succeed only where the model says so.

use vstd::prelude::*;
use crate::path::{ancestors, is_entry_name, joined, last_slash, lemma_last_slash_bounds};
use crate::protocol::{Entry, Reply, Request, WriteMode};

verus! {

/// The components of a path, outermost first.
pub type Key = Seq<Seq<char>>;

/// What the model holds at a key.
pub enum Node {
    File(Seq<u8>),
    Dir,
}

/// The key of `path`: its components, without the empty ones and without
/// those that are a single dot.
pub open spec fn locate(path: Seq<char>) -> Key
    decreases path.len(),
{
    if path.len() == 0 {
        Seq::empty()
    } else {
        let cut = last_slash(path);
        let last = path.subrange(cut + 1, path.len() as int);
        let front = if 0 <= cut < path.len() {
            locate(path.subrange(0, cut))
        } else {
            Seq::empty()
        };
        if last.len() == 0 || last == seq!['.'] {
            front
        } else {
            front.push(last)
        }
    }
}

/// Whether `key` is `root` or lies under it.
pub open spec fn within(root: Key, key: Key) -> bool {
    root.len() <= key.len() && key.subrange(0, root.len() as int) =~= root
}

/// The key that lies under `to` where `key` lies under a root of length
/// `from_len`.
pub open spec fn rebase(from_len: int, to: Key, key: Key) -> Key {
    to + key.subrange(from_len, key.len() as int)
}

/// The bytes that a file holds after a write of `data` over `held`.
pub open spec fn written(mode: WriteMode, held: Seq<u8>, data: Seq<u8>) -> Seq<u8> {
    match mode {
        WriteMode::CreateNew | WriteMode::Replace | WriteMode::Truncate => data,
        WriteMode::Append => held + data,
    }
}

/// A filesystem: what exists at which key. The root, whose key is empty, is
/// a directory that always exists and is never held in the map.
pub struct FsState {
    pub nodes: Map<Key, Node>,
}

impl FsState {
    /// Whether something exists at `key`.
    pub open spec fn present(self, key: Key) -> bool {
        key.len() == 0 || self.nodes.contains_key(key)
    }

    /// Whether a directory exists at `key`.
    pub open spec fn is_dir(self, key: Key) -> bool {
        key.len() == 0 || (self.nodes.contains_key(key) && self.nodes[key] is Dir)
    }

    /// Whether a file exists at `key`.
    pub open spec fn is_file(self, key: Key) -> bool {
        key.len() > 0 && self.nodes.contains_key(key) && self.nodes[key] is File
    }

    /// The bytes of the file at `key`; empty where there is no file.
    pub open spec fn bytes(self, key: Key) -> Seq<u8> {
        if self.is_file(key) {
            self.nodes[key]->File_0
        } else {
            Seq::empty()
        }
    }

    /// Whether everything that exists lies in a directory that exists.
    pub open spec fn wf(self) -> bool {
        forall|key: Key|
            #![trigger self.nodes.contains_key(key), key.drop_last()]
            self.nodes.contains_key(key) ==> key.len() > 0 && self.is_dir(key.drop_last())
    }

    /// Whether `entries` lists the directory at `key`: every entry is there
    /// with its kind, and everything that is there has an entry.
    pub open spec fn lists(self, key: Key, entries: Seq<Entry>) -> bool {
        &&& forall|i: int|
            0 <= i < entries.len() ==> {
                &&& self.nodes.contains_key(key.push(#[trigger] entries[i].name))
                &&& entries[i].is_dir == (self.nodes[key.push(entries[i].name)] is Dir)
            }
        &&& forall|child: Key| #[trigger]
            self.nodes.contains_key(child) && child.len() == key.len() + 1 && within(key, child)
                ==> exists|i: int| 0 <= i < entries.len() && entries[i].name == child.last()
    }

    /// The filesystem with the directory at `key` and every directory
    /// leading to it.
    pub open spec fn with_dirs(self, key: Key) -> FsState {
        FsState {
            nodes: Map::new(
                |k: Key| self.nodes.contains_key(k) || (k.len() > 0 && within(k, key)),
                |k: Key| if self.nodes.contains_key(k) { self.nodes[k] } else { Node::Dir },
            ),
        }
    }

    /// The filesystem with `data` as the file at `key`.
    pub open spec fn with_file(self, key: Key, data: Seq<u8>) -> FsState {
        FsState { nodes: self.nodes.insert(key, Node::File(data)) }
    }

    /// The filesystem without what is at `key` or under it.
    pub open spec fn without(self, key: Key) -> FsState {
        FsState {
            nodes: Map::new(
                |k: Key| self.nodes.contains_key(k) && !within(key, k),
                |k: Key| self.nodes[k],
            ),
        }
    }

    /// The filesystem with what is at `from` or under it moved to `to`.
    pub open spec fn moved(self, from: Key, to: Key) -> FsState {
        FsState {
            nodes: Map::new(
                |k: Key|
                    (self.nodes.contains_key(k) && !within(from, k)) || (within(to, k)
                        && self.nodes.contains_key(rebase(to.len() as int, from, k))),
                |k: Key| if within(to, k) {
                    self.nodes[rebase(to.len() as int, from, k)]
                } else {
                    self.nodes[k]
                },
            ),
        }
    }

    /// The filesystem with a copy under `to` of what is at `from` or under
    /// it, and with every directory leading to `to`.
    pub open spec fn grafted(self, from: Key, to: Key) -> FsState {
        FsState {
            nodes: Map::new(
                |k: Key|
                    self.nodes.contains_key(k) || (k.len() > 0 && within(k, to)) || (within(to, k)
                        && self.nodes.contains_key(rebase(to.len() as int, from, k))),
                |k: Key| if self.nodes.contains_key(k) {
                    self.nodes[k]
                } else if within(to, k) {
                    self.nodes[rebase(to.len() as int, from, k)]
                } else {
                    Node::Dir
                },
            ),
        }
    }

    /// Whether nothing exists at `key` or under it.
    pub open spec fn vacant(self, key: Key) -> bool {
        forall|k: Key| #[trigger] self.nodes.contains_key(k) ==> !within(key, k)
    }

    /// Whether the request can succeed. Every request can fail.
    pub open spec fn allows(self, request: Request) -> bool {
        match request {
            Request::CreateDirAll { path } => forall|k: Key| #[trigger]
                within(k, locate(path)) ==> !self.is_file(k),
            Request::Probe { path } => true,
            Request::ListDir { path } => self.is_dir(locate(path)),
            Request::Read { path } => self.is_file(locate(path)),
            Request::Write { path, data, mode } => {
                let key = locate(path);
                &&& key.len() > 0
                &&& self.is_dir(key.drop_last())
                &&& !self.is_dir(key)
                &&& match mode {
                    WriteMode::CreateNew => !self.nodes.contains_key(key),
                    WriteMode::Replace => true,
                    _ => self.is_file(key),
                }
            },
            Request::RemoveFile { path } => self.is_file(locate(path)),
            Request::RemoveDirAll { path } => locate(path).len() > 0 && self.is_dir(locate(path)),
            Request::Rename { from, to } => {
                let f = locate(from);
                let t = locate(to);
                &&& f.len() > 0
                &&& self.nodes.contains_key(f)
                &&& t.len() > 0
                &&& self.is_dir(t.drop_last())
                &&& !within(f, t)
                &&& !within(t, f)
                &&& self.vacant(t)
            },
        }
    }

    /// The filesystem after the request has succeeded.
    pub open spec fn apply(self, request: Request) -> FsState {
        match request {
            Request::CreateDirAll { path } => self.with_dirs(locate(path)),
            Request::Probe { path } => self,
            Request::ListDir { path } => self,
            Request::Read { path } => self,
            Request::Write { path, data, mode } => self.with_file(
                locate(path),
                written(mode, self.bytes(locate(path)), data),
            ),
            Request::RemoveFile { path } => FsState { nodes: self.nodes.remove(locate(path)) },
            Request::RemoveDirAll { path } => self.without(locate(path)),
            Request::Rename { from, to } => self.moved(locate(from), locate(to)),
        }
    }

    /// Whether `reply` is an answer that the filesystem can give to
    /// `request`: a failure, or the success that the request allows, with
    /// what it returns.
    pub open spec fn admits(self, request: Request, reply: Reply) -> bool {
        match (request, reply) {
            (_, Reply::Failed(_)) => true,
            (Request::Probe { path }, Reply::Found(found)) => found == self.present(locate(path)),
            (Request::ListDir { path }, Reply::Entries(entries)) => self.allows(request)
                && self.lists(locate(path), entries),
            (Request::Read { path }, Reply::Bytes(data)) => self.allows(request) && data
                == self.bytes(locate(path)),
            (Request::CreateDirAll { .. }, Reply::Done)
            | (Request::Write { .. }, Reply::Done)
            | (Request::RemoveFile { .. }, Reply::Done)
            | (Request::RemoveDirAll { .. }, Reply::Done)
            | (Request::Rename { .. }, Reply::Done) => self.allows(request),
            _ => false,
        }
    }

    /// The filesystem after `request` was answered by `reply`.
    pub open spec fn after(self, request: Request, reply: Reply) -> FsState {
        match reply {
            Reply::Failed(_) => self,
            _ => self.apply(request),
        }
    }
}

/// A text without `/` has no last `/`, and in front of it the last `/` of
/// what comes before stays the last.
pub proof fn lemma_last_slash_append(front: Seq<char>, name: Seq<char>)
    requires
        forall|i: int| 0 <= i < name.len() ==> name[i] != '/',
    ensures
        last_slash(front + name) == last_slash(front),
    decreases name.len(),
{
    if name.len() == 0 {
        assert(front + name =~= front);
    } else {
        let whole = front + name;
        assert(whole.last() == name.last());
        assert(whole.drop_last() =~= front + name.drop_last());
        lemma_last_slash_append(front, name.drop_last());
    }
}

/// Joining a directory with an entry name adds exactly that name to the key
/// of the directory.
pub proof fn lemma_locate_joined(dir: Seq<char>, name: Seq<char>)
    requires
        is_entry_name(name),
    ensures
        locate(joined(dir, name)) == locate(dir).push(name),
{
    let path = joined(dir, name);
    if dir.len() == 0 {
        lemma_last_slash_append(Seq::empty(), name);
        assert(Seq::<char>::empty() + name =~= name);
        assert(path.subrange(0, path.len() as int) =~= name);
    } else if dir.last() == '/' {
        lemma_last_slash_append(dir, name);
        assert(path.subrange(dir.len() as int, path.len() as int) =~= name);
        assert(path.subrange(0, dir.len() - 1) =~= dir.subrange(0, dir.len() - 1));
        assert(dir.subrange(dir.len() as int, dir.len() as int).len() == 0);
    } else {
        let front = dir + seq!['/'];
        lemma_last_slash_append(front, name);
        assert(front.last() == '/');
        assert(last_slash(front) == dir.len());
        assert(path =~= front + name);
        assert(path.subrange(dir.len() as int + 1, path.len() as int) =~= name);
        assert(path.subrange(0, dir.len() as int) =~= dir);
    }
}

/// In a filesystem where everything lies in a directory that exists, every
/// key above a key that exists is a directory.
pub proof fn lemma_ancestors_are_dirs(fs: FsState, above: Key, key: Key)
    requires
        fs.wf(),
        fs.present(key),
        within(above, key),
        above != key,
    ensures
        fs.is_dir(above),
    decreases key.len(),
{
    assert(above.len() < key.len()) by {
        if above.len() == key.len() {
            assert(key.subrange(0, key.len() as int) =~= key);
        }
    }
    assert(fs.nodes.contains_key(key));
    let parent = key.drop_last();
    assert(fs.is_dir(parent));
    if above != parent {
        assert(within(above, parent)) by {
            assert(parent.subrange(0, above.len() as int) =~= key.subrange(0, above.len() as int));
        }
        lemma_ancestors_are_dirs(fs, above, parent);
    }
}

/// Making a directory and those that lead to it keeps everything in a
/// directory that exists, and changes nothing where the directory exists
/// already.
pub proof fn lemma_with_dirs(fs: FsState, key: Key)
    requires
        fs.wf(),
        forall|k: Key| #[trigger] within(k, key) ==> !fs.is_file(k),
    ensures
        fs.with_dirs(key).wf(),
        fs.with_dirs(key).is_dir(key),
        fs.is_dir(key) ==> fs.with_dirs(key) == fs,
        forall|k: Key| #[trigger]
            fs.nodes.contains_key(k) ==> fs.with_dirs(key).nodes.contains_key(k) && fs.with_dirs(
                key,
            ).nodes[k] == fs.nodes[k],
{
    let grown = fs.with_dirs(key);
    assert(within(key, key)) by {
        assert(key.subrange(0, key.len() as int) =~= key);
    }
    assert forall|k: Key| #[trigger] grown.nodes.contains_key(k) implies k.len() > 0
        && grown.is_dir(k.drop_last()) by {
        let parent = k.drop_last();
        if fs.nodes.contains_key(k) {
            assert(fs.is_dir(parent));
        } else if parent.len() > 0 {
            assert(within(parent, key)) by {
                assert(key.subrange(0, parent.len() as int) =~= key.subrange(
                    0,
                    k.len() as int,
                ).subrange(0, parent.len() as int));
            }
            assert(!fs.is_file(parent));
        }
    }
    if fs.is_dir(key) {
        assert forall|k: Key| k.len() > 0 && within(k, key) implies fs.nodes.contains_key(k) by {
            if k != key {
                lemma_ancestors_are_dirs(fs, k, key);
            }
        }
        assert(grown.nodes =~= fs.nodes);
    }
}

/// Two keys that both lie above a third lie one above the other.
pub proof fn lemma_comparable(a: Key, b: Key, k: Key)
    requires
        within(a, k),
        within(b, k),
    ensures
        within(a, b) || within(b, a),
{
    if a.len() <= b.len() {
        assert(b.subrange(0, a.len() as int) =~= k.subrange(0, b.len() as int).subrange(
            0,
            a.len() as int,
        ));
    } else {
        assert(a.subrange(0, b.len() as int) =~= k.subrange(0, a.len() as int).subrange(
            0,
            b.len() as int,
        ));
    }
}

/// Lying within is transitive.
pub proof fn lemma_within_trans(a: Key, b: Key, c: Key)
    requires
        within(a, b),
        within(b, c),
    ensures
        within(a, c),
{
    assert(c.subrange(0, a.len() as int) =~= c.subrange(0, b.len() as int).subrange(
        0,
        a.len() as int,
    ));
}

/// Every key lies within itself, and within what it extends.
pub proof fn lemma_within_self(a: Key, name: Seq<char>)
    ensures
        within(a, a),
        within(a, a.push(name)),
        !within(a.push(name), a),
{
    assert(a.subrange(0, a.len() as int) =~= a);
    assert(a.push(name).subrange(0, a.len() as int) =~= a);
}

/// A key that leads to a key that extends another leads to that other key,
/// unless it is the whole.
pub proof fn lemma_leads_to_parent(k: Key, parent: Key, name: Seq<char>)
    requires
        within(k, parent.push(name)),
        k != parent.push(name),
    ensures
        within(k, parent),
{
    let whole = parent.push(name);
    assert(k.len() <= parent.len()) by {
        if k.len() == whole.len() {
            assert(whole.subrange(0, whole.len() as int) =~= whole);
        }
    }
    assert(parent.subrange(0, k.len() as int) =~= whole.subrange(0, k.len() as int));
}

/// A key that leads to a key and is not that key leads to the key above it.
pub proof fn lemma_prefix_of_parent(k: Key, key: Key)
    requires
        within(k, key),
        k != key,
        key.len() > 0,
    ensures
        within(k, key.drop_last()),
{
    assert(key =~= key.drop_last().push(key.last()));
    lemma_leads_to_parent(k, key.drop_last(), key.last());
}

/// Moving a key from under one root to under another and back gives the
/// key; the moved key lies under the other root, and is that root exactly
/// where the key was the first root.
pub proof fn lemma_rebase(from: Key, to: Key, k: Key)
    requires
        within(from, k),
    ensures
        within(to, rebase(from.len() as int, to, k)),
        rebase(to.len() as int, from, rebase(from.len() as int, to, k)) == k,
        rebase(from.len() as int, to, k).len() == to.len() + k.len() - from.len(),
        (k == from) == (rebase(from.len() as int, to, k) == to),
{
    let d = rebase(from.len() as int, to, k);
    assert(d.subrange(0, to.len() as int) =~= to);
    assert(d.subrange(to.len() as int, d.len() as int) =~= k.subrange(
        from.len() as int,
        k.len() as int,
    ));
    assert(rebase(to.len() as int, from, d) =~= k);
    if k == from {
        assert(d =~= to);
    }
    if d == to {
        assert(k.subrange(0, k.len() as int) =~= k);
    }
}

impl FsState {
    /// Whether a copy of the tree at `from` can be made at `to` without
    /// meeting anything: everything lies in a directory that exists, the
    /// source is a directory, nothing exists at the destination, and neither
    /// of the two lies in the other.
    pub open spec fn can_graft(self, from: Key, to: Key) -> bool {
        self.can_fill(from, to) && !self.present(to)
    }

    /// Whether a copy of the tree at `from` can be made into `to`, whatever
    /// exists there: everything lies in a directory that exists, the source
    /// is a directory, and neither of the two lies in the other.
    pub open spec fn can_fill(self, from: Key, to: Key) -> bool {
        &&& self.wf()
        &&& self.nodes.contains_key(from)
        &&& self.nodes[from] is Dir
        &&& !within(from, to)
        &&& !within(to, from)
    }

    /// The filesystem with the tree at `from` copied into `to`, and with
    /// every directory leading to `to`. Every file of the source is at the
    /// matching place under the destination, with its bytes, whatever was
    /// there before; for every directory of the source something is at the
    /// matching place, what was there before or else a directory; and what
    /// the destination held under other names is as it was.
    pub open spec fn filled(self, from: Key, to: Key) -> FsState {
        FsState {
            nodes: Map::new(
                |k: Key|
                    self.nodes.contains_key(k) || (k.len() > 0 && within(k, to)) || (within(to, k)
                        && self.nodes.contains_key(rebase(to.len() as int, from, k))),
                |k: Key| if within(to, k) && self.nodes.contains_key(
                    rebase(to.len() as int, from, k),
                ) && self.nodes[rebase(to.len() as int, from, k)] is File {
                    self.nodes[rebase(to.len() as int, from, k)]
                } else if self.nodes.contains_key(k) {
                    self.nodes[k]
                } else {
                    Node::Dir
                },
            ),
        }
    }
}

/// Where nothing exists at a key, nothing exists under it.
pub proof fn lemma_absent_is_vacant(fs: FsState, key: Key)
    requires
        fs.wf(),
        !fs.present(key),
    ensures
        fs.vacant(key),
{
    assert forall|k: Key| #[trigger] fs.nodes.contains_key(k) implies !within(key, k) by {
        if within(key, k) {
            lemma_ancestors_are_dirs(fs, key, k);
        }
    }
}

/// What a copy of a tree leaves: everything that was there is there
/// unchanged; under the destination there is exactly what was under the
/// source, with the same names and the same bytes; and beside that only the
/// directories that lead to the destination are new.
pub proof fn lemma_grafted(fs: FsState, from: Key, to: Key, k: Key)
    requires
        fs.can_graft(from, to),
    ensures
        fs.nodes.contains_key(k) ==> fs.grafted(from, to).nodes.contains_key(k) && fs.grafted(
            from,
            to,
        ).nodes[k] == fs.nodes[k],
        within(to, k) ==> !fs.nodes.contains_key(k) && fs.grafted(from, to).nodes.contains_key(k)
            == fs.nodes.contains_key(rebase(to.len() as int, from, k)) && (fs.grafted(
            from,
            to,
        ).nodes.contains_key(k) ==> fs.grafted(from, to).nodes[k] == fs.nodes[rebase(
            to.len() as int,
            from,
            k,
        )]),
        within(from, k) ==> fs.grafted(from, to).nodes.contains_key(k) == fs.nodes.contains_key(k),
        !within(to, k) && !fs.nodes.contains_key(k) && fs.grafted(from, to).nodes.contains_key(k)
            ==> k.len() > 0 && within(k, to) && k != to && fs.grafted(from, to).nodes[k] is Dir,
{
    let grown = fs.grafted(from, to);
    lemma_absent_is_vacant(fs, to);
    if within(to, k) {
        assert(!fs.nodes.contains_key(k));
        if k.len() > 0 && within(k, to) {
            assert(k.subrange(0, k.len() as int) =~= k);
            assert(to.subrange(0, k.len() as int) =~= to);
            assert(k == to);
            assert(rebase(to.len() as int, from, k) =~= from);
        }
    }
    if within(from, k) && grown.nodes.contains_key(k) && !fs.nodes.contains_key(k) {
        if within(to, k) {
            lemma_comparable(from, to, k);
        } else {
            lemma_within_trans(from, k, to);
        }
    }
    if !within(to, k) && k.len() > 0 && within(k, to) {
        assert(k != to) by {
            if k == to {
                assert(to.subrange(0, to.len() as int) =~= to);
            }
        }
    }
}

/// Where nothing exists at the destination, to fill it is to make a copy
/// there.
pub proof fn lemma_filled_is_grafted(fs: FsState, from: Key, to: Key)
    requires
        fs.can_graft(from, to),
    ensures
        fs.filled(from, to) == fs.grafted(from, to),
{
    lemma_absent_is_vacant(fs, to);
    assert forall|k: Key|
        #![trigger fs.filled(from, to).nodes.contains_key(k)]
        #![trigger fs.grafted(from, to).nodes.contains_key(k)]
        fs.filled(from, to).nodes.contains_key(k) == fs.grafted(from, to).nodes.contains_key(k)
            && (fs.filled(from, to).nodes.contains_key(k) ==> fs.filled(from, to).nodes[k]
            == fs.grafted(from, to).nodes[k]) by {
        if within(to, k) {
            assert(!fs.nodes.contains_key(k));
            let source = rebase(to.len() as int, from, k);
            if fs.nodes.contains_key(source) && !(fs.nodes[source] is File) {
                assert(fs.nodes[source] == Node::Dir);
            }
        }
    }
    assert(fs.filled(from, to).nodes =~= fs.grafted(from, to).nodes);
}

/// A copy of a tree, taken away again at its destination, leaves the
/// filesystem as it was, where the directory above the destination existed.
pub proof fn lemma_graft_then_remove(fs: FsState, from: Key, to: Key)
    requires
        fs.can_graft(from, to),
        fs.is_dir(to.drop_last()),
    ensures
        fs.grafted(from, to).without(to) == fs,
        fs.grafted(from, to).is_dir(to),
{
    let grown = fs.grafted(from, to);
    let cleared = grown.without(to);
    assert forall|k: Key|
        #![trigger cleared.nodes.contains_key(k)]
        #![trigger fs.nodes.contains_key(k)]
        cleared.nodes.contains_key(k) == fs.nodes.contains_key(k) && (fs.nodes.contains_key(k)
            ==> cleared.nodes[k] == fs.nodes[k]) by {
        lemma_grafted(fs, from, to, k);
        if !within(to, k) && !fs.nodes.contains_key(k) && grown.nodes.contains_key(k) {
            lemma_prefix_of_parent(k, to);
            if k != to.drop_last() {
                lemma_ancestors_are_dirs(fs, k, to.drop_last());
            }
        }
    }
    assert(cleared.nodes =~= fs.nodes);
    lemma_grafted(fs, from, to, to);
    assert(within(to, to)) by {
        assert(to.subrange(0, to.len() as int) =~= to);
    }
    assert(rebase(to.len() as int, from, to) =~= from);
}

/// A copy of a tree, with the source then removed and the copy moved to
/// where the source was, leaves the filesystem as it was, where the
/// directory above the destination existed.
pub proof fn lemma_graft_then_swap(fs: FsState, from: Key, to: Key)
    requires
        fs.can_graft(from, to),
        fs.is_dir(to.drop_last()),
    ensures
        fs.grafted(from, to).without(from).moved(to, from) == fs,
        fs.grafted(from, to).without(from).vacant(from),
{
    let grown = fs.grafted(from, to);
    let removed = grown.without(from);
    let swapped = removed.moved(to, from);
    assert forall|k: Key|
        #![trigger swapped.nodes.contains_key(k)]
        #![trigger fs.nodes.contains_key(k)]
        swapped.nodes.contains_key(k) == fs.nodes.contains_key(k) && (fs.nodes.contains_key(k)
            ==> swapped.nodes[k] == fs.nodes[k]) by {
        lemma_grafted(fs, from, to, k);
        if within(from, k) {
            let there = rebase(from.len() as int, to, k);
            lemma_rebase(from, to, k);
            lemma_grafted(fs, from, to, there);
            if within(from, there) {
                lemma_comparable(from, to, there);
            }
            if within(to, k) {
                lemma_comparable(from, to, k);
            }
            assert(removed.nodes.contains_key(there) == grown.nodes.contains_key(there));
        } else if within(to, k) {
        } else if !fs.nodes.contains_key(k) && grown.nodes.contains_key(k) {
            lemma_prefix_of_parent(k, to);
            if k != to.drop_last() {
                lemma_ancestors_are_dirs(fs, k, to.drop_last());
            }
        }
    }
    assert(swapped.nodes =~= fs.nodes);
}

/// The key of what stands before the last `/` of a path leads to the key of
/// the path.
pub proof fn lemma_locate_front(path: Seq<char>)
    requires
        0 <= last_slash(path),
    ensures
        last_slash(path) < path.len(),
        within(locate(path.subrange(0, last_slash(path))), locate(path)),
        locate(path) == locate(path.subrange(0, last_slash(path))) || locate(path).drop_last()
            == locate(path.subrange(0, last_slash(path))),
{
    lemma_last_slash_bounds(path);
    let front = locate(path.subrange(0, last_slash(path)));
    let last = path.subrange(last_slash(path) + 1, path.len() as int);
    lemma_within_self(front, last);
    assert(front.push(last).drop_last() =~= front);
}

/// The levels of a level of a path are the levels of the path up to it.
pub proof fn lemma_levels_of_level(path: Seq<char>, j: int)
    requires
        0 <= j < ancestors(path).len(),
    ensures
        ancestors(ancestors(path)[j]) == ancestors(path).take(j + 1),
    decreases path.len(),
{
    let cut = last_slash(path);
    lemma_last_slash_bounds(path);
    if j == ancestors(path).len() - 1 {
        assert(ancestors(path).take(j + 1) =~= ancestors(path));
    } else {
        let front = path.subrange(0, cut);
        lemma_levels_of_level(front, j);
        assert(ancestors(path).take(j + 1) =~= ancestors(front).take(j + 1));
    }
}

/// The key of every level of a path leads to the key of the path.
pub proof fn lemma_level_leads(path: Seq<char>, i: int)
    requires
        0 <= i < ancestors(path).len(),
    ensures
        within(locate(ancestors(path)[i]), locate(path)),
    decreases path.len(),
{
    let cut = last_slash(path);
    lemma_last_slash_bounds(path);
    if i == ancestors(path).len() - 1 {
        lemma_within_self(locate(path), Seq::empty());
    } else {
        let front = path.subrange(0, cut);
        lemma_level_leads(front, i);
        lemma_locate_front(path);
        lemma_within_trans(locate(ancestors(front)[i]), locate(front), locate(path));
    }
}

/// Every key that leads to the key of a path, but for the root, is the key
/// of one of the levels of the path.
pub proof fn lemma_levels_cover(path: Seq<char>, k: Key) -> (i: int)
    requires
        k.len() > 0,
        within(k, locate(path)),
    ensures
        0 <= i < ancestors(path).len(),
        locate(ancestors(path)[i]) == k,
    decreases path.len(),
{
    let cut = last_slash(path);
    lemma_last_slash_bounds(path);
    if k == locate(path) {
        ancestors(path).len() - 1
    } else {
        assert(path.len() > 0);
        let front = if 0 <= cut {
            path.subrange(0, cut)
        } else {
            Seq::empty()
        };
        let front_key = locate(front);
        let last = path.subrange(cut + 1, path.len() as int);
        assert(locate(path) == front_key || locate(path) == front_key.push(last));
        if locate(path) == front_key.push(last) {
            lemma_leads_to_parent(k, front_key, last);
        }
        assert(within(k, front_key));
        assert(front.len() > 0);
        let i = lemma_levels_cover(front, k);
        i
    }
}

/// The first of some levels at which nothing exists, where there is one:
/// something exists at every level before it.
pub proof fn lemma_first_missing(levels: Seq<Seq<char>>, from: nat, fs: FsState, absent: int) -> (j:
    int)
    requires
        from <= absent < levels.len(),
        !fs.present(locate(levels[absent])),
    ensures
        from <= j <= absent,
        first_missing(levels, from, fs) == levels[j],
        !fs.present(locate(levels[j])),
        forall|i: int| from <= i < j ==> fs.present(locate(#[trigger] levels[i])),
    decreases levels.len() - from,
{
    if !fs.present(locate(levels[from as int])) {
        from as int
    } else {
        lemma_first_missing(levels, from + 1, fs, absent)
    }
}

/// The first of some levels, from an index on, at which nothing exists;
/// empty where something exists at each.
pub open spec fn first_missing(levels: Seq<Seq<char>>, from: nat, fs: FsState) -> Seq<char>
    decreases levels.len() - from,
{
    if from >= levels.len() {
        Seq::empty()
    } else if !fs.present(locate(levels[from as int])) {
        levels[from as int]
    } else {
        first_missing(levels, from + 1, fs)
    }
}

/// The topmost missing level of a path at which nothing exists: the first of
/// its levels at which nothing exists.
pub open spec fn topmost_missing(path: Seq<char>, fs: FsState) -> Seq<char> {
    first_missing(ancestors(path), 0, fs)
}

/// Where nothing exists at a path, its topmost missing level leads to the
/// path, nothing exists at it, and what is above it exists.
pub proof fn lemma_topmost_missing(path: Seq<char>, fs: FsState)
    requires
        !fs.present(locate(path)),
    ensures
        topmost_missing(path, fs).len() > 0,
        locate(topmost_missing(path, fs)).len() > 0,
        !fs.present(locate(topmost_missing(path, fs))),
        within(locate(topmost_missing(path, fs)), locate(path)),
        fs.present(locate(topmost_missing(path, fs)).drop_last()),
{
    let levels = ancestors(path);
    let j = lemma_first_missing(levels, 0, fs, levels.len() - 1);
    let top = levels[j];
    let key = locate(top);
    lemma_level_leads(path, j);
    let above = key.drop_last();
    if above.len() > 0 {
        assert(within(above, key)) by {
            assert(key.subrange(0, above.len() as int) =~= above);
        }
        let i = lemma_levels_cover(top, above);
        lemma_levels_of_level(path, j);
        assert(ancestors(top)[i] == levels.take(j + 1)[i]);
        assert(i != j);
    }
}

/// A copy of a tree, taken away again at the topmost level that was missing
/// on the way to its destination, leaves the filesystem as it was.
pub proof fn lemma_graft_then_remove_top(fs: FsState, from: Key, to: Key, top: Key)
    requires
        fs.can_graft(from, to),
        top.len() > 0,
        within(top, to),
        !fs.present(top),
        fs.present(top.drop_last()),
    ensures
        fs.grafted(from, to).without(top) == fs,
        fs.grafted(from, to).is_dir(top),
{
    let grown = fs.grafted(from, to);
    let cleared = grown.without(top);
    lemma_absent_is_vacant(fs, top);
    assert forall|k: Key|
        #![trigger cleared.nodes.contains_key(k)]
        #![trigger fs.nodes.contains_key(k)]
        cleared.nodes.contains_key(k) == fs.nodes.contains_key(k) && (fs.nodes.contains_key(k)
            ==> cleared.nodes[k] == fs.nodes[k]) by {
        lemma_grafted(fs, from, to, k);
        if !within(top, k) && !fs.nodes.contains_key(k) && grown.nodes.contains_key(k) {
            if within(to, k) {
                lemma_within_trans(top, to, k);
            } else {
                lemma_comparable(k, top, to);
                lemma_prefix_of_parent(k, top);
                if k != top.drop_last() {
                    lemma_ancestors_are_dirs(fs, k, top.drop_last());
                }
            }
        }
    }
    assert(cleared.nodes =~= fs.nodes);
    assert(within(top, top)) by {
        assert(top.subrange(0, top.len() as int) =~= top);
    }
    lemma_grafted(fs, from, to, top);
    if within(to, top) {
        assert(top.subrange(0, top.len() as int) =~= top);
        assert(to.subrange(0, top.len() as int) =~= to);
        assert(rebase(to.len() as int, from, top) =~= from);
    }
}

/// The same for the making of a directory: taken away again at the topmost
/// level that was missing, it leaves the filesystem as it was.
pub proof fn lemma_dirs_then_remove_top(fs: FsState, key: Key, top: Key)
    requires
        fs.wf(),
        top.len() > 0,
        within(top, key),
        !fs.present(top),
        fs.present(top.drop_last()),
    ensures
        fs.with_dirs(key).without(top) == fs,
        fs.with_dirs(key).is_dir(top),
{
    let grown = fs.with_dirs(key);
    let cleared = grown.without(top);
    lemma_absent_is_vacant(fs, top);
    assert forall|k: Key|
        #![trigger cleared.nodes.contains_key(k)]
        #![trigger fs.nodes.contains_key(k)]
        cleared.nodes.contains_key(k) == fs.nodes.contains_key(k) && (fs.nodes.contains_key(k)
            ==> cleared.nodes[k] == fs.nodes[k]) by {
        if !within(top, k) && !fs.nodes.contains_key(k) && grown.nodes.contains_key(k) {
            lemma_comparable(k, top, key);
            lemma_prefix_of_parent(k, top);
            if k != top.drop_last() {
                lemma_ancestors_are_dirs(fs, k, top.drop_last());
            }
        }
    }
    assert(cleared.nodes =~= fs.nodes);
}

} // verus!
