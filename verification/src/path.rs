//! Path text: joining a directory with an entry name, and telling which
//! names can stand for a directory entry.
//!
//! Paths are plain strings with `/` between components. Nothing here
//! canonicalizes: the host resolves what the strings mean.

use vstd::prelude::*;

verus! {

/// The text of `dir` extended by the component `name`.
///
/// An empty `dir` gives `name` alone; a `dir` that already ends in `/` gets
/// no second separator.
pub open spec fn joined(dir: Seq<char>, name: Seq<char>) -> Seq<char> {
    if dir.len() == 0 {
        name
    } else if dir.last() == '/' {
        dir + name
    } else {
        dir + seq!['/'] + name
    }
}

/// Whether `name` can name one directory entry: it is not empty, is neither
/// `.` nor `..`, and holds no `/`.
pub open spec fn is_entry_name(name: Seq<char>) -> bool {
    &&& name.len() > 0
    &&& name != seq!['.']
    &&& name != seq!['.', '.']
    &&& forall|i: int| 0 <= i < name.len() ==> name[i] != '/'
}

/// Joins `dir` and `name` into one path.
pub fn join(dir: &str, name: &str) -> (path: String)
    ensures
        path@ == joined(dir@, name@),
{
    let n: usize = dir.unicode_len();
    if n == 0 {
        let path = String::from_str(name);
        path
    } else {
        let mut path = String::from_str(dir);
        if dir.get_char(n - 1) != '/' {
            proof {
                reveal_strlit("/");
            }
            path.append("/");
            assert(path@ =~= dir@ + seq!['/']);
        }
        path.append(name);
        path
    }
}

/// Tells whether `name` can name one directory entry.
pub fn check_entry_name(name: &str) -> (ok: bool)
    ensures
        ok == is_entry_name(name@),
{
    let n: usize = name.unicode_len();
    if n == 0 {
        return false;
    }
    if n == 1 && name.get_char(0) == '.' {
        assert(name@ =~= seq!['.']);
        return false;
    }
    if n == 2 && name.get_char(0) == '.' && name.get_char(1) == '.' {
        assert(name@ =~= seq!['.', '.']);
        return false;
    }
    let mut i: usize = 0;
    while i < n
        invariant
            n == name@.len(),
            i <= n,
            forall|j: int| 0 <= j < i ==> name@[j] != '/',
        decreases n - i,
    {
        if name.get_char(i) == '/' {
            return false;
        }
        i += 1;
    }
    assert(name@ != seq!['.']) by {
        if name@ == seq!['.'] {
            assert(name@.len() == 1);
            assert(name@[0] == '.');
        }
    }
    assert(name@ != seq!['.', '.']) by {
        if name@ == seq!['.', '.'] {
            assert(name@.len() == 2);
            assert(name@[0] == '.');
            assert(name@[1] == '.');
        }
    }
    true
}

/// The index of the last `/` in `path`, or -1 where it has none.
pub open spec fn last_slash(path: Seq<char>) -> int
    decreases path.len(),
{
    if path.len() == 0 {
        -1
    } else if path.last() == '/' {
        path.len() - 1
    } else {
        last_slash(path.drop_last())
    }
}

/// The last `/` of a text lies inside the text.
pub proof fn lemma_last_slash_bounds(path: Seq<char>)
    ensures
        -1 <= last_slash(path) < path.len(),
    decreases path.len(),
{
    if path.len() > 0 && path.last() != '/' {
        lemma_last_slash_bounds(path.drop_last());
    }
}

/// The levels of a path: what stands before each of its `/`, but for a `/`
/// at its very start, shortest first, and the path itself at the end.
pub open spec fn ancestors(path: Seq<char>) -> Seq<Seq<char>>
    decreases path.len(),
{
    let cut = last_slash(path);
    let front = if 0 < cut < path.len() {
        ancestors(path.subrange(0, cut))
    } else {
        Seq::empty()
    };
    front.push(path)
}

/// The texts `texts` as contracts see them.
pub open spec fn texts_view(texts: Seq<String>) -> Seq<Seq<char>> {
    texts.map_values(|t: String| t@)
}

/// Finds the last `/` of `path`.
pub fn find_last_slash(path: &str) -> (found: Option<usize>)
    ensures
        match found {
            Some(i) => i == last_slash(path@),
            None => last_slash(path@) == -1,
        },
{
    let mut i: usize = path.unicode_len();
    assert(path@.subrange(0, i as int) =~= path@);
    while i > 0
        invariant
            i <= path@.len(),
            last_slash(path@) == last_slash(path@.subrange(0, i as int)),
        decreases i,
    {
        let ghost head = path@.subrange(0, i as int);
        assert(head.last() == path@[i - 1]);
        assert(head.drop_last() =~= path@.subrange(0, i - 1));
        if path.get_char(i - 1) == '/' {
            return Some(i - 1);
        }
        i -= 1;
    }
    None
}

/// The levels of `path`, shortest first.
pub fn ancestors_of(path: &str) -> (levels: Vec<String>)
    ensures
        texts_view(levels@) == ancestors(path@),
        levels@.len() > 0,
    decreases path@.len(),
{
    let mut levels: Vec<String> = match find_last_slash(path) {
        Some(cut) => {
            proof {
                lemma_last_slash_bounds(path@);
            }
            if cut > 0 {
                ancestors_of(path.substring_char(0, cut))
            } else {
                Vec::new()
            }
        },
        None => Vec::new(),
    };
    let ghost front = texts_view(levels@);
    levels.push(String::from_str(path));
    assert(texts_view(levels@) =~= front.push(path@));
    assert(front =~= if 0 < last_slash(path@) < path@.len() {
        ancestors(path@.subrange(0, last_slash(path@)))
    } else {
        Seq::empty()
    });
    levels
}

} // verus!
