//! The directory tree that the codec reads and writes, held in memory.
//!
//! A tree maps paths to nodes: a file with its content, or a directory. Every
//! change is also recorded in a journal, so that a caller who loaded the tree
//! from a disk can make the same changes there, in the same order.

use crate::path::TreePath;
use vstd::prelude::*;

verus! {

/// What a path holds, as a mathematical value.
pub enum NodeView {
    /// A file with its content.
    File(Seq<u8>),
    /// A directory.
    Dir,
}

/// A tree as a mathematical value: what each path holds.
pub type TreeView = Map<Seq<Seq<char>>, NodeView>;

/// Whether `p` denotes a file.
pub open spec fn is_file(t: TreeView, p: Seq<Seq<char>>) -> bool {
    t.dom().contains(p) && t[p] is File
}

/// Whether `p` denotes a directory.
pub open spec fn is_dir(t: TreeView, p: Seq<Seq<char>>) -> bool {
    t.dom().contains(p) && t[p] is Dir
}

/// Every node but the root lies in a directory.
pub open spec fn well_formed(t: TreeView) -> bool {
    forall|p: Seq<Seq<char>>| #[trigger]
        t.dom().contains(p) && p.len() > 0 ==> is_dir(t, p.drop_last())
}

/// The tree without `p` and everything beneath it.
pub open spec fn without(t: TreeView, p: Seq<Seq<char>>) -> TreeView {
    Map::new(|q: Seq<Seq<char>>| t.dom().contains(q) && !p.is_prefix_of(q), |q: Seq<Seq<char>>| t[q])
}

/// Whether no file stands on the way from the root to `p`, `p` included.
pub open spec fn dirs_free(t: TreeView, p: Seq<Seq<char>>) -> bool {
    forall|k: int| 0 <= k <= p.len() ==> !is_file(t, #[trigger] p.take(k))
}

/// The tree with a directory at `p` and at every path above it that held
/// nothing.
pub open spec fn with_dirs(t: TreeView, p: Seq<Seq<char>>) -> TreeView {
    Map::new(
        |q: Seq<Seq<char>>| t.dom().contains(q) || q.is_prefix_of(p),
        |q: Seq<Seq<char>>|
            if t.dom().contains(q) {
                t[q]
            } else {
                NodeView::Dir
            },
    )
}

/// The tree with a directory wherever one is missing above `p`. The
/// directory that holds the root lies outside the tree and is taken to exist.
pub open spec fn with_parent_dirs(t: TreeView, p: Seq<Seq<char>>) -> TreeView {
    if p.len() == 0 {
        t
    } else {
        with_dirs(t, p.drop_last())
    }
}

/// Whether the directories above `p` exist or can be made.
pub open spec fn parent_dirs_free(t: TreeView, p: Seq<Seq<char>>) -> bool {
    p.len() > 0 ==> dirs_free(t, p.drop_last())
}

/// Whether a file can be created or overwritten at `p`: no directory stands
/// there, and the directory that is to hold it exists.
pub open spec fn can_write(t: TreeView, p: Seq<Seq<char>>) -> bool {
    !is_dir(t, p) && (p.len() > 0 ==> is_dir(t, p.drop_last()))
}

/// The tree with a directory at each path above or at `p` that is shorter
/// than `k` names and held nothing.
pub open spec fn with_dirs_below(t: TreeView, p: Seq<Seq<char>>, k: int) -> TreeView {
    Map::new(
        |q: Seq<Seq<char>>| t.dom().contains(q) || (q.is_prefix_of(p) && q.len() < k),
        |q: Seq<Seq<char>>|
            if t.dom().contains(q) {
                t[q]
            } else {
                NodeView::Dir
            },
    )
}

/// The views of the strings of `names`.
pub open spec fn names_view(names: Seq<String>) -> Seq<Seq<char>> {
    Seq::new(names.len(), |i: int| names[i]@)
}

/// The path of a node that lies in a directory starts with the path of that
/// directory.
pub proof fn lemma_prefix_of_parent(p: Seq<Seq<char>>, q: Seq<Seq<char>>)
    requires
        q.len() > 0,
        p.is_prefix_of(q.drop_last()),
    ensures
        p.is_prefix_of(q),
{
    assert(q.subrange(0, p.len() as int) =~= q.drop_last().subrange(0, p.len() as int));
}

/// Removing a directory with all beneath it leaves a well-formed tree.
pub proof fn lemma_without_well_formed(t: TreeView, p: Seq<Seq<char>>)
    requires
        well_formed(t),
    ensures
        well_formed(without(t, p)),
{
    let after = without(t, p);
    assert forall|q: Seq<Seq<char>>| #[trigger]
        after.dom().contains(q) && q.len() > 0 implies is_dir(after, q.drop_last()) by {
        assert(t.dom().contains(q));
        assert(is_dir(t, q.drop_last()));
        if p.is_prefix_of(q.drop_last()) {
            lemma_prefix_of_parent(p, q);
        }
    }
}

/// Making the directories down to `p` leaves a well-formed tree.
pub proof fn lemma_with_dirs_well_formed(t: TreeView, p: Seq<Seq<char>>)
    requires
        well_formed(t),
        dirs_free(t, p),
    ensures
        well_formed(with_dirs(t, p)),
        is_dir(with_dirs(t, p), p),
{
    let after = with_dirs(t, p);
    assert forall|q: Seq<Seq<char>>| #[trigger]
        after.dom().contains(q) && q.len() > 0 implies is_dir(after, q.drop_last()) by {
        if t.dom().contains(q) {
            assert(is_dir(t, q.drop_last()));
        } else {
            let parent = q.drop_last();
            assert(parent =~= p.take(parent.len() as int)) by {
                assert(q =~= p.subrange(0, q.len() as int));
            }
            assert(parent.is_prefix_of(p));
            assert(!is_file(t, p.take(parent.len() as int)));
        }
    }
    assert(p.is_prefix_of(p)) by {
        assert(p =~= p.subrange(0, p.len() as int));
    }
    assert(p.take(p.len() as int) =~= p);
    assert(!is_file(t, p.take(p.len() as int)));
}

/// The names listed inside `p` are those of the entries directly inside
/// `p`, each once.
pub proof fn lemma_names_under(entries: Seq<Entry>, p: Seq<Seq<char>>)
    requires
        distinct_paths(entries),
    ensures
        names_under(entries, p).no_duplicates(),
        forall|name: Seq<char>| #[trigger]
            names_under(entries, p).contains(name) <==> has_path(entries, p.push(name)),
    decreases entries.len(),
{
    let names = names_under(entries, p);
    if entries.len() == 0 {
        assert forall|name: Seq<char>| #[trigger]
            names.contains(name) <==> has_path(entries, p.push(name)) by {}
    } else {
        let before = entries.drop_last();
        let rest = names_under(before, p);
        let q = entries.last().path@;
        assert forall|i: int, j: int|
            0 <= i < before.len() && 0 <= j < before.len() && i != j implies #[trigger] before[i].path@
            != #[trigger] before[j].path@ by {
            assert(entries[i].path@ != entries[j].path@);
        }
        lemma_names_under(before, p);
        let direct = q.len() == p.len() + 1 && q.drop_last() == p;
        if direct {
            assert(q =~= p.push(q.last()));
            assert(!has_path(before, q)) by {
                if has_path(before, q) {
                    let i = index_of(before, q);
                    assert(entries[i].path@ == q);
                    assert(entries[entries.len() - 1].path@ == q);
                }
            }
            assert(!rest.contains(q.last()));
            assert(names =~= rest.push(q.last()));
            assert forall|i: int, j: int|
                0 <= i < names.len() && 0 <= j < names.len() && i != j implies names[i]
                != names[j] by {
                if i < rest.len() && j < rest.len() {
                } else if i < rest.len() {
                    assert(rest.contains(rest[i]));
                } else {
                    assert(rest.contains(rest[j]));
                }
            }
        }
        assert forall|name: Seq<char>| #[trigger]
            names.contains(name) <==> has_path(entries, p.push(name)) by {
            let target = p.push(name);
            assert(target.drop_last() =~= p);
            assert(target.last() == name);
            if names.contains(name) {
                let i = choose|i: int| 0 <= i < names.len() && names[i] == name;
                if direct && i == rest.len() {
                    assert(entries[entries.len() - 1].path@ == target);
                } else {
                    assert(rest[i] == name);
                    assert(rest.contains(name));
                    let k = index_of(before, target);
                    assert(entries[k].path@ == target);
                }
            }
            if has_path(entries, target) {
                let k = index_of(entries, target);
                if k == entries.len() - 1 {
                    assert(q == target);
                    assert(names[rest.len() as int] == name);
                } else {
                    assert(before[k].path@ == target);
                    assert(rest.contains(name));
                    let i = choose|i: int| 0 <= i < rest.len() && rest[i] == name;
                    assert(names[i] == name);
                }
            }
        }
    }
}

/// In a well-formed tree every path above a node is a directory.
pub proof fn lemma_ancestors_are_dirs(t: TreeView, q: Seq<Seq<char>>)
    requires
        well_formed(t),
        t.dom().contains(q),
    ensures
        forall|k: int| 0 <= k < q.len() ==> is_dir(t, #[trigger] q.take(k)),
    decreases q.len(),
{
    if q.len() > 0 {
        let parent = q.drop_last();
        assert(is_dir(t, parent));
        lemma_ancestors_are_dirs(t, parent);
        assert forall|k: int| 0 <= k < q.len() implies is_dir(t, #[trigger] q.take(k)) by {
            if k == q.len() - 1 {
                assert(q.take(k) =~= parent);
            } else {
                assert(q.take(k) =~= parent.take(k));
            }
        }
    }
}

/// One path lies at or under another exactly if it starts with all the
/// names of the other.
pub proof fn lemma_prefix_push(p: Seq<Seq<char>>, name: Seq<char>, q: Seq<Seq<char>>)
    ensures
        p.push(name).is_prefix_of(q) <==> (p.is_prefix_of(q) && q.len() > p.len() && q[p.len() as int]
            == name),
{
    let c = p.push(name);
    if c.is_prefix_of(q) {
        assert(c =~= q.subrange(0, c.len() as int));
        assert(p =~= q.subrange(0, p.len() as int)) by {
            assert forall|i: int| 0 <= i < p.len() implies p[i] == q.subrange(0, p.len() as int)[i] by {
                assert(c[i] == q.subrange(0, c.len() as int)[i]);
            }
        }
        assert(c[p.len() as int] == q.subrange(0, c.len() as int)[p.len() as int]);
    }
    if p.is_prefix_of(q) && q.len() > p.len() && q[p.len() as int] == name {
        assert(p =~= q.subrange(0, p.len() as int));
        assert(c =~= q.subrange(0, c.len() as int)) by {
            assert forall|i: int| 0 <= i < c.len() implies c[i] == q.subrange(0, c.len() as int)[i] by {
                if i < p.len() {
                    assert(p[i] == q.subrange(0, p.len() as int)[i]);
                }
            }
        }
    }
}

/// Why an operation on the tree failed.
#[derive(Clone, Copy, Debug, PartialEq, Eq, Structural)]
pub enum IoErrorKind {
    /// The path holds nothing.
    NotFound,
    /// A file stands where a directory is needed.
    NotADirectory,
    /// A directory stands where a file is needed.
    IsADirectory,
    /// A file that is read as text holds no valid UTF-8.
    InvalidData,
}

/// A change to the tree, as a mathematical value.
pub enum FsOpView {
    /// Remove the file at the path.
    RemoveFile(Seq<Seq<char>>),
    /// Remove the directory at the path with everything beneath it.
    RemoveDirAll(Seq<Seq<char>>),
    /// Make a directory at the path and wherever one is missing above it.
    CreateDirAll(Seq<Seq<char>>),
    /// Make a directory wherever one is missing above the path.
    CreateParentDirs(Seq<Seq<char>>),
    /// Create or overwrite the file at the path with the content.
    Write(Seq<Seq<char>>, Seq<u8>),
}

/// The tree after the change `op`.
pub open spec fn apply(t: TreeView, op: FsOpView) -> TreeView {
    match op {
        FsOpView::RemoveFile(p) => t.remove(p),
        FsOpView::RemoveDirAll(p) => without(t, p),
        FsOpView::CreateDirAll(p) => with_dirs(t, p),
        FsOpView::CreateParentDirs(p) => with_parent_dirs(t, p),
        FsOpView::Write(p, content) => t.insert(p, NodeView::File(content)),
    }
}

/// Whether the change `op` can be made to the tree: there is a file to
/// remove, a directory to remove, no file in the way of the directories to
/// make, or a place for the file to write.
pub open spec fn can_apply(t: TreeView, op: FsOpView) -> bool {
    match op {
        FsOpView::RemoveFile(p) => is_file(t, p),
        FsOpView::RemoveDirAll(p) => is_dir(t, p),
        FsOpView::CreateDirAll(p) => dirs_free(t, p),
        FsOpView::CreateParentDirs(p) => parent_dirs_free(t, p),
        FsOpView::Write(p, _) => can_write(t, p),
    }
}

/// Why the change `op` cannot be made to the tree, where it cannot.
pub open spec fn apply_error(t: TreeView, op: FsOpView) -> IoErrorKind {
    match op {
        FsOpView::RemoveFile(p) => if is_dir(t, p) {
            IoErrorKind::IsADirectory
        } else {
            IoErrorKind::NotFound
        },
        FsOpView::RemoveDirAll(p) => if is_file(t, p) {
            IoErrorKind::NotADirectory
        } else {
            IoErrorKind::NotFound
        },
        FsOpView::CreateDirAll(_) => IoErrorKind::NotADirectory,
        FsOpView::CreateParentDirs(_) => IoErrorKind::NotADirectory,
        FsOpView::Write(p, _) => if is_dir(t, p) {
            IoErrorKind::IsADirectory
        } else if is_file(t, p.drop_last()) {
            IoErrorKind::NotADirectory
        } else {
            IoErrorKind::NotFound
        },
    }
}

/// The tree after the changes `ops`, made in order.
pub open spec fn replay(t: TreeView, ops: Seq<FsOpView>) -> TreeView
    decreases ops.len(),
{
    if ops.len() == 0 {
        t
    } else {
        apply(replay(t, ops.drop_last()), ops.last())
    }
}

/// What a path holds.
#[derive(Debug, PartialEq, Eq)]
pub enum Node {
    /// A file with its content.
    File(Vec<u8>),
    /// A directory.
    Dir,
}

impl View for Node {
    type V = NodeView;

    open spec fn view(&self) -> NodeView {
        match self {
            Node::File(content) => NodeView::File(content@),
            Node::Dir => NodeView::Dir,
        }
    }
}

/// A change to the tree.
#[derive(Debug, PartialEq, Eq)]
pub enum FsOp {
    /// Remove the file at the path.
    RemoveFile(TreePath),
    /// Remove the directory at the path with everything beneath it.
    RemoveDirAll(TreePath),
    /// Make a directory at the path and wherever one is missing above it.
    CreateDirAll(TreePath),
    /// Make a directory wherever one is missing above the path.
    CreateParentDirs(TreePath),
    /// Create or overwrite the file at the path with the content.
    Write(TreePath, Vec<u8>),
}

impl View for FsOp {
    type V = FsOpView;

    open spec fn view(&self) -> FsOpView {
        match self {
            FsOp::RemoveFile(p) => FsOpView::RemoveFile(p@),
            FsOp::RemoveDirAll(p) => FsOpView::RemoveDirAll(p@),
            FsOp::CreateDirAll(p) => FsOpView::CreateDirAll(p@),
            FsOp::CreateParentDirs(p) => FsOpView::CreateParentDirs(p@),
            FsOp::Write(p, content) => FsOpView::Write(p@, content@),
        }
    }
}

/// One node of the tree with its path.
pub struct Entry {
    pub path: TreePath,
    pub node: Node,
}

/// Whether no path occurs twice among the entries.
pub open spec fn distinct_paths(entries: Seq<Entry>) -> bool {
    forall|i: int, j: int|
        0 <= i < entries.len() && 0 <= j < entries.len() && i != j ==> #[trigger] entries[i].path@
            != #[trigger] entries[j].path@
}

/// Whether some entry has the path `p`.
pub open spec fn has_path(entries: Seq<Entry>, p: Seq<Seq<char>>) -> bool {
    exists|i: int| 0 <= i < entries.len() && #[trigger] entries[i].path@ == p
}

/// The place of an entry with the path `p`.
pub open spec fn index_of(entries: Seq<Entry>, p: Seq<Seq<char>>) -> int {
    choose|i: int| 0 <= i < entries.len() && #[trigger] entries[i].path@ == p
}

/// The tree that the entries make up.
pub open spec fn entries_view(entries: Seq<Entry>) -> TreeView {
    Map::new(
        |p: Seq<Seq<char>>| has_path(entries, p),
        |p: Seq<Seq<char>>| entries[index_of(entries, p)].node@,
    )
}

/// The names of the entries directly inside `p`, in the order of the entries.
pub open spec fn names_under(entries: Seq<Entry>, p: Seq<Seq<char>>) -> Seq<Seq<char>>
    decreases entries.len(),
{
    if entries.len() == 0 {
        Seq::empty()
    } else {
        let rest = names_under(entries.drop_last(), p);
        let q = entries.last().path@;
        if q.len() == p.len() + 1 && q.drop_last() == p {
            rest.push(q.last())
        } else {
            rest
        }
    }
}

/// With distinct paths, the entry at place `i` is the one that its path
/// finds.
pub proof fn lemma_entry_found(entries: Seq<Entry>, i: int)
    requires
        distinct_paths(entries),
        0 <= i < entries.len(),
    ensures
        has_path(entries, entries[i].path@),
        index_of(entries, entries[i].path@) == i,
        entries_view(entries).dom().contains(entries[i].path@),
        entries_view(entries)[entries[i].path@] == entries[i].node@,
{
    let p = entries[i].path@;
    assert(0 <= i < entries.len() && entries[i].path@ == p);
}

/// The entries make up the tree `t` where each entry stands in `t` with its
/// node and `t` holds no other path.
pub proof fn lemma_view_is(entries: Seq<Entry>, t: TreeView)
    requires
        distinct_paths(entries),
        forall|i: int|
            0 <= i < entries.len() ==> t.dom().contains((#[trigger] entries[i]).path@)
                && t[entries[i].path@] == entries[i].node@,
        forall|q: Seq<Seq<char>>| #[trigger] t.dom().contains(q) ==> has_path(entries, q),
    ensures
        entries_view(entries) == t,
{
    let v = entries_view(entries);
    assert forall|q: Seq<Seq<char>>| v.dom().contains(q) == t.dom().contains(q) by {
        if has_path(entries, q) {
            let i = index_of(entries, q);
            assert(t.dom().contains(entries[i].path@));
        }
    }
    assert forall|q: Seq<Seq<char>>| #[trigger] v.dom().contains(q) implies v[q] == t[q] by {
        let i = index_of(entries, q);
        assert(t[entries[i].path@] == entries[i].node@);
    }
    assert(v =~= t);
}

/// Every path of the tree has an entry.
pub proof fn lemma_view_has(entries: Seq<Entry>, q: Seq<Seq<char>>)
    requires
        entries_view(entries).dom().contains(q),
    ensures
        0 <= index_of(entries, q) < entries.len(),
        entries[index_of(entries, q)].path@ == q,
{
}

/// A new entry with a new path adds that path to the tree.
pub proof fn lemma_view_push(entries: Seq<Entry>, e: Entry)
    requires
        distinct_paths(entries),
        !has_path(entries, e.path@),
    ensures
        distinct_paths(entries.push(e)),
        entries_view(entries.push(e)) == entries_view(entries).insert(e.path@, e.node@),
{
    let after = entries.push(e);
    let n = entries.len() as int;
    assert forall|i: int, j: int|
        0 <= i < after.len() && 0 <= j < after.len() && i != j implies #[trigger] after[i].path@
        != #[trigger] after[j].path@ by {
        if i < n && j < n {
            assert(entries[i].path@ != entries[j].path@);
        } else if i < n {
            assert(entries[i].path@ != e.path@);
        } else {
            assert(entries[j].path@ != e.path@);
        }
    }
    let t = entries_view(entries).insert(e.path@, e.node@);
    assert forall|i: int| 0 <= i < after.len() implies t.dom().contains(
        (#[trigger] after[i]).path@,
    ) && t[after[i].path@] == after[i].node@ by {
        if i < n {
            lemma_entry_found(entries, i);
            assert(entries[i].path@ != e.path@);
        }
    }
    assert forall|q: Seq<Seq<char>>| #[trigger] t.dom().contains(q) implies has_path(after, q) by {
        if q == e.path@ {
            assert(after[n].path@ == q);
        } else {
            lemma_view_has(entries, q);
            let i = index_of(entries, q);
            assert(after[i].path@ == q);
        }
    }
    lemma_view_is(after, t);
}

/// Another node for the path of an entry replaces what that path holds.
pub proof fn lemma_view_update(entries: Seq<Entry>, i: int, e: Entry)
    requires
        distinct_paths(entries),
        0 <= i < entries.len(),
        e.path@ == entries[i].path@,
    ensures
        distinct_paths(entries.update(i, e)),
        entries_view(entries.update(i, e)) == entries_view(entries).insert(e.path@, e.node@),
{
    let after = entries.update(i, e);
    assert forall|a: int, b: int|
        0 <= a < after.len() && 0 <= b < after.len() && a != b implies #[trigger] after[a].path@
        != #[trigger] after[b].path@ by {
        assert(after[a].path@ == entries[a].path@);
        assert(after[b].path@ == entries[b].path@);
    }
    let t = entries_view(entries).insert(e.path@, e.node@);
    assert forall|k: int| 0 <= k < after.len() implies t.dom().contains(
        (#[trigger] after[k]).path@,
    ) && t[after[k].path@] == after[k].node@ by {
        if k != i {
            lemma_entry_found(entries, k);
            assert(entries[k].path@ != entries[i].path@);
        }
    }
    assert forall|q: Seq<Seq<char>>| #[trigger] t.dom().contains(q) implies has_path(after, q) by {
        if q == e.path@ {
            assert(after[i].path@ == q);
        } else {
            lemma_view_has(entries, q);
            let k = index_of(entries, q);
            assert(after[k].path@ == q);
        }
    }
    lemma_view_is(after, t);
}

/// Without an entry the tree is without its path.
pub proof fn lemma_view_remove(entries: Seq<Entry>, i: int)
    requires
        distinct_paths(entries),
        0 <= i < entries.len(),
    ensures
        distinct_paths(entries.remove(i)),
        entries_view(entries.remove(i)) == entries_view(entries).remove(entries[i].path@),
{
    let after = entries.remove(i);
    assert forall|a: int, b: int|
        0 <= a < after.len() && 0 <= b < after.len() && a != b implies #[trigger] after[a].path@
        != #[trigger] after[b].path@ by {
        let a0 = if a < i {
            a
        } else {
            a + 1
        };
        let b0 = if b < i {
            b
        } else {
            b + 1
        };
        assert(after[a] == entries[a0]);
        assert(after[b] == entries[b0]);
        assert(entries[a0].path@ != entries[b0].path@);
    }
    let t = entries_view(entries).remove(entries[i].path@);
    assert forall|k: int| 0 <= k < after.len() implies t.dom().contains(
        (#[trigger] after[k]).path@,
    ) && t[after[k].path@] == after[k].node@ by {
        let k0 = if k < i {
            k
        } else {
            k + 1
        };
        assert(after[k] == entries[k0]);
        lemma_entry_found(entries, k0);
        assert(entries[k0].path@ != entries[i].path@);
    }
    assert forall|q: Seq<Seq<char>>| #[trigger] t.dom().contains(q) implies has_path(after, q) by {
        lemma_view_has(entries, q);
        let k = index_of(entries, q);
        assert(k != i);
        let k1 = if k < i {
            k
        } else {
            k - 1
        };
        assert(after[k1] == entries[k]);
        assert(after[k1].path@ == q);
    }
    lemma_view_is(after, t);
}

/// With distinct paths, the tree has as many nodes as there are entries.
pub proof fn lemma_view_len(entries: Seq<Entry>)
    requires
        distinct_paths(entries),
    ensures
        entries_view(entries).dom().finite(),
        entries_view(entries).dom().len() == entries.len(),
    decreases entries.len(),
{
    if entries.len() == 0 {
        assert(entries_view(entries).dom() =~= Set::<Seq<Seq<char>>>::empty());
    } else {
        let before = entries.drop_last();
        let e = entries.last();
        assert forall|i: int, j: int|
            0 <= i < before.len() && 0 <= j < before.len() && i != j implies #[trigger] before[i].path@
            != #[trigger] before[j].path@ by {
            assert(entries[i].path@ != entries[j].path@);
        }
        assert(!has_path(before, e.path@)) by {
            if has_path(before, e.path@) {
                let i = index_of(before, e.path@);
                assert(entries[i].path@ == entries[entries.len() - 1].path@);
            }
        }
        lemma_view_len(before);
        lemma_view_push(before, e);
        assert(entries =~= before.push(e));
        assert(entries_view(entries).dom() =~= entries_view(before).dom().insert(e.path@));
    }
}

/// No more numbers can be sent to distinct places below `len` than `len`.
pub proof fn lemma_pigeonhole(g: spec_fn(nat) -> int, n: nat, len: nat)
    requires
        forall|m: nat| m < n ==> 0 <= #[trigger] g(m) < len,
        forall|a: nat, b: nat| a < n && b < n && a != b ==> #[trigger] g(a) != #[trigger] g(b),
    ensures
        n <= len,
    decreases n,
{
    if n > 0 {
        let last = g((n - 1) as nat);
        let h = |m: nat|
            if g(m) > last {
                g(m) - 1
            } else {
                g(m)
            };
        assert forall|m: nat| m < n - 1 implies 0 <= #[trigger] h(m) < len - 1 by {
            assert(g(m) != g((n - 1) as nat));
        }
        assert forall|a: nat, b: nat| a < n - 1 && b < n - 1 && a != b implies #[trigger] h(a)
            != #[trigger] h(b) by {
            assert(g(a) != g(b));
            assert(g(a) != g((n - 1) as nat));
            assert(g(b) != g((n - 1) as nat));
        }
        lemma_pigeonhole(h, (n - 1) as nat, (len - 1) as nat);
    }
}

/// Distinct paths that the entries hold are no more than the entries.
pub proof fn lemma_paths_bounded(entries: Seq<Entry>, f: spec_fn(nat) -> Seq<Seq<char>>, n: nat)
    requires
        forall|m: nat| m < n ==> has_path(entries, #[trigger] f(m)),
        forall|a: nat, b: nat| a < n && b < n && a != b ==> #[trigger] f(a) != #[trigger] f(b),
    ensures
        n <= entries.len(),
{
    let g = |m: nat| index_of(entries, f(m));
    assert forall|m: nat| m < n implies 0 <= #[trigger] g(m) < entries.len() by {
        assert(has_path(entries, f(m)));
    }
    assert forall|a: nat, b: nat| a < n && b < n && a != b implies #[trigger] g(a) != #[trigger] g(
        b,
    ) by {
        assert(has_path(entries, f(a)));
        assert(has_path(entries, f(b)));
        assert(entries[g(a)].path@ == f(a));
        assert(entries[g(b)].path@ == f(b));
        assert(f(a) != f(b));
    }
    lemma_pigeonhole(g, n, entries.len());
}

/// A tree in memory, with the journal of the changes made to it.
pub struct FileTree {
    entries: Vec<Entry>,
    journal: Vec<FsOp>,
    base: Ghost<TreeView>,
}

impl View for FileTree {
    type V = TreeView;

    closed spec fn view(&self) -> TreeView {
        entries_view(self.entries@)
    }
}

impl FileTree {
    /// The tree as it was when the journal was last empty.
    pub closed spec fn base(&self) -> TreeView {
        self.base@
    }

    /// The changes made since then, oldest first.
    pub closed spec fn journal(&self) -> Seq<FsOpView> {
        Seq::new(self.journal@.len(), |i: int| self.journal@[i]@)
    }

    /// The order in which the nodes inside `p` are enumerated.
    pub closed spec fn listing(&self, p: Seq<Seq<char>>) -> Seq<Seq<char>> {
        names_under(self.entries@, p)
    }

    /// The representation holds no path twice.
    pub closed spec fn inv(&self) -> bool {
        distinct_paths(self.entries@)
    }

    /// The tree is well formed, and the journal leads from the base to it.
    pub open spec fn wf(&self) -> bool {
        &&& self.inv()
        &&& well_formed(self@)
        &&& replay(self.base(), self.journal()) == self@
    }

    /// The empty tree: not even the root exists.
    pub fn new() -> (r: FileTree)
        ensures
            r.wf(),
            r@ == Map::<Seq<Seq<char>>, NodeView>::empty(),
            r.base() == r@,
            r.journal() == Seq::<FsOpView>::empty(),
    {
        let r = FileTree { entries: Vec::new(), journal: Vec::new(), base: Ghost(Map::empty()) };
        proof {
            assert(r@ =~= Map::<Seq<Seq<char>>, NodeView>::empty());
            assert(r.journal() =~= Seq::<FsOpView>::empty());
        }
        r
    }

    /// The place of the entry for `p`, if the tree holds `p`.
    fn find(&self, p: &TreePath) -> (r: Option<usize>)
        requires
            self.inv(),
        ensures
            r is None <==> !self@.dom().contains(p@),
            r matches Some(i) ==> i < self.entries@.len() && self.entries@[i as int].path@ == p@
                && self@[p@] == self.entries@[i as int].node@,
    {
        let mut i: usize = 0;
        while i < self.entries.len()
            invariant
                i <= self.entries.len(),
                self.inv(),
                forall|k: int| 0 <= k < i ==> (#[trigger] self.entries@[k]).path@ != p@,
            decreases self.entries.len() - i,
        {
            if self.entries[i].path.same(p) {
                proof {
                    lemma_entry_found(self.entries@, i as int);
                }
                return Some(i);
            }
            i = i + 1;
        }
        None
    }

    /// Whether `p` denotes a file.
    pub fn is_file(&self, p: &TreePath) -> (r: bool)
        requires
            self.wf(),
        ensures
            r == is_file(self@, p@),
    {
        match self.find(p) {
            Some(i) => matches!(self.entries[i].node, Node::File(_)),
            None => false,
        }
    }

    /// Whether `p` denotes a directory.
    pub fn is_dir(&self, p: &TreePath) -> (r: bool)
        requires
            self.wf(),
        ensures
            r == is_dir(self@, p@),
    {
        match self.find(p) {
            Some(i) => matches!(self.entries[i].node, Node::Dir),
            None => false,
        }
    }

    /// Whether `p` denotes anything.
    pub fn contains(&self, p: &TreePath) -> (r: bool)
        requires
            self.wf(),
        ensures
            r == self@.dom().contains(p@),
    {
        self.find(p).is_some()
    }

    /// Adds `op` to the journal.
    fn record(&mut self, op: FsOp)
        ensures
            final(self).entries == old(self).entries,
            final(self).base == old(self).base,
            final(self).journal() == old(self).journal().push(op@),
    {
        self.journal.push(op);
        proof {
            assert(final(self).journal() =~= old(self).journal().push(op@));
        }
    }

    /// The content of the file at `p`.
    pub fn read(&self, p: &TreePath) -> (r: Result<Vec<u8>, IoErrorKind>)
        requires
            self.wf(),
        ensures
            match r {
                Ok(content) => self@.dom().contains(p@) && self@[p@] == NodeView::File(content@),
                Err(e) => !is_file(self@, p@) && e == (if is_dir(self@, p@) {
                    IoErrorKind::IsADirectory
                } else {
                    IoErrorKind::NotFound
                }),
            },
    {
        match self.find(p) {
            Some(i) => match &self.entries[i].node {
                Node::File(content) => Ok(copy_bytes(content)),
                Node::Dir => Err(IoErrorKind::IsADirectory),
            },
            None => Err(IoErrorKind::NotFound),
        }
    }

    /// Creates or overwrites the file at `p` with `content`.
    pub fn write(&mut self, p: &TreePath, content: Vec<u8>) -> (r: Result<(), IoErrorKind>)
        requires
            old(self).wf(),
        ensures
            final(self).wf(),
            final(self).base() == old(self).base(),
            match r {
                Ok(()) => {
                    &&& can_write(old(self)@, p@)
                    &&& final(self)@ == old(self)@.insert(p@, NodeView::File(content@))
                    &&& final(self).journal() == old(self).journal().push(
                        FsOpView::Write(p@, content@),
                    )
                },
                Err(e) => {
                    &&& !can_write(old(self)@, p@)
                    &&& final(self)@ == old(self)@
                    &&& final(self).journal() == old(self).journal()
                    &&& e == (if is_dir(old(self)@, p@) {
                        IoErrorKind::IsADirectory
                    } else if is_file(old(self)@, p@.drop_last()) {
                        IoErrorKind::NotADirectory
                    } else {
                        IoErrorKind::NotFound
                    })
                },
            },
    {
        let found = self.find(p);
        match found {
            Some(i) => {
                if matches!(self.entries[i].node, Node::Dir) {
                    return Err(IoErrorKind::IsADirectory);
                }
            },
            None => {},
        }
        match p.parent() {
            Some(parent) => match self.find(&parent) {
                Some(j) => {
                    if matches!(self.entries[j].node, Node::File(_)) {
                        return Err(IoErrorKind::NotADirectory);
                    }
                },
                None => {
                    return Err(IoErrorKind::NotFound);
                },
            },
            None => {},
        }
        let ghost before = self@;
        let ghost entries = self.entries@;
        let copy = copy_bytes(&content);
        let entry = Entry { path: p.clone(), node: Node::File(content) };
        match found {
            Some(i) => {
                proof {
                    lemma_view_update(entries, i as int, entry);
                }
                self.entries.set(i, entry);
            },
            None => {
                proof {
                    lemma_view_push(entries, entry);
                }
                self.entries.push(entry);
            },
        }
        self.record(FsOp::Write(p.clone(), copy));
        proof {
            let after = before.insert(p@, NodeView::File(content@));
            assert(final(self)@ == after);
            assert forall|q: Seq<Seq<char>>| #[trigger]
                after.dom().contains(q) && q.len() > 0 implies is_dir(after, q.drop_last()) by {
                if q != p@ {
                    assert(before.dom().contains(q));
                    assert(is_dir(before, q.drop_last()));
                }
            }
            lemma_replay_push(self.base(), old(self).journal(), FsOpView::Write(p@, content@));
        }
        Ok(())
    }

    /// Removes the file at `p`.
    pub fn remove_file(&mut self, p: &TreePath) -> (r: Result<(), IoErrorKind>)
        requires
            old(self).wf(),
        ensures
            final(self).wf(),
            final(self).base() == old(self).base(),
            match r {
                Ok(()) => {
                    &&& is_file(old(self)@, p@)
                    &&& final(self)@ == old(self)@.remove(p@)
                    &&& final(self).journal() == old(self).journal().push(FsOpView::RemoveFile(p@))
                },
                Err(e) => {
                    &&& !is_file(old(self)@, p@)
                    &&& final(self)@ == old(self)@
                    &&& final(self).journal() == old(self).journal()
                    &&& e == (if is_dir(old(self)@, p@) {
                        IoErrorKind::IsADirectory
                    } else {
                        IoErrorKind::NotFound
                    })
                },
            },
    {
        match self.find(p) {
            Some(i) => {
                if matches!(self.entries[i].node, Node::Dir) {
                    return Err(IoErrorKind::IsADirectory);
                }
                let ghost before = self@;
                proof {
                    lemma_view_remove(self.entries@, i as int);
                }
                self.entries.remove(i);
                self.record(FsOp::RemoveFile(p.clone()));
                proof {
                    let after = before.remove(p@);
                    assert(final(self)@ == after);
                    assert forall|q: Seq<Seq<char>>| #[trigger]
                        after.dom().contains(q) && q.len() > 0 implies is_dir(
                        after,
                        q.drop_last(),
                    ) by {
                        assert(before.dom().contains(q));
                        assert(is_dir(before, q.drop_last()));
                    }
                    lemma_replay_push(self.base(), old(self).journal(), FsOpView::RemoveFile(p@));
                }
                Ok(())
            },
            None => Err(IoErrorKind::NotFound),
        }
    }

    /// Removes the directory at `p` with everything beneath it.
    pub fn remove_dir_all(&mut self, p: &TreePath) -> (r: Result<(), IoErrorKind>)
        requires
            old(self).wf(),
        ensures
            final(self).wf(),
            final(self).base() == old(self).base(),
            match r {
                Ok(()) => {
                    &&& is_dir(old(self)@, p@)
                    &&& final(self)@ == without(old(self)@, p@)
                    &&& final(self).journal() == old(self).journal().push(
                        FsOpView::RemoveDirAll(p@),
                    )
                },
                Err(e) => {
                    &&& !is_dir(old(self)@, p@)
                    &&& final(self)@ == old(self)@
                    &&& final(self).journal() == old(self).journal()
                    &&& e == (if is_file(old(self)@, p@) {
                        IoErrorKind::NotADirectory
                    } else {
                        IoErrorKind::NotFound
                    })
                },
            },
    {
        match self.find(p) {
            Some(i) => {
                if matches!(self.entries[i].node, Node::File(_)) {
                    return Err(IoErrorKind::NotADirectory);
                }
            },
            None => {
                return Err(IoErrorKind::NotFound);
            },
        }
        let ghost before = self@;
        let mut i: usize = 0;
        while i < self.entries.len()
            invariant
                i <= self.entries.len(),
                self.inv(),
                self.journal == old(self).journal,
                self.base == old(self).base,
                forall|k: int| 0 <= k < i ==> !p@.is_prefix_of((#[trigger] self.entries@[k]).path@),
                without(self@, p@) == without(before, p@),
            decreases self.entries.len() - i,
        {
            if self.entries[i].path.starts_with(p) {
                let ghost now = self@;
                let ghost q = self.entries@[i as int].path@;
                proof {
                    lemma_view_remove(self.entries@, i as int);
                }
                self.entries.remove(i);
                proof {
                    assert(self@ == now.remove(q));
                    assert(without(now.remove(q), p@) =~= without(now, p@));
                }
            } else {
                i = i + 1;
            }
        }
        proof {
            let now = self@;
            assert forall|q: Seq<Seq<char>>| now.dom().contains(q) implies !p@.is_prefix_of(q) by {
                lemma_view_has(self.entries@, q);
            }
            assert(now =~= without(now, p@));
            lemma_without_well_formed(before, p@);
        }
        self.record(FsOp::RemoveDirAll(p.clone()));
        proof {
            lemma_replay_push(self.base(), old(self).journal(), FsOpView::RemoveDirAll(p@));
        }
        Ok(())
    }

    /// Makes a directory at `p` and wherever one is missing above it, without
    /// a record in the journal.
    fn make_dirs(&mut self, p: &TreePath) -> (r: Result<(), IoErrorKind>)
        requires
            old(self).inv(),
            well_formed(old(self)@),
        ensures
            final(self).inv(),
            final(self).journal == old(self).journal,
            final(self).base == old(self).base,
            match r {
                Ok(()) => {
                    &&& dirs_free(old(self)@, p@)
                    &&& final(self)@ == with_dirs(old(self)@, p@)
                    &&& well_formed(final(self)@)
                    &&& is_dir(final(self)@, p@)
                },
                Err(e) => {
                    &&& !dirs_free(old(self)@, p@)
                    &&& final(self)@ == old(self)@
                    &&& e == IoErrorKind::NotADirectory
                },
            },
    {
        let n = p.len();
        let mut k: usize = 0;
        loop
            invariant
                k <= n,
                n == p@.len(),
                self.inv(),
                self == old(self),
                forall|j: int| 0 <= j < k ==> !is_file(self@, #[trigger] p@.take(j)),
            ensures
                dirs_free(self@, p@),
            decreases n - k,
        {
            let prefix = p.prefix(k);
            match self.find(&prefix) {
                Some(i) => {
                    if matches!(self.entries[i].node, Node::File(_)) {
                        return Err(IoErrorKind::NotADirectory);
                    }
                },
                None => {},
            }
            if k == n {
                break ;
            }
            k = k + 1;
        }
        let ghost before = self@;
        let mut k: usize = 0;
        loop
            invariant_except_break
                self@ == with_dirs_below(before, p@, k as int),
            invariant
                k <= n,
                n == p@.len(),
                self.inv(),
                self.journal == old(self).journal,
                self.base == old(self).base,
            ensures
                self.inv(),
                self.journal == old(self).journal,
                self.base == old(self).base,
                self@ == with_dirs_below(before, p@, n + 1),
            decreases n - k,
        {
            let prefix = p.prefix(k);
            let ghost now = self@;
            proof {
                assert(prefix@.is_prefix_of(p@)) by {
                    assert(prefix@ =~= p@.subrange(0, k as int));
                }
                assert forall|q: Seq<Seq<char>>| q.is_prefix_of(p@) && q.len() == k implies q
                    == prefix@ by {
                    assert(q =~= p@.subrange(0, k as int));
                }
            }
            match self.find(&prefix) {
                Some(_) => {
                    proof {
                        assert(now =~= with_dirs_below(before, p@, k + 1));
                    }
                },
                None => {
                    let entry = Entry { path: prefix, node: Node::Dir };
                    proof {
                        lemma_view_push(self.entries@, entry);
                    }
                    self.entries.push(entry);
                    proof {
                        assert(now.insert(entry.path@, NodeView::Dir) =~= with_dirs_below(
                            before,
                            p@,
                            k + 1,
                        ));
                    }
                },
            }
            if k == n {
                break ;
            }
            k = k + 1;
        }
        proof {
            assert(with_dirs_below(before, p@, n + 1) =~= with_dirs(before, p@));
            lemma_with_dirs_well_formed(before, p@);
        }
        Ok(())
    }

    /// Makes a directory at `p` and wherever one is missing above it.
    pub fn create_dir_all(&mut self, p: &TreePath) -> (r: Result<(), IoErrorKind>)
        requires
            old(self).wf(),
        ensures
            final(self).wf(),
            final(self).base() == old(self).base(),
            match r {
                Ok(()) => {
                    &&& dirs_free(old(self)@, p@)
                    &&& final(self)@ == with_dirs(old(self)@, p@)
                    &&& is_dir(final(self)@, p@)
                    &&& final(self).journal() == old(self).journal().push(
                        FsOpView::CreateDirAll(p@),
                    )
                },
                Err(e) => {
                    &&& !dirs_free(old(self)@, p@)
                    &&& final(self)@ == old(self)@
                    &&& final(self).journal() == old(self).journal()
                    &&& e == IoErrorKind::NotADirectory
                },
            },
    {
        match self.make_dirs(p) {
            Ok(()) => {
                self.record(FsOp::CreateDirAll(p.clone()));
                proof {
                    lemma_replay_push(self.base(), old(self).journal(), FsOpView::CreateDirAll(p@));
                }
                Ok(())
            },
            Err(e) => Err(e),
        }
    }

    /// Makes a directory wherever one is missing above `p`.
    pub fn create_parent_dirs(&mut self, p: &TreePath) -> (r: Result<(), IoErrorKind>)
        requires
            old(self).wf(),
        ensures
            final(self).wf(),
            final(self).base() == old(self).base(),
            match r {
                Ok(()) => {
                    &&& parent_dirs_free(old(self)@, p@)
                    &&& final(self)@ == with_parent_dirs(old(self)@, p@)
                    &&& p@.len() > 0 ==> is_dir(final(self)@, p@.drop_last())
                    &&& final(self).journal() == old(self).journal().push(
                        FsOpView::CreateParentDirs(p@),
                    )
                },
                Err(e) => {
                    &&& !parent_dirs_free(old(self)@, p@)
                    &&& final(self)@ == old(self)@
                    &&& final(self).journal() == old(self).journal()
                    &&& e == IoErrorKind::NotADirectory
                },
            },
    {
        match p.parent() {
            Some(parent) => match self.make_dirs(&parent) {
                Ok(()) => {},
                Err(e) => {
                    return Err(e);
                },
            },
            None => {},
        }
        self.record(FsOp::CreateParentDirs(p.clone()));
        proof {
            lemma_replay_push(self.base(), old(self).journal(), FsOpView::CreateParentDirs(p@));
        }
        Ok(())
    }

    /// The names of the nodes directly inside the directory `p`.
    pub fn read_dir(&self, p: &TreePath) -> (r: Result<Vec<String>, IoErrorKind>)
        requires
            self.wf(),
        ensures
            match r {
                Ok(names) => is_dir(self@, p@) && names_view(names@) == self.listing(p@),
                Err(e) => !is_dir(self@, p@) && e == (if is_file(self@, p@) {
                    IoErrorKind::NotADirectory
                } else {
                    IoErrorKind::NotFound
                }),
            },
    {
        match self.find(p) {
            Some(i) => {
                if matches!(self.entries[i].node, Node::File(_)) {
                    return Err(IoErrorKind::NotADirectory);
                }
            },
            None => {
                return Err(IoErrorKind::NotFound);
            },
        }
        let n = p.len();
        let mut names: Vec<String> = Vec::new();
        let mut i: usize = 0;
        while i < self.entries.len()
            invariant
                i <= self.entries.len(),
                n == p@.len(),
                names_view(names@) == names_under(self.entries@.take(i as int), p@),
            decreases self.entries.len() - i,
        {
            let path = &self.entries[i].path;
            proof {
                let upto = self.entries@.take(i + 1);
                assert(upto.drop_last() =~= self.entries@.take(i as int));
                assert(upto.last() == self.entries@[i as int]);
                let q = path@;
                if q.len() == n + 1 {
                    if p@.is_prefix_of(q) {
                        assert(q.drop_last() =~= p@);
                    }
                    if q.drop_last() == p@ {
                        assert(p@ =~= q.subrange(0, n as int));
                    }
                }
            }
            if path.len() > n && path.len() - 1 == n && path.starts_with(p) {
                names.push(path.name(n).clone());
                proof {
                    assert(names_view(names@) =~= names_under(self.entries@.take(i + 1), p@));
                }
            }
            i = i + 1;
        }
        proof {
            assert(self.entries@.take(self.entries@.len() as int) =~= self.entries@);
        }
        Ok(names)
    }

    /// The listing of a directory holds the name of each node directly in
    /// it, once.
    pub proof fn lemma_listing(&self, p: Seq<Seq<char>>)
        requires
            self.inv(),
        ensures
            self.listing(p).no_duplicates(),
            forall|name: Seq<char>| #[trigger]
                self.listing(p).contains(name) <==> self@.dom().contains(p.push(name)),
    {
        lemma_names_under(self.entries@, p);
    }

    /// The number of nodes in the tree.
    pub closed spec fn node_count(&self) -> nat {
        self.entries@.len()
    }

    /// The number of nodes in the tree.
    pub fn size(&self) -> (n: usize)
        ensures
            n == self.node_count(),
            self.inv() ==> self@.dom().finite() && n == self@.dom().len(),
    {
        proof {
            if self.inv() {
                lemma_view_len(self.entries@);
            }
        }
        self.entries.len()
    }

    /// Distinct paths that the tree holds are no more than its nodes.
    pub proof fn lemma_count(&self, f: spec_fn(nat) -> Seq<Seq<char>>, n: nat)
        requires
            forall|m: nat| m < n ==> self@.dom().contains(#[trigger] f(m)),
            forall|a: nat, b: nat| a < n && b < n && a != b ==> #[trigger] f(a) != #[trigger] f(b),
        ensures
            n <= self.node_count(),
    {
        assert forall|m: nat| m < n implies has_path(self.entries@, #[trigger] f(m)) by {
            assert(self@.dom().contains(f(m)));
        }
        lemma_paths_bounded(self.entries@, f, n);
    }

    /// Makes the change `op` where it can be made, and records it in the
    /// journal. A change that cannot be made fails with the reason and
    /// leaves the tree and the journal as they are.
    pub fn apply(&mut self, op: &FsOp) -> (r: Result<(), IoErrorKind>)
        requires
            old(self).wf(),
        ensures
            final(self).wf(),
            final(self).base() == old(self).base(),
            r is Ok <==> can_apply(old(self)@, op@),
            match r {
                Ok(()) => final(self)@ == apply(old(self)@, op@) && final(self).journal() == old(
                    self,
                ).journal().push(op@),
                Err(e) => e == apply_error(old(self)@, op@) && final(self)@ == old(self)@
                    && final(self).journal() == old(self).journal(),
            },
    {
        match op {
            FsOp::RemoveFile(path) => self.remove_file(path),
            FsOp::RemoveDirAll(path) => self.remove_dir_all(path),
            FsOp::CreateDirAll(path) => self.create_dir_all(path),
            FsOp::CreateParentDirs(path) => self.create_parent_dirs(path),
            FsOp::Write(path, content) => self.write(path, copy_bytes(content)),
        }
    }

    /// Hands out the journal and starts a new one from the tree as it is.
    pub fn take_journal(&mut self) -> (r: Vec<FsOp>)
        requires
            old(self).wf(),
        ensures
            final(self).wf(),
            final(self)@ == old(self)@,
            final(self).base() == old(self)@,
            final(self).journal() == Seq::<FsOpView>::empty(),
            r@.len() == old(self).journal().len(),
            forall|i: int| 0 <= i < r@.len() ==> (#[trigger] r@[i])@ == old(self).journal()[i],
    {
        let mut taken: Vec<FsOp> = Vec::new();
        std::mem::swap(&mut self.journal, &mut taken);
        self.base = Ghost(self@);
        proof {
            assert(final(self).journal() =~= Seq::<FsOpView>::empty());
        }
        taken
    }
}

/// A copy of `bytes`.
pub fn copy_bytes(bytes: &Vec<u8>) -> (r: Vec<u8>)
    ensures
        r@ == bytes@,
{
    vstd::slice::slice_to_vec(bytes.as_slice())
}

/// One more change at the end of a journal is applied to what the journal
/// led to.
pub proof fn lemma_replay_push(t: TreeView, ops: Seq<FsOpView>, op: FsOpView)
    ensures
        replay(t, ops.push(op)) == apply(replay(t, ops), op),
{
    assert(ops.push(op).drop_last() =~= ops);
}

} // verus!
