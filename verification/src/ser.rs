//! The tree encoder: writes a value of the data model into a tree.

use crate::path::{index_name, value_name, variant_name, TreePath};
use crate::text::{
    bool_text, chars_of, decimal_text, format_bool, format_signed, format_unsigned, is_index_name,
    parse_decimal,
};
use crate::tree::{
    dirs_free, is_dir, is_file, lemma_ancestors_are_dirs, lemma_prefix_push, names_view,
    parent_dirs_free, well_formed, with_dirs, with_parent_dirs, without, FileTree, IoErrorKind,
    NodeView, TreeView,
};
use crate::value::{entries_view, fields_view, items_view, Value, ValueView};
use vstd::prelude::*;
use vstd::string::StrSliceExecFns;
use vstd::utf8::encode_utf8;

verus! {

/// Why a value could not be written.
#[derive(Debug, PartialEq, Eq)]
pub enum Error {
    /// An operation on the tree failed.
    IoError(IoErrorKind),
    /// The key of a map is no text.
    KeyMustBeAString,
    /// An error that the layer around the codec reports.
    Custom(String),
}

/// An error of the encoder as a mathematical value.
pub enum ErrorView {
    IoError(IoErrorKind),
    KeyMustBeAString,
    Custom(Seq<char>),
}

impl View for Error {
    type V = ErrorView;

    open spec fn view(&self) -> ErrorView {
        match self {
            Error::IoError(kind) => ErrorView::IoError(*kind),
            Error::KeyMustBeAString => ErrorView::KeyMustBeAString,
            Error::Custom(message) => ErrorView::Custom(message@),
        }
    }
}

/// The error of a result, if it is one.
pub open spec fn failure_of<T>(r: Result<T, Error>) -> Option<ErrorView> {
    match r {
        Ok(_) => None,
        Err(e) => Some(e@),
    }
}

/// What an encoding step leaves behind: the tree, and the error if it failed.
pub struct Outcome {
    pub tree: TreeView,
    pub failure: Option<ErrorView>,
}

/// A step that succeeded and left `t`.
pub open spec fn done(t: TreeView) -> Outcome {
    Outcome { tree: t, failure: None }
}

/// A step that failed with `e` and left `t`.
pub open spec fn failed(t: TreeView, e: ErrorView) -> Outcome {
    Outcome { tree: t, failure: Some(e) }
}

/// Whether a leaf can be written at `p`: a directory at `p` is replaced, and
/// otherwise no file may stand on the way down to `p`.
pub open spec fn file_writable(t: TreeView, p: Seq<Seq<char>>) -> bool {
    is_dir(t, p) || parent_dirs_free(t, p)
}

/// The tree after a leaf with `content` was written at `p`: a directory at
/// `p` is gone with all beneath it, the directories above `p` exist, and `p`
/// is a file with `content`.
pub open spec fn file_written(t: TreeView, p: Seq<Seq<char>>, content: Seq<u8>) -> TreeView {
    let cleared = if is_dir(t, p) {
        without(t, p)
    } else {
        t
    };
    with_parent_dirs(cleared, p).insert(p, NodeView::File(content))
}

/// Writing a leaf with `content` at `p`.
pub open spec fn put(t: TreeView, p: Seq<Seq<char>>, content: Seq<u8>) -> Outcome {
    if file_writable(t, p) {
        done(file_written(t, p, content))
    } else {
        failed(t, ErrorView::IoError(IoErrorKind::NotADirectory))
    }
}

/// Writes `content` to the file at `path`, whatever `path` held before: a
/// directory there is removed with all beneath it, and the directories above
/// are made where they are missing.
pub fn write_to_file(fs: &mut FileTree, path: &TreePath, content: Vec<u8>) -> (r: Result<
    (),
    IoErrorKind,
>)
    requires
        old(fs).wf(),
    ensures
        final(fs).wf(),
        final(fs).base() == old(fs).base(),
        r is Ok <==> file_writable(old(fs)@, path@),
        r is Ok ==> final(fs)@ == file_written(old(fs)@, path@, content@),
        r matches Err(e) ==> final(fs)@ == old(fs)@ && e == IoErrorKind::NotADirectory,
{
    let ghost t = fs@;
    let ghost p = path@;
    if fs.is_dir(path) {
        match fs.remove_dir_all(path) {
            Ok(()) => {},
            Err(e) => {
                return Err(e);
            },
        }
        proof {
            lemma_ancestors_are_dirs(t, p);
            if p.len() > 0 {
                assert forall|k: int| 0 <= k <= p.drop_last().len() implies !is_file(
                    fs@,
                    #[trigger] p.drop_last().take(k),
                ) by {
                    assert(p.drop_last().take(k) =~= p.take(k));
                    assert(is_dir(t, p.take(k)));
                }
            }
        }
    }
    let ghost cleared = fs@;
    match fs.create_parent_dirs(path) {
        Ok(()) => {},
        Err(e) => {
            return Err(e);
        },
    }
    proof {
        if p.len() > 0 {
            assert(!p.is_prefix_of(p.drop_last()));
        }
        assert(!is_dir(fs@, p));
    }
    match fs.write(path, content) {
        Ok(()) => Ok(()),
        Err(e) => Err(e),
    }
}

/// Whether `q` lies in `p` at or under a node whose name is that of an
/// element of a sequence.
pub open spec fn under_index(p: Seq<Seq<char>>, q: Seq<Seq<char>>) -> bool {
    p.is_prefix_of(q) && q.len() > p.len() && is_index_name(q[p.len() as int])
}

/// The tree without the nodes in `p` that are named like elements of a
/// sequence, and without all beneath them. Nodes with other names stay.
pub open spec fn without_indices(t: TreeView, p: Seq<Seq<char>>) -> TreeView {
    Map::new(|q: Seq<Seq<char>>| t.dom().contains(q) && !under_index(p, q), |q: Seq<Seq<char>>| t[q])
}

/// The same, for those of the first `n` of `names` only.
pub open spec fn without_listed(t: TreeView, p: Seq<Seq<char>>, names: Seq<Seq<char>>, n: int)
    -> TreeView {
    Map::new(
        |q: Seq<Seq<char>>|
            t.dom().contains(q) && !(under_index(p, q) && names.take(n).contains(q[p.len() as int])),
        |q: Seq<Seq<char>>| t[q],
    )
}

/// The tree once `p` is cleared for a sequence: a file at `p` is gone; in a
/// directory at `p` the elements of an earlier sequence are gone.
pub open spec fn seq_cleared(t: TreeView, p: Seq<Seq<char>>) -> TreeView {
    if is_dir(t, p) {
        without_indices(t, p)
    } else if is_file(t, p) {
        t.remove(p)
    } else {
        t
    }
}

/// Making `p` ready for the elements of a sequence or tuple.
pub open spec fn seq_begun(t: TreeView, p: Seq<Seq<char>>) -> Outcome {
    let cleared = seq_cleared(t, p);
    if dirs_free(cleared, p) {
        done(with_dirs(cleared, p))
    } else {
        failed(cleared, ErrorView::IoError(IoErrorKind::NotADirectory))
    }
}

/// Making `p` ready for the entries of a map or the fields of a struct: a
/// file at `p` is gone, and `p` is a directory. What the directory held
/// stays.
pub open spec fn map_begun(t: TreeView, p: Seq<Seq<char>>) -> Outcome {
    let cleared = if is_file(t, p) {
        t.remove(p)
    } else {
        t
    };
    if dirs_free(cleared, p) {
        done(with_dirs(cleared, p))
    } else {
        failed(cleared, ErrorView::IoError(IoErrorKind::NotADirectory))
    }
}

/// Whether `name` is that of an element of a sequence.
pub fn name_is_index(name: &String) -> (r: bool)
    ensures
        r == is_index_name(name@),
{
    let chars = chars_of(name.as_str());
    parse_decimal(&chars, 0, usize::MAX as i128).is_ok()
}

/// Writes a value into the tree at one path.
#[derive(Debug)]
pub struct FilesystemSerializer {
    path: TreePath,
}

impl View for FilesystemSerializer {
    type V = Seq<Seq<char>>;

    closed spec fn view(&self) -> Seq<Seq<char>> {
        self.path@
    }
}

impl Clone for FilesystemSerializer {
    fn clone(&self) -> (r: FilesystemSerializer)
        ensures
            r@ == self@,
    {
        FilesystemSerializer { path: self.path.clone() }
    }
}

/// Writes the elements of a sequence or tuple into a directory.
#[derive(Debug)]
pub struct FilesystemSequenceSerializer {
    path: TreePath,
    counter: usize,
}

impl FilesystemSequenceSerializer {
    /// The directory that the elements go to.
    pub closed spec fn path(&self) -> Seq<Seq<char>> {
        self.path@
    }

    /// The number of elements written so far.
    pub closed spec fn counter(&self) -> nat {
        self.counter as nat
    }

    /// Makes `path` ready for the elements of a sequence: a file there is
    /// removed; in a directory there, every node named like an element is
    /// removed with all beneath it, and nodes with other names stay.
    pub fn new(
        fs: &mut FileTree,
        path: TreePath,
    ) -> (r: Result<FilesystemSequenceSerializer, Error>)
        requires
            old(fs).wf(),
        ensures
            final(fs).wf(),
            final(fs).base() == old(fs).base(),
            final(fs)@ == seq_begun(old(fs)@, path@).tree,
            failure_of(r) == seq_begun(old(fs)@, path@).failure,
            r matches Ok(s) ==> s.path() == path@ && s.counter() == 0,
    {
        let ghost t = fs@;
        let ghost p = path@;
        if fs.is_dir(&path) {
            let names = match fs.read_dir(&path) {
                Ok(names) => names,
                Err(e) => {
                    return Err(Error::IoError(e));
                },
            };
            let ghost listed = names_view(names@);
            proof {
                fs.lemma_listing(p);
                assert(fs@ =~= without_listed(t, p, listed, 0));
            }
            let mut i: usize = 0;
            while i < names.len()
                invariant
                    i <= names.len(),
                    fs.wf(),
                    fs.base() == old(fs).base(),
                    well_formed(t),
                    p == path@,
                    listed == names_view(names@),
                    listed.no_duplicates(),
                    forall|name: Seq<char>| #[trigger]
                        listed.contains(name) <==> t.dom().contains(p.push(name)),
                    fs@ == without_listed(t, p, listed, i as int),
                decreases names.len() - i,
            {
                let name = &names[i];
                let ghost now = fs@;
                let ghost c = p.push(name@);
                proof {
                    assert(listed[i as int] == name@);
                    assert(listed.take(i + 1) =~= listed.take(i as int).push(name@));
                    assert(listed.contains(name@));
                    assert(!listed.take(i as int).contains(name@));
                    assert forall|q: Seq<Seq<char>>| c.is_prefix_of(q) <==> (p.is_prefix_of(q)
                        && q.len() > p.len() && q[p.len() as int] == name@) by {
                        lemma_prefix_push(p, name@, q);
                    }
                    assert(c.is_prefix_of(c)) by {
                        assert(c =~= c.subrange(0, c.len() as int));
                    }
                    assert(now.dom().contains(c) && now[c] == t[c]);
                    let shorter = listed.take(i as int);
                    let longer = listed.take(i + 1);
                    assert forall|x: Seq<char>| longer.contains(x) <==> (shorter.contains(x) || x
                        == name@) by {
                        if longer.contains(x) {
                            let j = choose|j: int| 0 <= j < longer.len() && longer[j] == x;
                            if j < i {
                                assert(shorter[j] == x);
                            }
                        }
                        if shorter.contains(x) {
                            let j = choose|j: int| 0 <= j < shorter.len() && shorter[j] == x;
                            assert(longer[j] == x);
                        }
                        if x == name@ {
                            assert(longer[i as int] == x);
                        }
                    }
                }
                if name_is_index(name) {
                    let child = path.join(name.as_str());
                    if fs.is_file(&child) {
                        match fs.remove_file(&child) {
                            Ok(()) => {},
                            Err(e) => {
                                return Err(Error::IoError(e));
                            },
                        }
                        proof {
                            assert forall|q: Seq<Seq<char>>|
                                now.dom().contains(q) && c.is_prefix_of(q) implies q == c by {
                                if q != c {
                                    lemma_ancestors_are_dirs(now, q);
                                    assert(q.take(c.len() as int) =~= c);
                                }
                            }
                            let target = without_listed(t, p, listed, i + 1);
                            assert forall|q: Seq<Seq<char>>| fs@.dom().contains(q)
                                == target.dom().contains(q) by {
                                if now.dom().contains(q) && q != c {
                                    assert(!c.is_prefix_of(q));
                                }
                            }
                            assert(fs@ =~= target);
                        }
                    } else {
                        match fs.remove_dir_all(&child) {
                            Ok(()) => {},
                            Err(e) => {
                                return Err(Error::IoError(e));
                            },
                        }
                        proof {
                            let target = without_listed(t, p, listed, i + 1);
                            assert forall|q: Seq<Seq<char>>| fs@.dom().contains(q)
                                == target.dom().contains(q) by {
                                if now.dom().contains(q) {
                                    assert(c.is_prefix_of(q) <==> (p.is_prefix_of(q) && q.len()
                                        > p.len() && q[p.len() as int] == name@));
                                }
                            }
                            assert(fs@ =~= target);
                        }
                    }
                } else {
                    proof {
                        assert(fs@ =~= without_listed(t, p, listed, i + 1));
                    }
                }
                i = i + 1;
            }
            proof {
                assert(listed.take(names.len() as int) =~= listed);
                assert forall|q: Seq<Seq<char>>| t.dom().contains(q) && under_index(p, q) implies listed.contains(
                    q[p.len() as int],
                ) by {
                    let child = p.push(q[p.len() as int]);
                    assert(child =~= q.take(p.len() as int + 1)) by {
                        assert(p =~= q.subrange(0, p.len() as int));
                    }
                    if q.len() > p.len() + 1 {
                        lemma_ancestors_are_dirs(t, q);
                    } else {
                        assert(q.take(p.len() as int + 1) =~= q);
                    }
                }
                assert(fs@ =~= without_indices(t, p));
            }
        } else if fs.is_file(&path) {
            match fs.remove_file(&path) {
                Ok(()) => {},
                Err(e) => {
                    return Err(Error::IoError(e));
                },
            }
        }
        match fs.create_dir_all(&path) {
            Ok(()) => Ok(FilesystemSequenceSerializer { path, counter: 0 }),
            Err(e) => Err(Error::IoError(e)),
        }
    }
}

/// The tree once `p` is cleared for a newtype variant: a file at `p` is
/// gone; in a directory at `p` the marker file and the payload are gone, and
/// nodes with other names stay.
pub open spec fn variant_cleared(t: TreeView, p: Seq<Seq<char>>) -> TreeView {
    if is_dir(t, p) {
        let marker = p.push(variant_name());
        let unmarked = if is_file(t, marker) {
            t.remove(marker)
        } else {
            t
        };
        without(unmarked, p.push(value_name()))
    } else if is_file(t, p) {
        t.remove(p)
    } else {
        t
    }
}

/// Making `p` ready for the payload of a newtype variant called `name`: `p`
/// is a directory whose marker file holds `name`.
pub open spec fn newtype_variant_begun(t: TreeView, p: Seq<Seq<char>>, name: Seq<char>) -> Outcome {
    let cleared = variant_cleared(t, p);
    if dirs_free(cleared, p) {
        put(with_dirs(cleared, p), p.push(variant_name()), encode_utf8(name))
    } else {
        failed(cleared, ErrorView::IoError(IoErrorKind::NotADirectory))
    }
}

/// Making `p` ready for the elements of a tuple variant called `name`.
pub open spec fn tuple_variant_begun(t: TreeView, p: Seq<Seq<char>>, name: Seq<char>) -> Outcome {
    let begun = seq_begun(t, p);
    if begun.failure is Some {
        begun
    } else {
        put(begun.tree, p.push(variant_name()), encode_utf8(name))
    }
}

/// Making `p` ready for the fields of a struct variant called `name`.
pub open spec fn struct_variant_begun(t: TreeView, p: Seq<Seq<char>>, name: Seq<char>) -> Outcome {
    let begun = map_begun(t, p);
    if begun.failure is Some {
        begun
    } else {
        put(begun.tree, p.push(variant_name()), encode_utf8(name))
    }
}

/// The name of the node for a map key: the key itself where it is a text.
/// Nothing else can be a key.
pub open spec fn key_text(key: ValueView) -> Option<Seq<char>> {
    match key {
        ValueView::Text(s) => Some(s),
        _ => None,
    }
}

/// Encoding the value `v` at `p`: the tree it leaves, and the error if it
/// failed. A failure ends the encoding where it occurs; what was written
/// before it stays.
pub open spec fn encode(t: TreeView, p: Seq<Seq<char>>, v: ValueView) -> Outcome
    decreases v, 0nat,
{
    match v {
        ValueView::Bool(b) => put(t, p, encode_utf8(bool_text(b))),
        ValueView::Int(_, n) => put(t, p, encode_utf8(decimal_text(n))),
        ValueView::Char(c) => put(t, p, encode_utf8(seq![c])),
        ValueView::Text(s) => put(t, p, encode_utf8(s)),
        ValueView::Bytes(b) => put(t, p, b),
        ValueView::Unit => put(t, p, Seq::empty()),
        ValueView::Absent => done(without(t, p)),
        ValueView::Present(inner) => encode(t, p, *inner),
        ValueView::Newtype(inner) => encode(t, p, *inner),
        ValueView::Sequence(items) => {
            let begun = seq_begun(t, p);
            if begun.failure is Some {
                begun
            } else {
                encode_items(begun.tree, p, items, items.len())
            }
        },
        ValueView::Tuple(items) => {
            let begun = seq_begun(t, p);
            if begun.failure is Some {
                begun
            } else {
                encode_items(begun.tree, p, items, items.len())
            }
        },
        ValueView::Mapping(entries) => {
            let begun = map_begun(t, p);
            if begun.failure is Some {
                begun
            } else {
                encode_entries(begun.tree, p, entries, entries.len())
            }
        },
        ValueView::Record(fields) => {
            let begun = map_begun(t, p);
            if begun.failure is Some {
                begun
            } else {
                encode_fields(begun.tree, p, fields, fields.len())
            }
        },
        ValueView::UnitVariant(name) => put(t, p, encode_utf8(name)),
        ValueView::NewtypeVariant(name, inner) => {
            let begun = newtype_variant_begun(t, p, name);
            if begun.failure is Some {
                begun
            } else {
                encode(begun.tree, p.push(value_name()), *inner)
            }
        },
        ValueView::TupleVariant(name, items) => {
            let begun = tuple_variant_begun(t, p, name);
            if begun.failure is Some {
                begun
            } else {
                encode_items(begun.tree, p, items, items.len())
            }
        },
        ValueView::StructVariant(name, fields) => {
            let begun = struct_variant_begun(t, p, name);
            if begun.failure is Some {
                begun
            } else {
                encode_fields(begun.tree, p, fields, fields.len())
            }
        },
    }
}

/// Encoding the first `n` of `items` in the directory `p`, element `i` at
/// the child named by `i`.
pub open spec fn encode_items(t: TreeView, p: Seq<Seq<char>>, items: Seq<ValueView>, n: nat)
    -> Outcome
    decreases items, n,
{
    if n == 0 || n > items.len() {
        done(t)
    } else {
        let before = encode_items(t, p, items, (n - 1) as nat);
        if before.failure is Some {
            before
        } else {
            encode(before.tree, p.push(index_name((n - 1) as nat)), items[n - 1])
        }
    }
}

/// Encoding one entry of a map in the directory `p`.
pub open spec fn encode_entry(t: TreeView, p: Seq<Seq<char>>, key: ValueView, value: ValueView)
    -> Outcome
    decreases value, 1nat,
{
    match key_text(key) {
        Some(name) => encode(t, p.push(name), value),
        None => failed(t, ErrorView::KeyMustBeAString),
    }
}

/// Encoding the first `n` of `entries` in the directory `p`, each value at
/// the child named by its key.
pub open spec fn encode_entries(
    t: TreeView,
    p: Seq<Seq<char>>,
    entries: Seq<(ValueView, ValueView)>,
    n: nat,
) -> Outcome
    decreases entries, n,
{
    if n == 0 || n > entries.len() {
        done(t)
    } else {
        let before = encode_entries(t, p, entries, (n - 1) as nat);
        if before.failure is Some {
            before
        } else {
            encode_entry(before.tree, p, entries[n - 1].0, entries[n - 1].1)
        }
    }
}

/// Encoding the first `n` of `fields` in the directory `p`, each value at
/// the child named by its field.
pub open spec fn encode_fields(
    t: TreeView,
    p: Seq<Seq<char>>,
    fields: Seq<(Seq<char>, ValueView)>,
    n: nat,
) -> Outcome
    decreases fields, n,
{
    if n == 0 || n > fields.len() {
        done(t)
    } else {
        let before = encode_fields(t, p, fields, (n - 1) as nat);
        if before.failure is Some {
            before
        } else {
            encode(before.tree, p.push(fields[n - 1].0), fields[n - 1].1)
        }
    }
}

/// Once an element has failed, the elements after it change nothing.
pub proof fn lemma_items_stop(t: TreeView, p: Seq<Seq<char>>, items: Seq<ValueView>, n: nat, m: nat)
    requires
        n <= m <= items.len(),
        encode_items(t, p, items, n).failure is Some,
    ensures
        encode_items(t, p, items, m) == encode_items(t, p, items, n),
    decreases m,
{
    if m > n {
        lemma_items_stop(t, p, items, n, (m - 1) as nat);
    }
}

/// Once an entry has failed, the entries after it change nothing.
pub proof fn lemma_entries_stop(
    t: TreeView,
    p: Seq<Seq<char>>,
    entries: Seq<(ValueView, ValueView)>,
    n: nat,
    m: nat,
)
    requires
        n <= m <= entries.len(),
        encode_entries(t, p, entries, n).failure is Some,
    ensures
        encode_entries(t, p, entries, m) == encode_entries(t, p, entries, n),
    decreases m,
{
    if m > n {
        lemma_entries_stop(t, p, entries, n, (m - 1) as nat);
    }
}

/// Once a field has failed, the fields after it change nothing.
pub proof fn lemma_fields_stop(
    t: TreeView,
    p: Seq<Seq<char>>,
    fields: Seq<(Seq<char>, ValueView)>,
    n: nat,
    m: nat,
)
    requires
        n <= m <= fields.len(),
        encode_fields(t, p, fields, n).failure is Some,
    ensures
        encode_fields(t, p, fields, m) == encode_fields(t, p, fields, n),
    decreases m,
{
    if m > n {
        lemma_fields_stop(t, p, fields, n, (m - 1) as nat);
    }
}

/// The error of the encoder for a failed operation on the tree.
pub fn io_error(kind: IoErrorKind) -> (e: Error)
    ensures
        e@ == ErrorView::IoError(kind),
{
    Error::IoError(kind)
}

impl FilesystemSerializer {
    /// A serializer that writes at `path`.
    pub fn new(path: TreePath) -> (r: FilesystemSerializer)
        ensures
            r@ == path@,
    {
        FilesystemSerializer { path }
    }

    /// Writes `content` as a leaf.
    fn write_leaf(self, fs: &mut FileTree, content: Vec<u8>) -> (r: Result<(), Error>)
        requires
            old(fs).wf(),
        ensures
            final(fs).wf(),
            final(fs).base() == old(fs).base(),
            final(fs)@ == put(old(fs)@, self@, content@).tree,
            failure_of(r) == put(old(fs)@, self@, content@).failure,
    {
        match write_to_file(fs, &self.path, content) {
            Ok(()) => Ok(()),
            Err(e) => Err(io_error(e)),
        }
    }

    /// Writes `text` as a leaf, in UTF-8.
    fn write_text(self, fs: &mut FileTree, text: &str) -> (r: Result<(), Error>)
        requires
            old(fs).wf(),
        ensures
            final(fs).wf(),
            final(fs).base() == old(fs).base(),
            final(fs)@ == put(old(fs)@, self@, encode_utf8(text@)).tree,
            failure_of(r) == put(old(fs)@, self@, encode_utf8(text@)).failure,
    {
        self.write_leaf(fs, text.as_bytes_vec())
    }

    /// Writes `true` or `false`.
    pub fn serialize_bool(self, fs: &mut FileTree, v: bool) -> (r: Result<(), Error>)
        requires
            old(fs).wf(),
        ensures
            final(fs).wf(),
            final(fs).base() == old(fs).base(),
            final(fs)@ == put(old(fs)@, self@, encode_utf8(bool_text(v))).tree,
            failure_of(r) == put(old(fs)@, self@, encode_utf8(bool_text(v))).failure,
    {
        let text = format_bool(v);
        self.write_text(fs, text.as_str())
    }

    /// Writes the canonical base-10 text of `v`.
    pub fn serialize_i8(self, fs: &mut FileTree, v: i8) -> (r: Result<(), Error>)
        requires
            old(fs).wf(),
        ensures
            final(fs).wf(),
            final(fs).base() == old(fs).base(),
            final(fs)@ == put(old(fs)@, self@, encode_utf8(decimal_text(v as int))).tree,
            failure_of(r) == put(old(fs)@, self@, encode_utf8(decimal_text(v as int))).failure,
    {
        let text = format_signed(v as i64);
        self.write_text(fs, text.as_str())
    }

    /// Writes the canonical base-10 text of `v`.
    pub fn serialize_i16(self, fs: &mut FileTree, v: i16) -> (r: Result<(), Error>)
        requires
            old(fs).wf(),
        ensures
            final(fs).wf(),
            final(fs).base() == old(fs).base(),
            final(fs)@ == put(old(fs)@, self@, encode_utf8(decimal_text(v as int))).tree,
            failure_of(r) == put(old(fs)@, self@, encode_utf8(decimal_text(v as int))).failure,
    {
        let text = format_signed(v as i64);
        self.write_text(fs, text.as_str())
    }

    /// Writes the canonical base-10 text of `v`.
    pub fn serialize_i32(self, fs: &mut FileTree, v: i32) -> (r: Result<(), Error>)
        requires
            old(fs).wf(),
        ensures
            final(fs).wf(),
            final(fs).base() == old(fs).base(),
            final(fs)@ == put(old(fs)@, self@, encode_utf8(decimal_text(v as int))).tree,
            failure_of(r) == put(old(fs)@, self@, encode_utf8(decimal_text(v as int))).failure,
    {
        let text = format_signed(v as i64);
        self.write_text(fs, text.as_str())
    }

    /// Writes the canonical base-10 text of `v`.
    pub fn serialize_i64(self, fs: &mut FileTree, v: i64) -> (r: Result<(), Error>)
        requires
            old(fs).wf(),
        ensures
            final(fs).wf(),
            final(fs).base() == old(fs).base(),
            final(fs)@ == put(old(fs)@, self@, encode_utf8(decimal_text(v as int))).tree,
            failure_of(r) == put(old(fs)@, self@, encode_utf8(decimal_text(v as int))).failure,
    {
        let text = format_signed(v);
        self.write_text(fs, text.as_str())
    }

    /// Writes the canonical base-10 text of `v`.
    pub fn serialize_u8(self, fs: &mut FileTree, v: u8) -> (r: Result<(), Error>)
        requires
            old(fs).wf(),
        ensures
            final(fs).wf(),
            final(fs).base() == old(fs).base(),
            final(fs)@ == put(old(fs)@, self@, encode_utf8(decimal_text(v as int))).tree,
            failure_of(r) == put(old(fs)@, self@, encode_utf8(decimal_text(v as int))).failure,
    {
        let text = format_unsigned(v as u64);
        self.write_text(fs, text.as_str())
    }

    /// Writes the canonical base-10 text of `v`.
    pub fn serialize_u16(self, fs: &mut FileTree, v: u16) -> (r: Result<(), Error>)
        requires
            old(fs).wf(),
        ensures
            final(fs).wf(),
            final(fs).base() == old(fs).base(),
            final(fs)@ == put(old(fs)@, self@, encode_utf8(decimal_text(v as int))).tree,
            failure_of(r) == put(old(fs)@, self@, encode_utf8(decimal_text(v as int))).failure,
    {
        let text = format_unsigned(v as u64);
        self.write_text(fs, text.as_str())
    }

    /// Writes the canonical base-10 text of `v`.
    pub fn serialize_u32(self, fs: &mut FileTree, v: u32) -> (r: Result<(), Error>)
        requires
            old(fs).wf(),
        ensures
            final(fs).wf(),
            final(fs).base() == old(fs).base(),
            final(fs)@ == put(old(fs)@, self@, encode_utf8(decimal_text(v as int))).tree,
            failure_of(r) == put(old(fs)@, self@, encode_utf8(decimal_text(v as int))).failure,
    {
        let text = format_unsigned(v as u64);
        self.write_text(fs, text.as_str())
    }

    /// Writes the canonical base-10 text of `v`.
    pub fn serialize_u64(self, fs: &mut FileTree, v: u64) -> (r: Result<(), Error>)
        requires
            old(fs).wf(),
        ensures
            final(fs).wf(),
            final(fs).base() == old(fs).base(),
            final(fs)@ == put(old(fs)@, self@, encode_utf8(decimal_text(v as int))).tree,
            failure_of(r) == put(old(fs)@, self@, encode_utf8(decimal_text(v as int))).failure,
    {
        let text = format_unsigned(v);
        self.write_text(fs, text.as_str())
    }

    /// Writes the character in UTF-8.
    pub fn serialize_char(self, fs: &mut FileTree, v: char) -> (r: Result<(), Error>)
        requires
            old(fs).wf(),
        ensures
            final(fs).wf(),
            final(fs).base() == old(fs).base(),
            final(fs)@ == put(old(fs)@, self@, encode_utf8(seq![v])).tree,
            failure_of(r) == put(old(fs)@, self@, encode_utf8(seq![v])).failure,
    {
        let mut text = String::new();
        text.push(v);
        proof {
            assert(text@ =~= seq![v]);
        }
        self.write_text(fs, text.as_str())
    }

    /// Writes the text as it is, in UTF-8.
    pub fn serialize_str(self, fs: &mut FileTree, v: &str) -> (r: Result<(), Error>)
        requires
            old(fs).wf(),
        ensures
            final(fs).wf(),
            final(fs).base() == old(fs).base(),
            final(fs)@ == put(old(fs)@, self@, encode_utf8(v@)).tree,
            failure_of(r) == put(old(fs)@, self@, encode_utf8(v@)).failure,
    {
        self.write_text(fs, v)
    }

    /// Writes the bytes as they are.
    pub fn serialize_bytes(self, fs: &mut FileTree, v: &[u8]) -> (r: Result<(), Error>)
        requires
            old(fs).wf(),
        ensures
            final(fs).wf(),
            final(fs).base() == old(fs).base(),
            final(fs)@ == put(old(fs)@, self@, v@).tree,
            failure_of(r) == put(old(fs)@, self@, v@).failure,
    {
        self.write_leaf(fs, vstd::slice::slice_to_vec(v))
    }

    /// Removes whatever the path holds: an absent value is no node at all.
    pub fn serialize_none(self, fs: &mut FileTree) -> (r: Result<(), Error>)
        requires
            old(fs).wf(),
        ensures
            final(fs).wf(),
            final(fs).base() == old(fs).base(),
            final(fs)@ == without(old(fs)@, self@),
            r is Ok,
    {
        let ghost t = fs@;
        let ghost p = self@;
        if fs.is_file(&self.path) {
            match fs.remove_file(&self.path) {
                Ok(()) => {},
                Err(e) => {
                    return Err(io_error(e));
                },
            }
            proof {
                assert forall|q: Seq<Seq<char>>| t.dom().contains(q) && p.is_prefix_of(q) implies q
                    == p by {
                    if q != p {
                        lemma_ancestors_are_dirs(t, q);
                        assert(q.take(p.len() as int) =~= p);
                    }
                }
                assert(p.is_prefix_of(p)) by {
                    assert(p =~= p.subrange(0, p.len() as int));
                }
                assert(fs@ =~= without(t, p));
            }
        } else if fs.is_dir(&self.path) {
            match fs.remove_dir_all(&self.path) {
                Ok(()) => {},
                Err(e) => {
                    return Err(io_error(e));
                },
            }
        } else {
            proof {
                assert forall|q: Seq<Seq<char>>| t.dom().contains(q) implies !p.is_prefix_of(q) by {
                    if p.is_prefix_of(q) {
                        if q.len() == p.len() {
                            assert(q =~= p);
                        } else {
                            lemma_ancestors_are_dirs(t, q);
                            assert(q.take(p.len() as int) =~= p);
                        }
                    }
                }
                assert(fs@ =~= without(t, p));
            }
        }
        Ok(())
    }

    /// Writes a value that is present as the value itself.
    pub fn serialize_some(self, fs: &mut FileTree, value: &Value) -> (r: Result<(), Error>)
        requires
            old(fs).wf(),
        ensures
            final(fs).wf(),
            final(fs).base() == old(fs).base(),
            final(fs)@ == encode(old(fs)@, self@, value@).tree,
            failure_of(r) == encode(old(fs)@, self@, value@).failure,
        decreases value, 1nat,
    {
        value.serialize(fs, self)
    }

    /// Writes an empty file.
    pub fn serialize_unit(self, fs: &mut FileTree) -> (r: Result<(), Error>)
        requires
            old(fs).wf(),
        ensures
            final(fs).wf(),
            final(fs).base() == old(fs).base(),
            final(fs)@ == put(old(fs)@, self@, Seq::empty()).tree,
            failure_of(r) == put(old(fs)@, self@, Seq::empty()).failure,
    {
        self.write_leaf(fs, Vec::new())
    }

    /// Writes a struct without fields as an empty file.
    pub fn serialize_unit_struct(self, fs: &mut FileTree, _name: &str) -> (r: Result<(), Error>)
        requires
            old(fs).wf(),
        ensures
            final(fs).wf(),
            final(fs).base() == old(fs).base(),
            final(fs)@ == put(old(fs)@, self@, Seq::empty()).tree,
            failure_of(r) == put(old(fs)@, self@, Seq::empty()).failure,
    {
        self.serialize_unit(fs)
    }

    /// Writes a variant without a payload as a file that holds its name.
    pub fn serialize_unit_variant(
        self,
        fs: &mut FileTree,
        _name: &str,
        _variant_index: u32,
        variant: &str,
    ) -> (r: Result<(), Error>)
        requires
            old(fs).wf(),
        ensures
            final(fs).wf(),
            final(fs).base() == old(fs).base(),
            final(fs)@ == put(old(fs)@, self@, encode_utf8(variant@)).tree,
            failure_of(r) == put(old(fs)@, self@, encode_utf8(variant@)).failure,
    {
        self.serialize_str(fs, variant)
    }

    /// Writes a struct that wraps one value as that value.
    pub fn serialize_newtype_struct(self, fs: &mut FileTree, _name: &str, value: &Value) -> (r:
        Result<(), Error>)
        requires
            old(fs).wf(),
        ensures
            final(fs).wf(),
            final(fs).base() == old(fs).base(),
            final(fs)@ == encode(old(fs)@, self@, value@).tree,
            failure_of(r) == encode(old(fs)@, self@, value@).failure,
        decreases value, 1nat,
    {
        value.serialize(fs, self)
    }

    /// Writes a variant that wraps one value: a directory with the marker
    /// file `variant`, which holds the variant's name, and the payload at
    /// `value`.
    pub fn serialize_newtype_variant(
        self,
        fs: &mut FileTree,
        _name: &str,
        _variant_index: u32,
        variant: &str,
        value: &Value,
    ) -> (r: Result<(), Error>)
        requires
            old(fs).wf(),
        ensures
            final(fs).wf(),
            final(fs).base() == old(fs).base(),
            final(fs)@ == encode(
                old(fs)@,
                self@,
                ValueView::NewtypeVariant(variant@, Box::new(value@)),
            ).tree,
            failure_of(r) == encode(
                old(fs)@,
                self@,
                ValueView::NewtypeVariant(variant@, Box::new(value@)),
            ).failure,
        decreases value, 1nat,
    {
        let ghost t = fs@;
        let ghost p = self@;
        let marker = self.path.join_variant();
        let payload = self.path.join_value();
        if fs.is_dir(&self.path) {
            if fs.is_file(&marker) {
                match fs.remove_file(&marker) {
                    Ok(()) => {},
                    Err(e) => {
                        return Err(io_error(e));
                    },
                }
            }
            let ghost unmarked = fs@;
            if fs.is_file(&payload) {
                match fs.remove_file(&payload) {
                    Ok(()) => {},
                    Err(e) => {
                        return Err(io_error(e));
                    },
                }
                proof {
                    lemma_without_file(unmarked, payload@);
                }
            } else if fs.is_dir(&payload) {
                match fs.remove_dir_all(&payload) {
                    Ok(()) => {},
                    Err(e) => {
                        return Err(io_error(e));
                    },
                }
            } else {
                proof {
                    lemma_without_absent(unmarked, payload@);
                }
            }
        } else if fs.is_file(&self.path) {
            match fs.remove_file(&self.path) {
                Ok(()) => {},
                Err(e) => {
                    return Err(io_error(e));
                },
            }
        }
        assert(fs@ == variant_cleared(t, p));
        match fs.create_dir_all(&self.path) {
            Ok(()) => {},
            Err(e) => {
                return Err(io_error(e));
            },
        }
        match write_to_file(fs, &marker, variant.as_bytes_vec()) {
            Ok(()) => {},
            Err(e) => {
                return Err(io_error(e));
            },
        }
        value.serialize(fs, FilesystemSerializer::new(payload))
    }

    /// Begins a sequence at the path.
    pub fn serialize_seq(self, fs: &mut FileTree, _len: Option<usize>) -> (r: Result<
        FilesystemSequenceSerializer,
        Error,
    >)
        requires
            old(fs).wf(),
        ensures
            final(fs).wf(),
            final(fs).base() == old(fs).base(),
            final(fs)@ == seq_begun(old(fs)@, self@).tree,
            failure_of(r) == seq_begun(old(fs)@, self@).failure,
            r matches Ok(s) ==> s.path() == self@ && s.counter() == 0,
    {
        FilesystemSequenceSerializer::new(fs, self.path)
    }

    /// Begins a tuple at the path.
    pub fn serialize_tuple(self, fs: &mut FileTree, _len: usize) -> (r: Result<
        FilesystemSequenceSerializer,
        Error,
    >)
        requires
            old(fs).wf(),
        ensures
            final(fs).wf(),
            final(fs).base() == old(fs).base(),
            final(fs)@ == seq_begun(old(fs)@, self@).tree,
            failure_of(r) == seq_begun(old(fs)@, self@).failure,
            r matches Ok(s) ==> s.path() == self@ && s.counter() == 0,
    {
        FilesystemSequenceSerializer::new(fs, self.path)
    }

    /// Begins a struct with unnamed fields at the path.
    pub fn serialize_tuple_struct(self, fs: &mut FileTree, _name: &str, _len: usize) -> (r: Result<
        FilesystemSequenceSerializer,
        Error,
    >)
        requires
            old(fs).wf(),
        ensures
            final(fs).wf(),
            final(fs).base() == old(fs).base(),
            final(fs)@ == seq_begun(old(fs)@, self@).tree,
            failure_of(r) == seq_begun(old(fs)@, self@).failure,
            r matches Ok(s) ==> s.path() == self@ && s.counter() == 0,
    {
        FilesystemSequenceSerializer::new(fs, self.path)
    }

    /// Begins a variant with unnamed fields at the path: as a tuple, with
    /// the marker file `variant` beside the elements.
    pub fn serialize_tuple_variant(
        self,
        fs: &mut FileTree,
        _name: &str,
        _variant_index: u32,
        variant: &str,
        _len: usize,
    ) -> (r: Result<FilesystemSequenceSerializer, Error>)
        requires
            old(fs).wf(),
        ensures
            final(fs).wf(),
            final(fs).base() == old(fs).base(),
            final(fs)@ == tuple_variant_begun(old(fs)@, self@, variant@).tree,
            failure_of(r) == tuple_variant_begun(old(fs)@, self@, variant@).failure,
            r matches Ok(s) ==> s.path() == self@ && s.counter() == 0,
    {
        let marker = self.path.join_variant();
        let serializer = match FilesystemSequenceSerializer::new(fs, self.path) {
            Ok(s) => s,
            Err(e) => {
                return Err(e);
            },
        };
        match write_to_file(fs, &marker, variant.as_bytes_vec()) {
            Ok(()) => Ok(serializer),
            Err(e) => Err(io_error(e)),
        }
    }

    /// Begins a map at the path.
    pub fn serialize_map(self, fs: &mut FileTree, _len: Option<usize>) -> (r: Result<
        FilesystemMapSerializer,
        Error,
    >)
        requires
            old(fs).wf(),
        ensures
            final(fs).wf(),
            final(fs).base() == old(fs).base(),
            final(fs)@ == map_begun(old(fs)@, self@).tree,
            failure_of(r) == map_begun(old(fs)@, self@).failure,
            r matches Ok(s) ==> s.path() == self@ && s.key() is None,
    {
        FilesystemMapSerializer::new(fs, self.path)
    }

    /// Begins a struct at the path.
    pub fn serialize_struct(self, fs: &mut FileTree, _name: &str, _len: usize) -> (r: Result<
        FilesystemMapSerializer,
        Error,
    >)
        requires
            old(fs).wf(),
        ensures
            final(fs).wf(),
            final(fs).base() == old(fs).base(),
            final(fs)@ == map_begun(old(fs)@, self@).tree,
            failure_of(r) == map_begun(old(fs)@, self@).failure,
            r matches Ok(s) ==> s.path() == self@ && s.key() is None,
    {
        FilesystemMapSerializer::new(fs, self.path)
    }

    /// Begins a variant with named fields at the path: as a struct, with the
    /// marker file `variant` beside the fields.
    pub fn serialize_struct_variant(
        self,
        fs: &mut FileTree,
        _name: &str,
        _variant_index: u32,
        variant: &str,
        _len: usize,
    ) -> (r: Result<FilesystemMapSerializer, Error>)
        requires
            old(fs).wf(),
        ensures
            final(fs).wf(),
            final(fs).base() == old(fs).base(),
            final(fs)@ == struct_variant_begun(old(fs)@, self@, variant@).tree,
            failure_of(r) == struct_variant_begun(old(fs)@, self@, variant@).failure,
            r matches Ok(s) ==> s.path() == self@ && s.key() is None,
    {
        let marker = self.path.join_variant();
        let serializer = match FilesystemMapSerializer::new(fs, self.path) {
            Ok(s) => s,
            Err(e) => {
                return Err(e);
            },
        };
        match write_to_file(fs, &marker, variant.as_bytes_vec()) {
            Ok(()) => Ok(serializer),
            Err(e) => Err(io_error(e)),
        }
    }
}

/// In a well-formed tree nothing lies beneath a file.
pub proof fn lemma_without_file(t: TreeView, p: Seq<Seq<char>>)
    requires
        well_formed(t),
        is_file(t, p),
    ensures
        without(t, p) == t.remove(p),
{
    assert forall|q: Seq<Seq<char>>| t.dom().contains(q) && p.is_prefix_of(q) implies q == p by {
        if q != p {
            lemma_ancestors_are_dirs(t, q);
            assert(q.take(p.len() as int) =~= p);
        }
    }
    assert(p.is_prefix_of(p)) by {
        assert(p =~= p.subrange(0, p.len() as int));
    }
    assert(without(t, p) =~= t.remove(p));
}

/// In a well-formed tree nothing lies beneath a path that holds nothing.
pub proof fn lemma_without_absent(t: TreeView, p: Seq<Seq<char>>)
    requires
        well_formed(t),
        !t.dom().contains(p),
    ensures
        without(t, p) == t,
{
    assert forall|q: Seq<Seq<char>>| t.dom().contains(q) implies !p.is_prefix_of(q) by {
        if p.is_prefix_of(q) {
            if q.len() == p.len() {
                assert(q =~= p);
            } else {
                lemma_ancestors_are_dirs(t, q);
                assert(q.take(p.len() as int) =~= p);
            }
        }
    }
    assert(without(t, p) =~= t);
}

/// Writes the entries of a map, or the fields of a struct, into a directory.
#[derive(Debug)]
pub struct FilesystemMapSerializer {
    path: TreePath,
    key: Option<String>,
}

impl FilesystemMapSerializer {
    /// The directory that the entries go to.
    pub closed spec fn path(&self) -> Seq<Seq<char>> {
        self.path@
    }

    /// The key whose value is to come.
    pub closed spec fn key(&self) -> Option<Seq<char>> {
        match self.key {
            Some(k) => Some(k@),
            None => None,
        }
    }

    /// Makes `path` ready for the entries of a map: a file there is removed,
    /// and the directory is made. What the directory held stays.
    pub fn new(fs: &mut FileTree, path: TreePath) -> (r: Result<FilesystemMapSerializer, Error>)
        requires
            old(fs).wf(),
        ensures
            final(fs).wf(),
            final(fs).base() == old(fs).base(),
            final(fs)@ == map_begun(old(fs)@, path@).tree,
            failure_of(r) == map_begun(old(fs)@, path@).failure,
            r matches Ok(s) ==> s.path() == path@ && s.key() is None,
    {
        if fs.is_file(&path) {
            match fs.remove_file(&path) {
                Ok(()) => {},
                Err(e) => {
                    return Err(io_error(e));
                },
            }
        }
        match fs.create_dir_all(&path) {
            Ok(()) => Ok(FilesystemMapSerializer { path, key: None }),
            Err(e) => Err(io_error(e)),
        }
    }
}

impl FilesystemSequenceSerializer {
    /// Writes `value` as the next element, at the child named by its index.
    pub fn do_serialize_element(&mut self, fs: &mut FileTree, value: &Value) -> (r: Result<
        (),
        Error,
    >)
        requires
            old(fs).wf(),
            old(self).counter() < usize::MAX,
        ensures
            final(fs).wf(),
            final(fs).base() == old(fs).base(),
            final(self).path() == old(self).path(),
            final(self).counter() == old(self).counter() + 1,
            final(fs)@ == encode(
                old(fs)@,
                old(self).path().push(index_name(old(self).counter())),
                value@,
            ).tree,
            failure_of(r) == encode(
                old(fs)@,
                old(self).path().push(index_name(old(self).counter())),
                value@,
            ).failure,
        decreases value, 1nat,
    {
        let result = value.serialize(fs, FilesystemSerializer::new(self.path.join_index(self.counter)));
        self.counter = self.counter + 1;
        result
    }

    /// Ends the sequence. Nothing is left to do.
    pub fn do_end(self) -> (r: Result<(), Error>)
        ensures
            r is Ok,
    {
        Ok(())
    }

    /// Writes `value` as the next element of a sequence or tuple.
    pub fn serialize_element(&mut self, fs: &mut FileTree, value: &Value) -> (r: Result<(), Error>)
        requires
            old(fs).wf(),
            old(self).counter() < usize::MAX,
        ensures
            final(fs).wf(),
            final(fs).base() == old(fs).base(),
            final(self).path() == old(self).path(),
            final(self).counter() == old(self).counter() + 1,
            final(fs)@ == encode(
                old(fs)@,
                old(self).path().push(index_name(old(self).counter())),
                value@,
            ).tree,
            failure_of(r) == encode(
                old(fs)@,
                old(self).path().push(index_name(old(self).counter())),
                value@,
            ).failure,
        decreases value, 2nat,
    {
        self.do_serialize_element(fs, value)
    }

    /// Writes `value` as the next unnamed field of a struct or variant.
    pub fn serialize_field(&mut self, fs: &mut FileTree, value: &Value) -> (r: Result<(), Error>)
        requires
            old(fs).wf(),
            old(self).counter() < usize::MAX,
        ensures
            final(fs).wf(),
            final(fs).base() == old(fs).base(),
            final(self).path() == old(self).path(),
            final(self).counter() == old(self).counter() + 1,
            final(fs)@ == encode(
                old(fs)@,
                old(self).path().push(index_name(old(self).counter())),
                value@,
            ).tree,
            failure_of(r) == encode(
                old(fs)@,
                old(self).path().push(index_name(old(self).counter())),
                value@,
            ).failure,
        decreases value, 2nat,
    {
        self.do_serialize_element(fs, value)
    }

    /// Ends the sequence. Nothing is left to do.
    pub fn end(self) -> (r: Result<(), Error>)
        ensures
            r is Ok,
    {
        self.do_end()
    }
}

/// Turns the key of a map into the name of a node. Only a text can be a
/// key; every other shape is refused.
#[derive(Debug)]
pub struct MapKeySerializer;

impl MapKeySerializer {
    /// A `bool` is no key.
    pub fn serialize_bool(self, _v: bool) -> (r: Result<String, Error>)
        ensures
            r matches Err(e) && e@ == ErrorView::KeyMustBeAString,
    {
        Err(Error::KeyMustBeAString)
    }

    /// A `i8` is no key.
    pub fn serialize_i8(self, _v: i8) -> (r: Result<String, Error>)
        ensures
            r matches Err(e) && e@ == ErrorView::KeyMustBeAString,
    {
        Err(Error::KeyMustBeAString)
    }

    /// A `i16` is no key.
    pub fn serialize_i16(self, _v: i16) -> (r: Result<String, Error>)
        ensures
            r matches Err(e) && e@ == ErrorView::KeyMustBeAString,
    {
        Err(Error::KeyMustBeAString)
    }

    /// A `i32` is no key.
    pub fn serialize_i32(self, _v: i32) -> (r: Result<String, Error>)
        ensures
            r matches Err(e) && e@ == ErrorView::KeyMustBeAString,
    {
        Err(Error::KeyMustBeAString)
    }

    /// A `i64` is no key.
    pub fn serialize_i64(self, _v: i64) -> (r: Result<String, Error>)
        ensures
            r matches Err(e) && e@ == ErrorView::KeyMustBeAString,
    {
        Err(Error::KeyMustBeAString)
    }

    /// A `u8` is no key.
    pub fn serialize_u8(self, _v: u8) -> (r: Result<String, Error>)
        ensures
            r matches Err(e) && e@ == ErrorView::KeyMustBeAString,
    {
        Err(Error::KeyMustBeAString)
    }

    /// A `u16` is no key.
    pub fn serialize_u16(self, _v: u16) -> (r: Result<String, Error>)
        ensures
            r matches Err(e) && e@ == ErrorView::KeyMustBeAString,
    {
        Err(Error::KeyMustBeAString)
    }

    /// A `u32` is no key.
    pub fn serialize_u32(self, _v: u32) -> (r: Result<String, Error>)
        ensures
            r matches Err(e) && e@ == ErrorView::KeyMustBeAString,
    {
        Err(Error::KeyMustBeAString)
    }

    /// A `u64` is no key.
    pub fn serialize_u64(self, _v: u64) -> (r: Result<String, Error>)
        ensures
            r matches Err(e) && e@ == ErrorView::KeyMustBeAString,
    {
        Err(Error::KeyMustBeAString)
    }

    /// A `char` is no key.
    pub fn serialize_char(self, _v: char) -> (r: Result<String, Error>)
        ensures
            r matches Err(e) && e@ == ErrorView::KeyMustBeAString,
    {
        Err(Error::KeyMustBeAString)
    }

    /// A text is a key: the name of the node is the text.
    pub fn serialize_str(self, v: &str) -> (r: Result<String, Error>)
        ensures
            r matches Ok(name) && name@ == v@,
    {
        Ok(v.to_owned())
    }

    /// Bytes are no key.
    pub fn serialize_bytes(self, _v: &[u8]) -> (r: Result<String, Error>)
        ensures
            r matches Err(e) && e@ == ErrorView::KeyMustBeAString,
    {
        Err(Error::KeyMustBeAString)
    }

    /// An absent value is no key.
    pub fn serialize_none(self) -> (r: Result<String, Error>)
        ensures
            r matches Err(e) && e@ == ErrorView::KeyMustBeAString,
    {
        Err(Error::KeyMustBeAString)
    }

    /// A present value is no key, whatever it holds.
    pub fn serialize_some(self, _value: &Value) -> (r: Result<String, Error>)
        ensures
            r matches Err(e) && e@ == ErrorView::KeyMustBeAString,
    {
        Err(Error::KeyMustBeAString)
    }

    /// The unit value is no key.
    pub fn serialize_unit(self) -> (r: Result<String, Error>)
        ensures
            r matches Err(e) && e@ == ErrorView::KeyMustBeAString,
    {
        Err(Error::KeyMustBeAString)
    }

    /// A struct without fields is no key.
    pub fn serialize_unit_struct(self, _name: &str) -> (r: Result<String, Error>)
        ensures
            r matches Err(e) && e@ == ErrorView::KeyMustBeAString,
    {
        Err(Error::KeyMustBeAString)
    }

    /// A variant is no key.
    pub fn serialize_unit_variant(
        self,
        _name: &str,
        _variant_index: u32,
        _variant: &str,
    ) -> (r: Result<String, Error>)
        ensures
            r matches Err(e) && e@ == ErrorView::KeyMustBeAString,
    {
        Err(Error::KeyMustBeAString)
    }

    /// A struct is no key, whatever it wraps.
    pub fn serialize_newtype_struct(self, _name: &str, _value: &Value) -> (r: Result<String, Error>)
        ensures
            r matches Err(e) && e@ == ErrorView::KeyMustBeAString,
    {
        Err(Error::KeyMustBeAString)
    }

    /// A variant is no key.
    pub fn serialize_newtype_variant(
        self,
        _name: &str,
        _variant_index: u32,
        _variant: &str,
        _value: &Value,
    ) -> (r: Result<String, Error>)
        ensures
            r matches Err(e) && e@ == ErrorView::KeyMustBeAString,
    {
        Err(Error::KeyMustBeAString)
    }

    /// A sequence is no key.
    pub fn serialize_seq(self, _len: Option<usize>) -> (r: Result<String, Error>)
        ensures
            r matches Err(e) && e@ == ErrorView::KeyMustBeAString,
    {
        Err(Error::KeyMustBeAString)
    }

    /// A tuple is no key.
    pub fn serialize_tuple(self, _len: usize) -> (r: Result<String, Error>)
        ensures
            r matches Err(e) && e@ == ErrorView::KeyMustBeAString,
    {
        Err(Error::KeyMustBeAString)
    }

    /// A struct is no key.
    pub fn serialize_tuple_struct(self, _name: &str, _len: usize) -> (r: Result<String, Error>)
        ensures
            r matches Err(e) && e@ == ErrorView::KeyMustBeAString,
    {
        Err(Error::KeyMustBeAString)
    }

    /// A variant is no key.
    pub fn serialize_tuple_variant(
        self,
        _name: &str,
        _variant_index: u32,
        _variant: &str,
        _len: usize,
    ) -> (r: Result<String, Error>)
        ensures
            r matches Err(e) && e@ == ErrorView::KeyMustBeAString,
    {
        Err(Error::KeyMustBeAString)
    }

    /// A map is no key.
    pub fn serialize_map(self, _len: Option<usize>) -> (r: Result<String, Error>)
        ensures
            r matches Err(e) && e@ == ErrorView::KeyMustBeAString,
    {
        Err(Error::KeyMustBeAString)
    }

    /// A struct is no key.
    pub fn serialize_struct(self, _name: &str, _len: usize) -> (r: Result<String, Error>)
        ensures
            r matches Err(e) && e@ == ErrorView::KeyMustBeAString,
    {
        Err(Error::KeyMustBeAString)
    }

    /// A variant is no key.
    pub fn serialize_struct_variant(
        self,
        _name: &str,
        _variant_index: u32,
        _variant: &str,
        _len: usize,
    ) -> (r: Result<String, Error>)
        ensures
            r matches Err(e) && e@ == ErrorView::KeyMustBeAString,
    {
        Err(Error::KeyMustBeAString)
    }
}

impl FilesystemMapSerializer {
    /// Takes the key of the next entry and makes sure that the directory
    /// exists. The value is to follow.
    pub fn serialize_key(&mut self, fs: &mut FileTree, key: &Value) -> (r: Result<(), Error>)
        requires
            old(fs).wf(),
        ensures
            final(fs).wf(),
            final(fs).base() == old(fs).base(),
            final(self).path() == old(self).path(),
            match key_text(key@) {
                None => {
                    &&& r matches Err(e) && e@ == ErrorView::KeyMustBeAString
                    &&& final(fs)@ == old(fs)@
                    &&& final(self).key() == old(self).key()
                },
                Some(name) => if dirs_free(old(fs)@, old(self).path()) {
                    &&& r is Ok
                    &&& final(fs)@ == with_dirs(old(fs)@, old(self).path())
                    &&& final(self).key() == Some(name)
                } else {
                    &&& r matches Err(e) && e@ == ErrorView::IoError(IoErrorKind::NotADirectory)
                    &&& final(fs)@ == old(fs)@
                    &&& final(self).key() == old(self).key()
                },
            },
    {
        let name = match key.serialize_key(MapKeySerializer) {
            Ok(name) => name,
            Err(e) => {
                return Err(e);
            },
        };
        match fs.create_dir_all(&self.path) {
            Ok(()) => {},
            Err(e) => {
                return Err(io_error(e));
            },
        }
        self.key = Some(name);
        Ok(())
    }

    /// Writes the value of the entry whose key came last, at the child named
    /// by the key. Without such a key the call fails.
    pub fn serialize_value(&mut self, fs: &mut FileTree, value: &Value) -> (r: Result<(), Error>)
        requires
            old(fs).wf(),
        ensures
            final(fs).wf(),
            final(fs).base() == old(fs).base(),
            final(self).path() == old(self).path(),
            final(self).key() is None,
            match old(self).key() {
                None => (r matches Err(e) && e@ == ErrorView::KeyMustBeAString) && final(fs)@ == old(
                    fs,
                )@,
                Some(name) => {
                    &&& final(fs)@ == encode(old(fs)@, old(self).path().push(name), value@).tree
                    &&& failure_of(r) == encode(
                        old(fs)@,
                        old(self).path().push(name),
                        value@,
                    ).failure
                },
            },
        decreases value, 1nat,
    {
        let key = match self.key.take() {
            None => {
                return Err(Error::KeyMustBeAString);
            },
            Some(key) => key,
        };
        value.serialize(fs, FilesystemSerializer::new(self.path.join(key.as_str())))
    }

    /// Writes one entry: the value at the child named by the key.
    pub fn serialize_entry(&mut self, fs: &mut FileTree, key: &Value, value: &Value) -> (r: Result<
        (),
        Error,
    >)
        requires
            old(fs).wf(),
        ensures
            final(fs).wf(),
            final(fs).base() == old(fs).base(),
            final(self).path() == old(self).path(),
            final(self).key() == old(self).key(),
            final(fs)@ == encode_entry(old(fs)@, old(self).path(), key@, value@).tree,
            failure_of(r) == encode_entry(old(fs)@, old(self).path(), key@, value@).failure,
        decreases value, 1nat,
    {
        let name = match key.serialize_key(MapKeySerializer) {
            Ok(name) => name,
            Err(e) => {
                return Err(e);
            },
        };
        value.serialize(fs, FilesystemSerializer::new(self.path.join(name.as_str())))
    }

    /// Writes one field of a struct or variant: the value at the child named
    /// by the field.
    pub fn serialize_field(&mut self, fs: &mut FileTree, key: &str, value: &Value) -> (r: Result<
        (),
        Error,
    >)
        requires
            old(fs).wf(),
        ensures
            final(fs).wf(),
            final(fs).base() == old(fs).base(),
            final(self).path() == old(self).path(),
            final(self).key() == old(self).key(),
            final(fs)@ == encode(old(fs)@, old(self).path().push(key@), value@).tree,
            failure_of(r) == encode(old(fs)@, old(self).path().push(key@), value@).failure,
        decreases value, 1nat,
    {
        value.serialize(fs, FilesystemSerializer::new(self.path.join(key)))
    }

    /// Ends the map. Nothing is left to do: entries that an earlier map
    /// left in the directory stay.
    pub fn end(self) -> (r: Result<(), Error>)
        ensures
            r is Ok,
    {
        Ok(())
    }
}

/// Writes `items` as the elements of the sequence that `serializer` began.
fn write_items(
    fs: &mut FileTree,
    serializer: FilesystemSequenceSerializer,
    items: &Vec<Value>,
) -> (r: Result<(), Error>)
    requires
        old(fs).wf(),
        serializer.counter() == 0,
    ensures
        final(fs).wf(),
        final(fs).base() == old(fs).base(),
        final(fs)@ == encode_items(
            old(fs)@,
            serializer.path(),
            items_view(*items),
            items@.len(),
        ).tree,
        failure_of(r) == encode_items(
            old(fs)@,
            serializer.path(),
            items_view(*items),
            items@.len(),
        ).failure,
    decreases items, 0nat,
{
    let ghost t = fs@;
    let ghost p = serializer.path();
    let ghost views = items_view(*items);
    let mut writer = serializer;
    let mut i: usize = 0;
    while i < items.len()
        invariant
            i <= items.len(),
            fs.wf(),
            fs.base() == old(fs).base(),
            t == old(fs)@,
            p == serializer.path(),
            writer.path() == p,
            writer.counter() == i,
            views == items_view(*items),
            encode_items(t, p, views, i as nat) == done(fs@),
        decreases items.len() - i,
    {
        assert(views[i as int] == items@[i as int]@);
        match writer.do_serialize_element(fs, &items[i]) {
            Ok(()) => {},
            Err(e) => {
                proof {
                    lemma_items_stop(t, p, views, (i + 1) as nat, items@.len());
                }
                return Err(e);
            },
        }
        i = i + 1;
    }
    writer.do_end()
}

/// Writes `entries` as the entries of the map that `serializer` began.
fn write_entries(
    fs: &mut FileTree,
    serializer: FilesystemMapSerializer,
    entries: &Vec<(Value, Value)>,
) -> (r: Result<(), Error>)
    requires
        old(fs).wf(),
    ensures
        final(fs).wf(),
        final(fs).base() == old(fs).base(),
        final(fs)@ == encode_entries(
            old(fs)@,
            serializer.path(),
            entries_view(*entries),
            entries@.len(),
        ).tree,
        failure_of(r) == encode_entries(
            old(fs)@,
            serializer.path(),
            entries_view(*entries),
            entries@.len(),
        ).failure,
    decreases entries, 0nat,
{
    let ghost t = fs@;
    let ghost p = serializer.path();
    let ghost views = entries_view(*entries);
    let mut writer = serializer;
    let mut i: usize = 0;
    while i < entries.len()
        invariant
            i <= entries.len(),
            fs.wf(),
            fs.base() == old(fs).base(),
            t == old(fs)@,
            p == serializer.path(),
            writer.path() == p,
            views == entries_view(*entries),
            encode_entries(t, p, views, i as nat) == done(fs@),
        decreases entries.len() - i,
    {
        assert(views[i as int] == (entries@[i as int].0@, entries@[i as int].1@));
        match writer.serialize_entry(fs, &entries[i].0, &entries[i].1) {
            Ok(()) => {},
            Err(e) => {
                proof {
                    lemma_entries_stop(t, p, views, (i + 1) as nat, entries@.len());
                }
                return Err(e);
            },
        }
        i = i + 1;
    }
    writer.end()
}

/// Writes `fields` as the fields of the struct that `serializer` began.
fn write_fields(
    fs: &mut FileTree,
    serializer: FilesystemMapSerializer,
    fields: &Vec<(String, Value)>,
) -> (r: Result<(), Error>)
    requires
        old(fs).wf(),
    ensures
        final(fs).wf(),
        final(fs).base() == old(fs).base(),
        final(fs)@ == encode_fields(
            old(fs)@,
            serializer.path(),
            fields_view(*fields),
            fields@.len(),
        ).tree,
        failure_of(r) == encode_fields(
            old(fs)@,
            serializer.path(),
            fields_view(*fields),
            fields@.len(),
        ).failure,
    decreases fields, 0nat,
{
    let ghost t = fs@;
    let ghost p = serializer.path();
    let ghost views = fields_view(*fields);
    let mut writer = serializer;
    let mut i: usize = 0;
    while i < fields.len()
        invariant
            i <= fields.len(),
            fs.wf(),
            fs.base() == old(fs).base(),
            t == old(fs)@,
            p == serializer.path(),
            writer.path() == p,
            views == fields_view(*fields),
            encode_fields(t, p, views, i as nat) == done(fs@),
        decreases fields.len() - i,
    {
        assert(views[i as int] == (fields@[i as int].0@, fields@[i as int].1@));
        match writer.serialize_field(fs, fields[i].0.as_str(), &fields[i].1) {
            Ok(()) => {},
            Err(e) => {
                proof {
                    lemma_fields_stop(t, p, views, (i + 1) as nat, fields@.len());
                }
                return Err(e);
            },
        }
        i = i + 1;
    }
    writer.end()
}

impl Value {
    /// Writes the value into the tree at the path of `serializer`.
    pub fn serialize(&self, fs: &mut FileTree, serializer: FilesystemSerializer) -> (r: Result<
        (),
        Error,
    >)
        requires
            old(fs).wf(),
        ensures
            final(fs).wf(),
            final(fs).base() == old(fs).base(),
            final(fs)@ == encode(old(fs)@, serializer@, self@).tree,
            failure_of(r) == encode(old(fs)@, serializer@, self@).failure,
        decreases self, 0nat,
    {
        match self {
            Value::Bool(v) => serializer.serialize_bool(fs, *v),
            Value::I8(v) => serializer.serialize_i8(fs, *v),
            Value::I16(v) => serializer.serialize_i16(fs, *v),
            Value::I32(v) => serializer.serialize_i32(fs, *v),
            Value::I64(v) => serializer.serialize_i64(fs, *v),
            Value::U8(v) => serializer.serialize_u8(fs, *v),
            Value::U16(v) => serializer.serialize_u16(fs, *v),
            Value::U32(v) => serializer.serialize_u32(fs, *v),
            Value::U64(v) => serializer.serialize_u64(fs, *v),
            Value::Char(v) => serializer.serialize_char(fs, *v),
            Value::Text(v) => serializer.serialize_str(fs, v.as_str()),
            Value::Bytes(v) => serializer.serialize_bytes(fs, v.as_slice()),
            Value::Unit => serializer.serialize_unit(fs),
            Value::Absent => serializer.serialize_none(fs),
            Value::Present(inner) => serializer.serialize_some(fs, inner),
            Value::Newtype(inner) => serializer.serialize_newtype_struct(fs, "", inner),
            Value::Sequence(items) => {
                match serializer.serialize_seq(fs, Some(items.len())) {
                    Ok(s) => write_items(fs, s, items),
                    Err(e) => Err(e),
                }
            },
            Value::Tuple(items) => {
                match serializer.serialize_tuple(fs, items.len()) {
                    Ok(s) => write_items(fs, s, items),
                    Err(e) => Err(e),
                }
            },
            Value::Mapping(entries) => {
                match serializer.serialize_map(fs, Some(entries.len())) {
                    Ok(s) => write_entries(fs, s, entries),
                    Err(e) => Err(e),
                }
            },
            Value::Record(fields) => {
                match serializer.serialize_struct(fs, "", fields.len()) {
                    Ok(s) => write_fields(fs, s, fields),
                    Err(e) => Err(e),
                }
            },
            Value::UnitVariant(name) => serializer.serialize_unit_variant(fs, "", 0, name.as_str()),
            Value::NewtypeVariant(name, inner) => serializer.serialize_newtype_variant(
                fs,
                "",
                0,
                name.as_str(),
                inner,
            ),
            Value::TupleVariant(name, items) => {
                match serializer.serialize_tuple_variant(fs, "", 0, name.as_str(), items.len()) {
                    Ok(s) => write_items(fs, s, items),
                    Err(e) => Err(e),
                }
            },
            Value::StructVariant(name, fields) => {
                match serializer.serialize_struct_variant(fs, "", 0, name.as_str(), fields.len()) {
                    Ok(s) => write_fields(fs, s, fields),
                    Err(e) => Err(e),
                }
            },
        }
    }

    /// The name of the node for this value as the key of a map.
    pub fn serialize_key(&self, serializer: MapKeySerializer) -> (r: Result<String, Error>)
        ensures
            match key_text(self@) {
                Some(name) => r matches Ok(s) && s@ == name,
                None => r matches Err(e) && e@ == ErrorView::KeyMustBeAString,
            },
    {
        match self {
            Value::Bool(v) => serializer.serialize_bool(*v),
            Value::I8(v) => serializer.serialize_i8(*v),
            Value::I16(v) => serializer.serialize_i16(*v),
            Value::I32(v) => serializer.serialize_i32(*v),
            Value::I64(v) => serializer.serialize_i64(*v),
            Value::U8(v) => serializer.serialize_u8(*v),
            Value::U16(v) => serializer.serialize_u16(*v),
            Value::U32(v) => serializer.serialize_u32(*v),
            Value::U64(v) => serializer.serialize_u64(*v),
            Value::Char(v) => serializer.serialize_char(*v),
            Value::Text(v) => serializer.serialize_str(v.as_str()),
            Value::Bytes(v) => serializer.serialize_bytes(v.as_slice()),
            Value::Unit => serializer.serialize_unit(),
            Value::Absent => serializer.serialize_none(),
            Value::Present(inner) => serializer.serialize_some(inner),
            Value::Newtype(inner) => serializer.serialize_newtype_struct("", inner),
            Value::Sequence(items) => serializer.serialize_seq(Some(items.len())),
            Value::Tuple(items) => serializer.serialize_tuple(items.len()),
            Value::Mapping(entries) => serializer.serialize_map(Some(entries.len())),
            Value::Record(fields) => serializer.serialize_struct("", fields.len()),
            Value::UnitVariant(name) => serializer.serialize_unit_variant("", 0, name.as_str()),
            Value::NewtypeVariant(name, inner) => serializer.serialize_newtype_variant(
                "",
                0,
                name.as_str(),
                inner,
            ),
            Value::TupleVariant(name, items) => serializer.serialize_tuple_variant(
                "",
                0,
                name.as_str(),
                items.len(),
            ),
            Value::StructVariant(name, fields) => serializer.serialize_struct_variant(
                "",
                0,
                name.as_str(),
                fields.len(),
            ),
        }
    }
}

} // verus!
