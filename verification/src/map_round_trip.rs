//! A map that was written into an empty place is read back, entry for
//! entry, in the order in which the directory lists its nodes.

use crate::de::{decode, decode_entries};
use crate::idempotence::distinct_keys;
use crate::laws::{
    apart, lemma_children_apart, lemma_entries_framed, lemma_entries_succeed,
    lemma_entries_untouched, lemma_map_begun_framed, lemma_parent_prefix, lemma_self_prefix,
    same_at,
};
use crate::round_trip::{agrees_under, conforms, lemma_round_trip, lemma_solid_present, solid};
use crate::ser::{encode, encode_entries, encode_entry, key_text, map_begun};
use crate::tree::{is_dir, lemma_pigeonhole, well_formed, FileTree, TreeView};
use crate::value::{ShapeView, ValueView};
use vstd::prelude::*;

verus! {

/// The place among `entries` of the entry whose key is the text `name`.
pub open spec fn entry_of(entries: Seq<(ValueView, ValueView)>, name: Seq<char>) -> int {
    choose|i: int| 0 <= i < entries.len() && key_text(#[trigger] entries[i].0) == Some(name)
}

/// Whether the text `name` is the key of one of `entries`.
pub open spec fn is_key(entries: Seq<(ValueView, ValueView)>, name: Seq<char>) -> bool {
    exists|i: int| 0 <= i < entries.len() && key_text(#[trigger] entries[i].0) == Some(name)
}

/// What the tree holds under the key of entry `i` is what the writing of
/// entry `i` left there: the entries after it have other keys.
pub proof fn lemma_entry_agrees(
    a: TreeView,
    b: TreeView,
    p: Seq<Seq<char>>,
    entries: Seq<(ValueView, ValueView)>,
    i: nat,
)
    requires
        well_formed(b),
        i < entries.len(),
        distinct_keys(entries),
        encode_entries(b, p, entries, entries.len()).failure is None,
        agrees_under(a, encode_entries(b, p, entries, entries.len()).tree, p),
    ensures
        key_text(entries[i as int].0) is Some,
        encode_entries(b, p, entries, i + 1) == encode(
            encode_entries(b, p, entries, i).tree,
            p.push(key_text(entries[i as int].0)->Some_0),
            entries[i as int].1,
        ),
        encode_entries(b, p, entries, i + 1).failure is None,
        well_formed(encode_entries(b, p, entries, i).tree),
        agrees_under(
            a,
            encode_entries(b, p, entries, i + 1).tree,
            p.push(key_text(entries[i as int].0)->Some_0),
        ),
{
    let n = entries.len();
    let before = encode_entries(b, p, entries, i);
    lemma_entries_framed(b, p, entries, i);
    lemma_entries_succeed(b, p, entries, i, n);
    lemma_entries_succeed(b, p, entries, i + 1, n);
    let step = encode_entry(before.tree, p, entries[i as int].0, entries[i as int].1);
    assert(encode_entries(b, p, entries, i + 1) == step);
    let name = key_text(entries[i as int].0)->Some_0;
    let child = p.push(name);
    assert(step == encode(before.tree, child, entries[i as int].1));
    assert forall|q: Seq<Seq<char>>| child.is_prefix_of(q) implies #[trigger] same_at(
        a,
        step.tree,
        q,
    ) by {
        crate::tree::lemma_prefix_push(p, name, q);
        assert(same_at(a, encode_entries(b, p, entries, n).tree, q));
        assert forall|j: int| i + 1 <= j < n implies (key_text(
            (#[trigger] entries[j]).0,
        ) matches Some(other) ==> apart(p.push(other), q)) by {
            if key_text(entries[j].0) is Some {
                let other = key_text(entries[j].0)->Some_0;
                assert(key_text(entries[j].0) != key_text(entries[i as int].0));
                lemma_children_apart(p, other, name, q);
            }
        }
        lemma_entries_untouched(b, p, entries, i + 1, n, q);
    }
}

/// After the entries were written into a directory without nodes, the
/// nodes of the directory are named by the keys, and by nothing else.
pub proof fn lemma_children_are_keys(
    b: TreeView,
    p: Seq<Seq<char>>,
    entries: Seq<(ValueView, ValueView)>,
    name: Seq<char>,
)
    requires
        well_formed(b),
        forall|other: Seq<char>| !b.dom().contains(#[trigger] p.push(other)),
        distinct_keys(entries),
        forall|i: int| 0 <= i < entries.len() ==> solid((#[trigger] entries[i]).1),
        encode_entries(b, p, entries, entries.len()).failure is None,
    ensures
        encode_entries(b, p, entries, entries.len()).tree.dom().contains(p.push(name)) <==> is_key(
            entries,
            name,
        ),
{
    let n = entries.len();
    let last = encode_entries(b, p, entries, n).tree;
    let child = p.push(name);
    lemma_self_prefix(child);
    if is_key(entries, name) {
        let i = entry_of(entries, name);
        assert forall|q: Seq<Seq<char>>| p.is_prefix_of(q) implies #[trigger] same_at(
            last,
            last,
            q,
        ) by {}
        lemma_entry_agrees(last, b, p, entries, i as nat);
        lemma_solid_present(encode_entries(b, p, entries, i as nat).tree, child, entries[i].1);
        assert(same_at(last, encode_entries(b, p, entries, (i + 1) as nat).tree, child));
    } else {
        assert forall|j: int| 0 <= j < n implies (key_text(
            (#[trigger] entries[j]).0,
        ) matches Some(other) ==> apart(p.push(other), child)) by {
            if key_text(entries[j].0) is Some {
                let other = key_text(entries[j].0)->Some_0;
                lemma_children_apart(p, other, name, child);
            }
        }
        lemma_entries_untouched(b, p, entries, 0, n, child);
    }
}

/// The first `m` entries that the directory lists are read back as the
/// entries that were written under their keys.
pub proof fn lemma_entries_read(
    fs: FileTree,
    b: TreeView,
    p: Seq<Seq<char>>,
    entries: Seq<(ValueView, ValueView)>,
    shape: ShapeView,
    names: Seq<Seq<char>>,
    m: nat,
)
    requires
        well_formed(b),
        distinct_keys(entries),
        forall|i: int| 0 <= i < entries.len() ==> conforms((#[trigger] entries[i]).1, shape),
        encode_entries(b, p, entries, entries.len()).failure is None,
        agrees_under(fs@, encode_entries(b, p, entries, entries.len()).tree, p),
        forall|j: int| 0 <= j < names.len() ==> is_key(entries, #[trigger] names[j]),
        m <= names.len(),
    ensures
        decode_entries(fs, p, names, shape, m) matches Ok(found) && found.len() == m && (forall|
            j: int,
        |
            0 <= j < m ==> #[trigger] found[j] == entries[entry_of(entries, names[j])]),
    decreases m,
{
    if m > 0 {
        lemma_entries_read(fs, b, p, entries, shape, names, (m - 1) as nat);
        let name = names[m - 1];
        assert(is_key(entries, name));
        let i = entry_of(entries, name);
        lemma_entry_agrees(fs@, b, p, entries, i as nat);
        lemma_round_trip(
            fs,
            encode_entries(b, p, entries, i as nat).tree,
            p.push(name),
            entries[i].1,
            shape,
        );
        assert(entries[i].0 == ValueView::Text(name));
    }
}

/// Round trip of a map: after a map with distinct keys was encoded at a
/// path that held nothing, decoding at that path gives a map with the same
/// entries, in the order in which the directory lists them.
pub proof fn law_map_round_trip(
    fs: FileTree,
    t: TreeView,
    p: Seq<Seq<char>>,
    entries: Seq<(ValueView, ValueView)>,
    shape: ShapeView,
)
    requires
        fs.wf(),
        well_formed(t),
        !t.dom().contains(p),
        encode(t, p, ValueView::Mapping(entries)).failure is None,
        distinct_keys(entries),
        forall|i: int|
            0 <= i < entries.len() ==> solid((#[trigger] entries[i]).1) && conforms(
                entries[i].1,
                shape,
            ),
        fs@ == encode(t, p, ValueView::Mapping(entries)).tree,
    ensures
        decode(fs, p, ShapeView::Mapping(Box::new(shape))) matches Ok(ValueView::Mapping(found))
            && found.len() == entries.len() && (forall|i: int|
            0 <= i < entries.len() ==> found.contains(#[trigger] entries[i])),
{
    let n = entries.len();
    lemma_map_begun_framed(t, p);
    let b = map_begun(t, p).tree;
    let last = encode_entries(b, p, entries, n).tree;
    lemma_entries_framed(b, p, entries, n);
    assert forall|other: Seq<char>| !b.dom().contains(#[trigger] p.push(other)) by {
        let child = p.push(other);
        lemma_parent_prefix(p, other);
        if crate::tree::is_file(t, p) {
        } else {
            if child.is_prefix_of(p) {
            }
            if t.dom().contains(child) {
                assert(is_dir(t, child.drop_last()));
            }
        }
    }
    assert forall|q: Seq<Seq<char>>| p.is_prefix_of(q) implies #[trigger] same_at(fs@, last, q) by {}
    let names = fs.listing(p);
    fs.lemma_listing(p);
    assert forall|name: Seq<char>| names.contains(name) <==> is_key(entries, name) by {
        lemma_children_are_keys(b, p, entries, name);
    }
    assert forall|j: int| 0 <= j < names.len() implies is_key(entries, #[trigger] names[j]) by {
        assert(names.contains(names[j]));
    }
    lemma_entries_read(fs, b, p, entries, shape, names, names.len());
    let found = decode_entries(fs, p, names, shape, names.len())->Ok_0;
    // Every entry has its place in the listing, and no two share one.
    let place = |i: nat| names.index_of(key_text(entries[i as int].0)->Some_0);
    assert forall|i: int| 0 <= i < n implies key_text((#[trigger] entries[i]).0) is Some
        && names.contains(key_text(entries[i].0)->Some_0) by {
        assert forall|q: Seq<Seq<char>>| p.is_prefix_of(q) implies #[trigger] same_at(
            last,
            last,
            q,
        ) by {}
        lemma_entry_agrees(last, b, p, entries, i as nat);
        let name = key_text(entries[i].0)->Some_0;
        assert(key_text(entries[i].0) == Some(name));
        assert(is_key(entries, name));
    }
    assert forall|i: nat| i < n implies 0 <= #[trigger] place(i) < names.len() by {
        assert(names.contains(key_text(entries[i as int].0)->Some_0));
    }
    assert forall|x: nat, y: nat| x < n && y < n && x != y implies #[trigger] place(x)
        != #[trigger] place(y) by {
        assert(names.contains(key_text(entries[x as int].0)->Some_0));
        assert(names.contains(key_text(entries[y as int].0)->Some_0));
        assert(key_text(entries[x as int].0) != key_text(entries[y as int].0));
    }
    lemma_pigeonhole(place, n, names.len());
    let key_place = |j: nat| entry_of(entries, names[j as int]);
    assert forall|j: nat| j < names.len() implies 0 <= #[trigger] key_place(j) < n by {
        assert(is_key(entries, names[j as int]));
    }
    assert forall|x: nat, y: nat|
        x < names.len() && y < names.len() && x != y implies #[trigger] key_place(x)
        != #[trigger] key_place(y) by {
        assert(is_key(entries, names[x as int]));
        assert(is_key(entries, names[y as int]));
        assert(names[x as int] != names[y as int]);
    }
    lemma_pigeonhole(key_place, names.len(), n);
    assert forall|i: int| 0 <= i < n implies found.contains(#[trigger] entries[i]) by {
        let name = key_text(entries[i].0)->Some_0;
        assert(names.contains(name));
        let j = names.index_of(name);
        assert(is_key(entries, name));
        let back = entry_of(entries, name);
        assert(back == i) by {
            if back != i {
                assert(key_text(entries[back].0) != key_text(entries[i].0));
            }
        }
        assert(found[j] == entries[i]);
    }
}

} // verus!
