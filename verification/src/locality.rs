//! What an encoding leaves at a path depends only on what the path held:
//! the proof, shape by shape.

use crate::laws::{
    apart, framed, lemma_encode_framed, lemma_entries_framed, lemma_fields_framed,
    lemma_items_framed, lemma_map_begun_framed, lemma_parent_prefix, lemma_put_framed,
    lemma_self_prefix, lemma_seq_begun_framed, lemma_seq_cleared_framed,
    lemma_variant_cleared_framed, lemma_with_dirs_framed, same_at,
};
use crate::path::{index_name, value_name, variant_name};
use crate::round_trip::{agrees_under, lemma_agrees_narrow};
use crate::ser::{
    encode, encode_entries, encode_entry, encode_fields, encode_items, key_text, map_begun,
    newtype_variant_begun, put, seq_begun, seq_cleared, struct_variant_begun,
    tuple_variant_begun, variant_cleared,
};
use crate::tree::{
    dirs_free, is_dir, is_file, lemma_ancestors_are_dirs, parent_dirs_free, well_formed, with_dirs,
    with_parent_dirs, without, NodeView, TreeView,
};
use crate::value::ValueView;
use vstd::prelude::*;

verus! {

/// Whether the directory that is to hold `p` exists. The directory that
/// holds the root lies outside the tree and is taken to exist.
pub open spec fn housed(t: TreeView, p: Seq<Seq<char>>) -> bool {
    p.len() > 0 ==> is_dir(t, p.drop_last())
}

/// In a well-formed tree nothing lies beneath what is no directory.
pub proof fn lemma_nothing_beneath(t: TreeView, p: Seq<Seq<char>>, q: Seq<Seq<char>>)
    requires
        well_formed(t),
        !is_dir(t, p),
        p.is_prefix_of(q),
        q != p,
    ensures
        !t.dom().contains(q),
{
    if t.dom().contains(q) {
        assert(q.len() > p.len()) by {
            if q.len() == p.len() {
                assert(q =~= p);
            }
        }
        lemma_ancestors_are_dirs(t, q);
        assert(q.take(p.len() as int) =~= p);
    }
}

/// Where the directory that holds `p` exists, no directory above `p` is
/// missing.
pub proof fn lemma_housed(t: TreeView, p: Seq<Seq<char>>)
    requires
        well_formed(t),
        housed(t, p),
    ensures
        parent_dirs_free(t, p),
        with_parent_dirs(t, p) == t,
        !is_file(t, p) ==> dirs_free(t, p),
        is_dir(t, p) ==> with_dirs(t, p) == t,
        !t.dom().contains(p) ==> with_dirs(t, p) == t.insert(p, NodeView::Dir),
{
    if p.len() > 0 {
        let parent = p.drop_last();
        lemma_ancestors_are_dirs(t, parent);
        assert forall|k: int| 0 <= k <= parent.len() implies !is_file(
            t,
            #[trigger] parent.take(k),
        ) by {
            if k == parent.len() {
                assert(parent.take(k) =~= parent);
            }
        }
        assert forall|q: Seq<Seq<char>>| q.is_prefix_of(parent) implies t.dom().contains(q) by {
            assert(q =~= parent.take(q.len() as int));
            if q.len() == parent.len() {
                assert(parent.take(q.len() as int) =~= parent);
            }
        }
        assert(with_dirs(t, parent) =~= t);
        assert forall|k: int| 0 <= k <= p.len() && !is_file(t, p) implies !is_file(
            t,
            #[trigger] p.take(k),
        ) by {
            if k == p.len() {
                assert(p.take(k) =~= p);
            } else {
                assert(p.take(k) =~= parent.take(k));
            }
        }
        assert forall|q: Seq<Seq<char>>| q.is_prefix_of(p) && q != p implies t.dom().contains(q) by {
            assert(q.len() < p.len()) by {
                if q.len() == p.len() {
                    assert(q =~= p.subrange(0, q.len() as int));
                    assert(p =~= p.subrange(0, p.len() as int));
                }
            }
            assert(q =~= p.subrange(0, q.len() as int));
            assert(q =~= parent.subrange(0, q.len() as int));
            assert(q.is_prefix_of(parent));
        }
    } else {
        assert forall|k: int| 0 <= k <= p.len() && !is_file(t, p) implies !is_file(
            t,
            #[trigger] p.take(k),
        ) by {
            assert(p.take(k) =~= p);
        }
        assert forall|q: Seq<Seq<char>>| q.is_prefix_of(p) implies q == p by {
            assert(q =~= p);
        }
    }
    lemma_self_prefix(p);
    if is_dir(t, p) {
        assert(with_dirs(t, p) =~= t);
    }
    if !t.dom().contains(p) {
        assert(with_dirs(t, p) =~= t.insert(p, NodeView::Dir));
    }
}

/// Where the directory that holds `p` exists, a leaf can be written at `p`,
/// and what it leaves at and under `p` is the file alone.
pub proof fn lemma_put_housed(t: TreeView, p: Seq<Seq<char>>, content: Seq<u8>)
    requires
        well_formed(t),
        housed(t, p),
    ensures
        put(t, p, content).failure is None,
        put(t, p, content).tree[p] == NodeView::File(content),
        forall|q: Seq<Seq<char>>|
            p.is_prefix_of(q) ==> (#[trigger] put(t, p, content).tree.dom().contains(q) <==> q == p),
        is_file(t, p) ==> put(t, p, content).tree == t.insert(p, NodeView::File(content)),
{
    lemma_housed(t, p);
    let cleared = if is_dir(t, p) {
        without(t, p)
    } else {
        t
    };
    crate::laws::lemma_without_framed(t, p);
    lemma_self_prefix(p);
    assert(housed(cleared, p)) by {
        if p.len() > 0 {
            assert(!p.is_prefix_of(p.drop_last()));
        }
    }
    lemma_housed(cleared, p);
    let after = put(t, p, content).tree;
    assert forall|q: Seq<Seq<char>>| p.is_prefix_of(q) implies (#[trigger] after.dom().contains(q)
        <==> q == p) by {
        if q != p && !is_dir(t, p) {
            lemma_nothing_beneath(t, p, q);
        }
    }
}

/// Trees that agree under `p` agree under `p` once `p` is cleared for a
/// sequence and made a directory.
pub proof fn lemma_seq_begun_local(a: TreeView, b: TreeView, p: Seq<Seq<char>>)
    requires
        well_formed(a),
        well_formed(b),
        housed(a, p),
        housed(b, p),
        agrees_under(a, b, p),
    ensures
        seq_begun(a, p).failure is None,
        seq_begun(b, p).failure is None,
        agrees_under(seq_begun(a, p).tree, seq_begun(b, p).tree, p),
        is_dir(a, p) ==> seq_begun(a, p).tree == crate::ser::without_indices(a, p),
{
    lemma_self_prefix(p);
    assert(same_at(a, b, p));
    lemma_seq_cleared_framed(a, p);
    lemma_seq_cleared_framed(b, p);
    let ca = seq_cleared(a, p);
    let cb = seq_cleared(b, p);
    lemma_cleared_housed(a, ca, p);
    lemma_cleared_housed(b, cb, p);
    lemma_housed(ca, p);
    lemma_housed(cb, p);
    assert forall|q: Seq<Seq<char>>| p.is_prefix_of(q) implies #[trigger] same_at(
        with_dirs(ca, p),
        with_dirs(cb, p),
        q,
    ) by {
        assert(same_at(a, b, q));
        if q != p {
            assert(!q.is_prefix_of(p)) by {
                if q.is_prefix_of(p) {
                    assert(q.len() == p.len());
                    assert(q =~= p.subrange(0, q.len() as int));
                    assert(p =~= p.subrange(0, p.len() as int));
                }
            }
            if !is_dir(a, p) {
                lemma_nothing_beneath(ca, p, q);
                lemma_nothing_beneath(cb, p, q);
            }
        }
    }
}

/// What is framed by `p` leaves the directory that holds `p`.
pub proof fn lemma_cleared_housed(before: TreeView, after: TreeView, p: Seq<Seq<char>>)
    requires
        housed(before, p),
        framed(before, after, p),
    ensures
        housed(after, p),
{
    if p.len() > 0 {
        let parent = p.drop_last();
        assert(parent.is_prefix_of(p)) by {
            assert(parent =~= p.subrange(0, parent.len() as int));
        }
        assert(is_dir(after, parent));
    }
}

/// Trees that agree under `p` agree under `p` once `p` is made a directory
/// for a map.
pub proof fn lemma_map_begun_local(a: TreeView, b: TreeView, p: Seq<Seq<char>>)
    requires
        well_formed(a),
        well_formed(b),
        housed(a, p),
        housed(b, p),
        agrees_under(a, b, p),
    ensures
        map_begun(a, p).failure is None,
        map_begun(b, p).failure is None,
        agrees_under(map_begun(a, p).tree, map_begun(b, p).tree, p),
{
    lemma_self_prefix(p);
    assert(same_at(a, b, p));
    let ca = if is_file(a, p) {
        a.remove(p)
    } else {
        a
    };
    let cb = if is_file(b, p) {
        b.remove(p)
    } else {
        b
    };
    if is_file(a, p) {
        crate::laws::lemma_remove_file_well_formed(a, p);
        crate::laws::lemma_remove_file_well_formed(b, p);
        lemma_cleared_housed(a, ca, p);
        lemma_cleared_housed(b, cb, p);
    }
    lemma_housed(ca, p);
    lemma_housed(cb, p);
    assert forall|q: Seq<Seq<char>>| p.is_prefix_of(q) implies #[trigger] same_at(
        with_dirs(ca, p),
        with_dirs(cb, p),
        q,
    ) by {
        assert(same_at(a, b, q));
        if q != p {
            assert(!q.is_prefix_of(p)) by {
                if q.is_prefix_of(p) {
                    assert(q.len() == p.len());
                    assert(q =~= p.subrange(0, q.len() as int));
                    assert(p =~= p.subrange(0, p.len() as int));
                }
            }
        }
    }
}

/// Trees that agree under the directory `p` still do after a change to each
/// that is framed by one child of `p`, if they agree under that child.
pub proof fn lemma_agrees_combine(
    a1: TreeView,
    a2: TreeView,
    b1: TreeView,
    b2: TreeView,
    p: Seq<Seq<char>>,
    name: Seq<char>,
)
    requires
        agrees_under(a1, a2, p),
        is_dir(a1, p),
        is_dir(a2, p),
        framed(a1, b1, p.push(name)),
        framed(a2, b2, p.push(name)),
        agrees_under(b1, b2, p.push(name)),
    ensures
        agrees_under(b1, b2, p),
        is_dir(b1, p),
        is_dir(b2, p),
{
    let c = p.push(name);
    lemma_parent_prefix(p, name);
    assert(is_dir(b1, p));
    assert(is_dir(b2, p));
    assert forall|q: Seq<Seq<char>>| p.is_prefix_of(q) implies #[trigger] same_at(b1, b2, q) by {
        if c.is_prefix_of(q) {
        } else if q == p {
        } else {
            assert(q.len() > p.len()) by {
                if q.len() == p.len() {
                    assert(q =~= p);
                }
            }
            if q.is_prefix_of(c) {
                assert(q =~= c.subrange(0, q.len() as int));
                assert(q =~= c);
                lemma_self_prefix(c);
            }
            assert(apart(c, q));
            assert(same_at(a1, a2, q));
            assert(same_at(a1, b1, q));
            assert(same_at(a2, b2, q));
        }
    }
}

/// Writing the same leaf into a child of the directory `p` keeps trees in
/// agreement under `p`.
pub proof fn lemma_put_child_local(
    a: TreeView,
    b: TreeView,
    p: Seq<Seq<char>>,
    name: Seq<char>,
    content: Seq<u8>,
)
    requires
        well_formed(a),
        well_formed(b),
        is_dir(a, p),
        is_dir(b, p),
        agrees_under(a, b, p),
    ensures
        put(a, p.push(name), content).failure is None,
        put(b, p.push(name), content).failure is None,
        agrees_under(put(a, p.push(name), content).tree, put(b, p.push(name), content).tree, p),
        is_dir(put(a, p.push(name), content).tree, p),
        is_dir(put(b, p.push(name), content).tree, p),
        well_formed(put(a, p.push(name), content).tree),
        well_formed(put(b, p.push(name), content).tree),
{
    let c = p.push(name);
    lemma_parent_prefix(p, name);
    lemma_put_housed(a, c, content);
    lemma_put_housed(b, c, content);
    lemma_put_framed(a, c, content);
    lemma_put_framed(b, c, content);
    let ra = put(a, c, content).tree;
    let rb = put(b, c, content).tree;
    assert forall|q: Seq<Seq<char>>| c.is_prefix_of(q) implies #[trigger] same_at(ra, rb, q) by {
        assert(ra.dom().contains(q) <==> q == c);
        assert(rb.dom().contains(q) <==> q == c);
    }
    lemma_agrees_combine(a, b, ra, rb, p, name);
}

/// Trees that agree under `p` agree under `p` once `p` is made ready for a
/// newtype variant.
pub proof fn lemma_newtype_variant_begun_local(
    a: TreeView,
    b: TreeView,
    p: Seq<Seq<char>>,
    name: Seq<char>,
)
    requires
        well_formed(a),
        well_formed(b),
        housed(a, p),
        housed(b, p),
        agrees_under(a, b, p),
    ensures
        newtype_variant_begun(a, p, name).failure is None,
        newtype_variant_begun(b, p, name).failure is None,
        agrees_under(newtype_variant_begun(a, p, name).tree, newtype_variant_begun(b, p, name).tree, p),
{
    lemma_self_prefix(p);
    assert(same_at(a, b, p));
    let marker = p.push(variant_name());
    let payload = p.push(value_name());
    lemma_parent_prefix(p, variant_name());
    lemma_parent_prefix(p, value_name());
    assert(same_at(a, b, marker));
    lemma_variant_cleared_framed(a, p);
    lemma_variant_cleared_framed(b, p);
    let ca = variant_cleared(a, p);
    let cb = variant_cleared(b, p);
    lemma_cleared_housed(a, ca, p);
    lemma_cleared_housed(b, cb, p);
    lemma_housed(ca, p);
    lemma_housed(cb, p);
    let da = with_dirs(ca, p);
    let db = with_dirs(cb, p);
    lemma_with_dirs_framed(ca, p);
    lemma_with_dirs_framed(cb, p);
    assert forall|q: Seq<Seq<char>>| p.is_prefix_of(q) implies #[trigger] same_at(da, db, q) by {
        assert(same_at(a, b, q));
        if q != p {
            assert(!q.is_prefix_of(p)) by {
                if q.is_prefix_of(p) {
                    assert(q.len() == p.len());
                    assert(q =~= p.subrange(0, q.len() as int));
                    assert(p =~= p.subrange(0, p.len() as int));
                }
            }
            if !is_dir(a, p) {
                lemma_nothing_beneath(ca, p, q);
                lemma_nothing_beneath(cb, p, q);
            }
        }
    }
    lemma_put_child_local(da, db, p, variant_name(), vstd::utf8::encode_utf8(name));
}

/// Trees that agree under `p` agree under `p` once `p` is made ready for a
/// tuple variant.
pub proof fn lemma_tuple_variant_begun_local(
    a: TreeView,
    b: TreeView,
    p: Seq<Seq<char>>,
    name: Seq<char>,
)
    requires
        well_formed(a),
        well_formed(b),
        housed(a, p),
        housed(b, p),
        agrees_under(a, b, p),
    ensures
        tuple_variant_begun(a, p, name).failure is None,
        tuple_variant_begun(b, p, name).failure is None,
        agrees_under(tuple_variant_begun(a, p, name).tree, tuple_variant_begun(b, p, name).tree, p),
{
    lemma_seq_begun_local(a, b, p);
    lemma_seq_begun_framed(a, p);
    lemma_seq_begun_framed(b, p);
    lemma_put_child_local(
        seq_begun(a, p).tree,
        seq_begun(b, p).tree,
        p,
        variant_name(),
        vstd::utf8::encode_utf8(name),
    );
}

/// Trees that agree under `p` agree under `p` once `p` is made ready for a
/// struct variant.
pub proof fn lemma_struct_variant_begun_local(
    a: TreeView,
    b: TreeView,
    p: Seq<Seq<char>>,
    name: Seq<char>,
)
    requires
        well_formed(a),
        well_formed(b),
        housed(a, p),
        housed(b, p),
        agrees_under(a, b, p),
    ensures
        struct_variant_begun(a, p, name).failure is None,
        struct_variant_begun(b, p, name).failure is None,
        agrees_under(struct_variant_begun(a, p, name).tree, struct_variant_begun(b, p, name).tree, p),
{
    lemma_map_begun_local(a, b, p);
    lemma_map_begun_framed(a, p);
    lemma_map_begun_framed(b, p);
    lemma_put_child_local(
        map_begun(a, p).tree,
        map_begun(b, p).tree,
        p,
        variant_name(),
        vstd::utf8::encode_utf8(name),
    );
}

/// Locality: what the encoding of a value leaves at and under `p`, and
/// whether it succeeds, depends only on what the tree held at and under
/// `p`, where the directory that holds `p` exists.
pub proof fn lemma_encode_local(a: TreeView, b: TreeView, p: Seq<Seq<char>>, v: ValueView)
    requires
        well_formed(a),
        well_formed(b),
        housed(a, p),
        housed(b, p),
        agrees_under(a, b, p),
    ensures
        encode(a, p, v).failure == encode(b, p, v).failure,
        agrees_under(encode(a, p, v).tree, encode(b, p, v).tree, p),
    decreases v, 0nat,
{
    match v {
        ValueView::Bool(x) => {
            lemma_leaf_local(a, b, p, vstd::utf8::encode_utf8(crate::text::bool_text(x)));
        },
        ValueView::Int(_, n) => {
            lemma_leaf_local(a, b, p, vstd::utf8::encode_utf8(crate::text::decimal_text(n)));
        },
        ValueView::Char(c) => {
            lemma_leaf_local(a, b, p, vstd::utf8::encode_utf8(seq![c]));
        },
        ValueView::Text(s) => {
            lemma_leaf_local(a, b, p, vstd::utf8::encode_utf8(s));
        },
        ValueView::Bytes(x) => {
            lemma_leaf_local(a, b, p, x);
        },
        ValueView::Unit => {
            lemma_leaf_local(a, b, p, Seq::empty());
        },
        ValueView::Absent => {
            assert forall|q: Seq<Seq<char>>| p.is_prefix_of(q) implies #[trigger] same_at(
                without(a, p),
                without(b, p),
                q,
            ) by {}
        },
        ValueView::Present(inner) => {
            lemma_encode_local(a, b, p, *inner);
        },
        ValueView::Newtype(inner) => {
            lemma_encode_local(a, b, p, *inner);
        },
        ValueView::Sequence(items) => {
            lemma_seq_begun_local(a, b, p);
            lemma_seq_begun_framed(a, p);
            lemma_seq_begun_framed(b, p);
            lemma_items_local(seq_begun(a, p).tree, seq_begun(b, p).tree, p, items, items.len());
        },
        ValueView::Tuple(items) => {
            lemma_seq_begun_local(a, b, p);
            lemma_seq_begun_framed(a, p);
            lemma_seq_begun_framed(b, p);
            lemma_items_local(seq_begun(a, p).tree, seq_begun(b, p).tree, p, items, items.len());
        },
        ValueView::Mapping(entries) => {
            lemma_map_begun_local(a, b, p);
            lemma_map_begun_framed(a, p);
            lemma_map_begun_framed(b, p);
            lemma_entries_local(
                map_begun(a, p).tree,
                map_begun(b, p).tree,
                p,
                entries,
                entries.len(),
            );
        },
        ValueView::Record(fields) => {
            lemma_map_begun_local(a, b, p);
            lemma_map_begun_framed(a, p);
            lemma_map_begun_framed(b, p);
            lemma_fields_local(map_begun(a, p).tree, map_begun(b, p).tree, p, fields, fields.len());
        },
        ValueView::UnitVariant(name) => {
            lemma_leaf_local(a, b, p, vstd::utf8::encode_utf8(name));
        },
        ValueView::NewtypeVariant(name, inner) => {
            lemma_newtype_variant_begun_local(a, b, p, name);
            crate::laws::lemma_newtype_variant_begun_framed(a, p, name);
            crate::laws::lemma_newtype_variant_begun_framed(b, p, name);
            let ba = newtype_variant_begun(a, p, name).tree;
            let bb = newtype_variant_begun(b, p, name).tree;
            let payload = p.push(value_name());
            lemma_parent_prefix(p, value_name());
            lemma_agrees_narrow(ba, bb, p, value_name());
            lemma_encode_local(ba, bb, payload, *inner);
            lemma_encode_framed(ba, payload, *inner);
            lemma_encode_framed(bb, payload, *inner);
            lemma_agrees_combine(
                ba,
                bb,
                encode(ba, payload, *inner).tree,
                encode(bb, payload, *inner).tree,
                p,
                value_name(),
            );
        },
        ValueView::TupleVariant(name, items) => {
            lemma_tuple_variant_begun_local(a, b, p, name);
            crate::laws::lemma_tuple_variant_begun_framed(a, p, name);
            crate::laws::lemma_tuple_variant_begun_framed(b, p, name);
            lemma_items_local(
                tuple_variant_begun(a, p, name).tree,
                tuple_variant_begun(b, p, name).tree,
                p,
                items,
                items.len(),
            );
        },
        ValueView::StructVariant(name, fields) => {
            lemma_struct_variant_begun_local(a, b, p, name);
            crate::laws::lemma_struct_variant_begun_framed(a, p, name);
            crate::laws::lemma_struct_variant_begun_framed(b, p, name);
            lemma_fields_local(
                struct_variant_begun(a, p, name).tree,
                struct_variant_begun(b, p, name).tree,
                p,
                fields,
                fields.len(),
            );
        },
    }
}

/// What the writing of a leaf leaves at and under `p` is the same for every
/// tree in which the directory that holds `p` exists.
pub proof fn lemma_leaf_local(a: TreeView, b: TreeView, p: Seq<Seq<char>>, content: Seq<u8>)
    requires
        well_formed(a),
        well_formed(b),
        housed(a, p),
        housed(b, p),
    ensures
        put(a, p, content).failure is None,
        put(b, p, content).failure is None,
        agrees_under(put(a, p, content).tree, put(b, p, content).tree, p),
{
    lemma_put_housed(a, p, content);
    lemma_put_housed(b, p, content);
    let ra = put(a, p, content).tree;
    let rb = put(b, p, content).tree;
    assert forall|q: Seq<Seq<char>>| p.is_prefix_of(q) implies #[trigger] same_at(ra, rb, q) by {
        assert(ra.dom().contains(q) <==> q == p);
        assert(rb.dom().contains(q) <==> q == p);
    }
}

/// The elements written into the directory `p` leave the same under `p`
/// in trees that agreed under `p`.
pub proof fn lemma_items_local(
    a: TreeView,
    b: TreeView,
    p: Seq<Seq<char>>,
    items: Seq<ValueView>,
    n: nat,
)
    requires
        well_formed(a),
        well_formed(b),
        is_dir(a, p),
        is_dir(b, p),
        agrees_under(a, b, p),
    ensures
        encode_items(a, p, items, n).failure == encode_items(b, p, items, n).failure,
        agrees_under(encode_items(a, p, items, n).tree, encode_items(b, p, items, n).tree, p),
    decreases items, n,
{
    if n == 0 || n > items.len() {
    } else {
        lemma_items_local(a, b, p, items, (n - 1) as nat);
        lemma_items_framed(a, p, items, (n - 1) as nat);
        lemma_items_framed(b, p, items, (n - 1) as nat);
        let ea = encode_items(a, p, items, (n - 1) as nat);
        let eb = encode_items(b, p, items, (n - 1) as nat);
        if ea.failure is None {
            let name = index_name((n - 1) as nat);
            let child = p.push(name);
            lemma_parent_prefix(p, name);
            lemma_agrees_narrow(ea.tree, eb.tree, p, name);
            lemma_encode_local(ea.tree, eb.tree, child, items[n - 1]);
            lemma_encode_framed(ea.tree, child, items[n - 1]);
            lemma_encode_framed(eb.tree, child, items[n - 1]);
            lemma_agrees_combine(
                ea.tree,
                eb.tree,
                encode(ea.tree, child, items[n - 1]).tree,
                encode(eb.tree, child, items[n - 1]).tree,
                p,
                name,
            );
        }
    }
}

/// The entries written into the directory `p` leave the same under `p` in
/// trees that agreed under `p`.
pub proof fn lemma_entries_local(
    a: TreeView,
    b: TreeView,
    p: Seq<Seq<char>>,
    entries: Seq<(ValueView, ValueView)>,
    n: nat,
)
    requires
        well_formed(a),
        well_formed(b),
        is_dir(a, p),
        is_dir(b, p),
        agrees_under(a, b, p),
    ensures
        encode_entries(a, p, entries, n).failure == encode_entries(b, p, entries, n).failure,
        agrees_under(encode_entries(a, p, entries, n).tree, encode_entries(b, p, entries, n).tree, p),
    decreases entries, n,
{
    if n == 0 || n > entries.len() {
    } else {
        lemma_entries_local(a, b, p, entries, (n - 1) as nat);
        lemma_entries_framed(a, p, entries, (n - 1) as nat);
        lemma_entries_framed(b, p, entries, (n - 1) as nat);
        let ea = encode_entries(a, p, entries, (n - 1) as nat);
        let eb = encode_entries(b, p, entries, (n - 1) as nat);
        if ea.failure is None {
            let sa = encode_entry(ea.tree, p, entries[n - 1].0, entries[n - 1].1);
            let sb = encode_entry(eb.tree, p, entries[n - 1].0, entries[n - 1].1);
            assert(encode_entries(a, p, entries, n) == sa);
            assert(encode_entries(b, p, entries, n) == sb);
            match key_text(entries[n - 1].0) {
                Some(name) => {
                    let child = p.push(name);
                    lemma_parent_prefix(p, name);
                    lemma_agrees_narrow(ea.tree, eb.tree, p, name);
                    lemma_encode_local(ea.tree, eb.tree, child, entries[n - 1].1);
                    lemma_encode_framed(ea.tree, child, entries[n - 1].1);
                    lemma_encode_framed(eb.tree, child, entries[n - 1].1);
                    assert(sa == encode(ea.tree, child, entries[n - 1].1));
                    assert(sb == encode(eb.tree, child, entries[n - 1].1));
                    lemma_agrees_combine(ea.tree, eb.tree, sa.tree, sb.tree, p, name);
                },
                None => {
                    assert(sa.tree == ea.tree);
                    assert(sb.tree == eb.tree);
                },
            }
        }
    }
}

/// The fields written into the directory `p` leave the same under `p` in
/// trees that agreed under `p`.
pub proof fn lemma_fields_local(
    a: TreeView,
    b: TreeView,
    p: Seq<Seq<char>>,
    fields: Seq<(Seq<char>, ValueView)>,
    n: nat,
)
    requires
        well_formed(a),
        well_formed(b),
        is_dir(a, p),
        is_dir(b, p),
        agrees_under(a, b, p),
    ensures
        encode_fields(a, p, fields, n).failure == encode_fields(b, p, fields, n).failure,
        agrees_under(encode_fields(a, p, fields, n).tree, encode_fields(b, p, fields, n).tree, p),
    decreases fields, n,
{
    if n == 0 || n > fields.len() {
    } else {
        lemma_fields_local(a, b, p, fields, (n - 1) as nat);
        lemma_fields_framed(a, p, fields, (n - 1) as nat);
        lemma_fields_framed(b, p, fields, (n - 1) as nat);
        let ea = encode_fields(a, p, fields, (n - 1) as nat);
        let eb = encode_fields(b, p, fields, (n - 1) as nat);
        if ea.failure is None {
            let name = fields[n - 1].0;
            let child = p.push(name);
            lemma_parent_prefix(p, name);
            lemma_agrees_narrow(ea.tree, eb.tree, p, name);
            lemma_encode_local(ea.tree, eb.tree, child, fields[n - 1].1);
            lemma_encode_framed(ea.tree, child, fields[n - 1].1);
            lemma_encode_framed(eb.tree, child, fields[n - 1].1);
            lemma_agrees_combine(
                ea.tree,
                eb.tree,
                encode(ea.tree, child, fields[n - 1].1).tree,
                encode(eb.tree, child, fields[n - 1].1).tree,
                p,
                name,
            );
        }
    }
}

} // verus!
