//! What holds of the codec as a whole: what an encoding leaves alone, and
//! that a value that was written is read back.

use crate::path::{index_name, value_name, variant_name};
use crate::ser::{
    encode, encode_entries, encode_entry, encode_fields, encode_items, file_writable, key_text,
    map_begun, newtype_variant_begun, put, seq_begun, seq_cleared, struct_variant_begun,
    tuple_variant_begun, under_index, variant_cleared,
};
use crate::tree::{
    dirs_free, is_dir, is_file, lemma_ancestors_are_dirs, lemma_prefix_of_parent,
    lemma_with_dirs_well_formed, lemma_without_well_formed, parent_dirs_free, well_formed,
    with_dirs, with_parent_dirs, without, NodeView, TreeView,
};
use crate::value::{ShapeView, ValueView};
use vstd::prelude::*;

verus! {

/// Whether the two trees hold the same at `q`.
pub open spec fn same_at(a: TreeView, b: TreeView, q: Seq<Seq<char>>) -> bool {
    (a.dom().contains(q) <==> b.dom().contains(q)) && (a.dom().contains(q) ==> a[q] == b[q])
}

/// Whether neither of the two paths lies at or under the other.
pub open spec fn apart(p: Seq<Seq<char>>, q: Seq<Seq<char>>) -> bool {
    !p.is_prefix_of(q) && !q.is_prefix_of(p)
}

/// Whether `after` differs from `before` at most at `p`, beneath `p`, and in
/// directories above `p` that `before` did not have: every path apart from
/// `p` holds the same, and the directories above `p` are still directories.
pub open spec fn framed(before: TreeView, after: TreeView, p: Seq<Seq<char>>) -> bool {
    &&& forall|q: Seq<Seq<char>>| apart(p, q) ==> #[trigger] same_at(before, after, q)
    &&& forall|q: Seq<Seq<char>>|
        q.is_prefix_of(p) && q != p && is_dir(before, q) ==> #[trigger] is_dir(after, q)
}

/// A change that is framed by a path in `p` is framed by `p`.
pub proof fn lemma_framed_widen(
    before: TreeView,
    after: TreeView,
    p: Seq<Seq<char>>,
    name: Seq<char>,
)
    requires
        framed(before, after, p.push(name)),
    ensures
        framed(before, after, p),
{
    let c = p.push(name);
    assert(p.is_prefix_of(c)) by {
        assert(p =~= c.subrange(0, p.len() as int));
    }
    assert forall|q: Seq<Seq<char>>| apart(p, q) implies #[trigger] same_at(before, after, q) by {
        if c.is_prefix_of(q) {
            crate::tree::lemma_prefix_push(p, name, q);
        }
        if q.is_prefix_of(c) {
            if q.len() == c.len() {
                assert(q =~= c);
                assert(c.is_prefix_of(q)) by {
                    assert(c =~= q.subrange(0, c.len() as int));
                }
                crate::tree::lemma_prefix_push(p, name, q);
            } else {
                assert(q =~= p.subrange(0, q.len() as int)) by {
                    assert(q =~= c.subrange(0, q.len() as int));
                }
            }
        }
        assert(apart(c, q));
    }
    assert forall|q: Seq<Seq<char>>|
        q.is_prefix_of(p) && q != p && is_dir(before, q) implies #[trigger] is_dir(after, q) by {
        assert(q.is_prefix_of(c)) by {
            assert(q =~= p.subrange(0, q.len() as int));
            assert(q =~= c.subrange(0, q.len() as int));
        }
    }
}

/// Two changes in a row that `p` frames are framed by `p`.
pub proof fn lemma_framed_chain(a: TreeView, b: TreeView, c: TreeView, p: Seq<Seq<char>>)
    requires
        framed(a, b, p),
        framed(b, c, p),
    ensures
        framed(a, c, p),
{
    assert forall|q: Seq<Seq<char>>| apart(p, q) implies #[trigger] same_at(a, c, q) by {
        assert(same_at(a, b, q));
        assert(same_at(b, c, q));
    }
    assert forall|q: Seq<Seq<char>>|
        q.is_prefix_of(p) && q != p && is_dir(a, q) implies #[trigger] is_dir(c, q) by {
        assert(is_dir(b, q));
    }
}

/// Nothing lies beneath a file, so a well-formed tree stays well formed
/// without the file.
pub proof fn lemma_remove_file_well_formed(t: TreeView, p: Seq<Seq<char>>)
    requires
        well_formed(t),
        is_file(t, p),
    ensures
        well_formed(t.remove(p)),
        framed(t, t.remove(p), p),
{
    let after = t.remove(p);
    assert forall|q: Seq<Seq<char>>| #[trigger]
        after.dom().contains(q) && q.len() > 0 implies is_dir(after, q.drop_last()) by {
        assert(t.dom().contains(q));
        assert(is_dir(t, q.drop_last()));
    }
    lemma_self_prefix(p);
    assert forall|q: Seq<Seq<char>>| apart(p, q) implies #[trigger] same_at(t, after, q) by {}
}

/// Every path lies at itself.
pub proof fn lemma_self_prefix(p: Seq<Seq<char>>)
    ensures
        p.is_prefix_of(p),
{
    assert(p =~= p.subrange(0, p.len() as int));
}

/// Removing `p` with all beneath it is framed by `p`.
pub proof fn lemma_without_framed(t: TreeView, p: Seq<Seq<char>>)
    requires
        well_formed(t),
    ensures
        well_formed(without(t, p)),
        framed(t, without(t, p), p),
{
    lemma_without_well_formed(t, p);
    let after = without(t, p);
    assert forall|q: Seq<Seq<char>>| apart(p, q) implies #[trigger] same_at(t, after, q) by {}
    assert forall|q: Seq<Seq<char>>|
        q.is_prefix_of(p) && q != p && is_dir(t, q) implies #[trigger] is_dir(after, q) by {
        if p.is_prefix_of(q) {
            assert(q.len() == p.len());
            assert(q =~= p.subrange(0, q.len() as int));
            assert(p =~= p.subrange(0, p.len() as int));
        }
    }
}

/// Making the directories down to `p` is framed by `p`.
pub proof fn lemma_with_dirs_framed(t: TreeView, p: Seq<Seq<char>>)
    requires
        well_formed(t),
        dirs_free(t, p),
    ensures
        well_formed(with_dirs(t, p)),
        is_dir(with_dirs(t, p), p),
        framed(t, with_dirs(t, p), p),
{
    lemma_with_dirs_well_formed(t, p);
    let after = with_dirs(t, p);
    assert forall|q: Seq<Seq<char>>| apart(p, q) implies #[trigger] same_at(t, after, q) by {}
}

/// Making the directories above `p` is framed by `p`.
pub proof fn lemma_with_parent_dirs_framed(t: TreeView, p: Seq<Seq<char>>)
    requires
        well_formed(t),
        parent_dirs_free(t, p),
    ensures
        well_formed(with_parent_dirs(t, p)),
        p.len() > 0 ==> is_dir(with_parent_dirs(t, p), p.drop_last()),
        framed(t, with_parent_dirs(t, p), p),
        same_at(t, with_parent_dirs(t, p), p),
{
    let after = with_parent_dirs(t, p);
    if p.len() > 0 {
        let parent = p.drop_last();
        lemma_with_dirs_well_formed(t, parent);
        assert forall|q: Seq<Seq<char>>| apart(p, q) implies #[trigger] same_at(t, after, q) by {
            if q.is_prefix_of(parent) {
                assert(q =~= parent.subrange(0, q.len() as int));
                assert(q =~= p.subrange(0, q.len() as int));
            }
        }
        assert(!p.is_prefix_of(parent));
    } else {
        assert forall|q: Seq<Seq<char>>| apart(p, q) implies #[trigger] same_at(t, after, q) by {}
    }
}

/// Writing a leaf at `p` is framed by `p`, and leaves the file there.
pub proof fn lemma_put_framed(t: TreeView, p: Seq<Seq<char>>, content: Seq<u8>)
    requires
        well_formed(t),
    ensures
        well_formed(put(t, p, content).tree),
        framed(t, put(t, p, content).tree, p),
        put(t, p, content).failure is None ==> put(t, p, content).tree.dom().contains(p) && put(
            t,
            p,
            content,
        ).tree[p] == NodeView::File(content),
{
    if file_writable(t, p) {
        let cleared = if is_dir(t, p) {
            without(t, p)
        } else {
            t
        };
        lemma_without_framed(t, p);
        assert(parent_dirs_free(cleared, p)) by {
            if is_dir(t, p) && p.len() > 0 {
                lemma_ancestors_are_dirs(t, p);
                assert forall|k: int| 0 <= k <= p.drop_last().len() implies !is_file(
                    cleared,
                    #[trigger] p.drop_last().take(k),
                ) by {
                    assert(p.drop_last().take(k) =~= p.take(k));
                    assert(is_dir(t, p.take(k)));
                }
            }
        }
        lemma_with_parent_dirs_framed(cleared, p);
        let made = with_parent_dirs(cleared, p);
        let after = made.insert(p, NodeView::File(content));
        lemma_self_prefix(p);
        assert(!is_dir(made, p));
        assert forall|q: Seq<Seq<char>>| #[trigger]
            after.dom().contains(q) && q.len() > 0 implies is_dir(after, q.drop_last()) by {
            if q != p {
                assert(made.dom().contains(q));
                assert(is_dir(made, q.drop_last()));
            }
        }
        assert forall|q: Seq<Seq<char>>| apart(p, q) implies #[trigger] same_at(t, after, q) by {
            assert(same_at(t, cleared, q));
            assert(same_at(cleared, made, q));
        }
        assert forall|q: Seq<Seq<char>>|
            q.is_prefix_of(p) && q != p && is_dir(t, q) implies #[trigger] is_dir(after, q) by {
            assert(is_dir(cleared, q));
            assert(is_dir(made, q));
        }
    } else {
        assert forall|q: Seq<Seq<char>>| apart(p, q) implies #[trigger] same_at(t, t, q) by {}
    }
}

/// A path lies above each of its children.
pub proof fn lemma_parent_prefix(p: Seq<Seq<char>>, name: Seq<char>)
    ensures
        p.is_prefix_of(p.push(name)),
        p != p.push(name),
        p.push(name).drop_last() == p,
        p.push(name).last() == name,
{
    let c = p.push(name);
    assert(p =~= c.subrange(0, p.len() as int));
    assert(c.drop_last() =~= p);
}

/// Clearing `p` for a sequence is framed by `p`.
pub proof fn lemma_seq_cleared_framed(t: TreeView, p: Seq<Seq<char>>)
    requires
        well_formed(t),
    ensures
        well_formed(seq_cleared(t, p)),
        framed(t, seq_cleared(t, p), p),
        is_dir(t, p) ==> is_dir(seq_cleared(t, p), p),
        !is_file(seq_cleared(t, p), p),
        forall|q: Seq<Seq<char>>| under_index(p, q) ==> !seq_cleared(t, p).dom().contains(q),
{
    let after = seq_cleared(t, p);
    if is_dir(t, p) {
        assert forall|q: Seq<Seq<char>>| #[trigger]
            after.dom().contains(q) && q.len() > 0 implies is_dir(after, q.drop_last()) by {
            let parent = q.drop_last();
            assert(is_dir(t, parent));
            if under_index(p, parent) {
                lemma_prefix_of_parent(p, q);
                assert(q[p.len() as int] == parent[p.len() as int]);
            }
        }
        assert forall|q: Seq<Seq<char>>| apart(p, q) implies #[trigger] same_at(t, after, q) by {}
        assert forall|q: Seq<Seq<char>>|
            q.is_prefix_of(p) && q != p && is_dir(t, q) implies #[trigger] is_dir(after, q) by {}
    } else if is_file(t, p) {
        lemma_remove_file_well_formed(t, p);
        crate::ser::lemma_without_file(t, p);
    } else {
        assert forall|q: Seq<Seq<char>>| apart(p, q) implies #[trigger] same_at(t, t, q) by {}
        crate::ser::lemma_without_absent(t, p);
    }
}

/// Making `p` ready for a sequence is framed by `p`; the directory then
/// holds no element.
pub proof fn lemma_seq_begun_framed(t: TreeView, p: Seq<Seq<char>>)
    requires
        well_formed(t),
    ensures
        well_formed(seq_begun(t, p).tree),
        framed(t, seq_begun(t, p).tree, p),
        seq_begun(t, p).failure is None ==> is_dir(seq_begun(t, p).tree, p),
        forall|q: Seq<Seq<char>>| under_index(p, q) ==> !seq_begun(t, p).tree.dom().contains(q),
{
    lemma_seq_cleared_framed(t, p);
    let cleared = seq_cleared(t, p);
    if dirs_free(cleared, p) {
        lemma_with_dirs_framed(cleared, p);
        lemma_framed_chain(t, cleared, with_dirs(cleared, p), p);
        assert forall|q: Seq<Seq<char>>| under_index(p, q) implies !with_dirs(
            cleared,
            p,
        ).dom().contains(q) by {
            if q.is_prefix_of(p) {
                assert(q.len() <= p.len());
            }
        }
    }
}

/// Making `p` ready for a map is framed by `p`; what the directory held
/// stays.
pub proof fn lemma_map_begun_framed(t: TreeView, p: Seq<Seq<char>>)
    requires
        well_formed(t),
    ensures
        well_formed(map_begun(t, p).tree),
        framed(t, map_begun(t, p).tree, p),
        map_begun(t, p).failure is None ==> is_dir(map_begun(t, p).tree, p),
        is_dir(t, p) ==> map_begun(t, p).tree == t && map_begun(t, p).failure is None,
{
    let cleared = if is_file(t, p) {
        t.remove(p)
    } else {
        t
    };
    if is_file(t, p) {
        lemma_remove_file_well_formed(t, p);
    } else {
        assert forall|q: Seq<Seq<char>>| apart(p, q) implies #[trigger] same_at(t, t, q) by {}
    }
    if dirs_free(cleared, p) {
        lemma_with_dirs_framed(cleared, p);
        lemma_framed_chain(t, cleared, with_dirs(cleared, p), p);
    }
    if is_dir(t, p) {
        lemma_ancestors_are_dirs(t, p);
        assert forall|k: int| 0 <= k <= p.len() implies !is_file(t, #[trigger] p.take(k)) by {
            if k == p.len() {
                assert(p.take(k) =~= p);
            }
        }
        assert forall|q: Seq<Seq<char>>| q.is_prefix_of(p) implies t.dom().contains(q) by {
            assert(q =~= p.take(q.len() as int));
            if q.len() == p.len() {
                assert(p.take(q.len() as int) =~= p);
            }
        }
        assert(with_dirs(t, p) =~= t);
    }
}

/// Clearing `p` for a newtype variant is framed by `p`.
pub proof fn lemma_variant_cleared_framed(t: TreeView, p: Seq<Seq<char>>)
    requires
        well_formed(t),
    ensures
        well_formed(variant_cleared(t, p)),
        framed(t, variant_cleared(t, p), p),
        is_dir(t, p) ==> is_dir(variant_cleared(t, p), p),
        !is_file(variant_cleared(t, p), p),
        !variant_cleared(t, p).dom().contains(p.push(value_name())),
{
    let after = variant_cleared(t, p);
    let marker = p.push(variant_name());
    let payload = p.push(value_name());
    lemma_parent_prefix(p, variant_name());
    lemma_parent_prefix(p, value_name());
    lemma_self_prefix(payload);
    if is_dir(t, p) {
        let unmarked = if is_file(t, marker) {
            t.remove(marker)
        } else {
            t
        };
        if is_file(t, marker) {
            lemma_remove_file_well_formed(t, marker);
            lemma_framed_widen(t, unmarked, p, variant_name());
        } else {
            assert forall|q: Seq<Seq<char>>| apart(p, q) implies #[trigger] same_at(t, t, q) by {}
        }
        lemma_without_framed(unmarked, payload);
        lemma_framed_widen(unmarked, after, p, value_name());
        lemma_framed_chain(t, unmarked, after, p);
        assert(is_dir(unmarked, p));
        assert(is_dir(after, p));
    } else if is_file(t, p) {
        lemma_remove_file_well_formed(t, p);
        assert(!after.dom().contains(payload)) by {
            if t.dom().contains(payload) {
                assert(is_dir(t, payload.drop_last()));
            }
        }
    } else {
        assert forall|q: Seq<Seq<char>>| apart(p, q) implies #[trigger] same_at(t, t, q) by {}
        assert(!after.dom().contains(payload)) by {
            if t.dom().contains(payload) {
                assert(is_dir(t, payload.drop_last()));
            }
        }
    }
}

/// The name of the marker file is that of no element, and not that of the
/// payload of a newtype variant.
pub proof fn lemma_marker_name()
    ensures
        !crate::text::is_index_name(variant_name()),
        variant_name() != value_name(),
{
    assert(variant_name()[0] == 'v');
    assert(variant_name().len() == 7);
    assert(value_name().len() == 5);
}

/// Two children with different names lie apart, with all beneath them.
pub proof fn lemma_children_apart(p: Seq<Seq<char>>, a: Seq<char>, b: Seq<char>, q: Seq<Seq<char>>)
    requires
        a != b,
        p.push(b).is_prefix_of(q),
    ensures
        apart(p.push(a), q),
{
    crate::tree::lemma_prefix_push(p, b, q);
    crate::tree::lemma_prefix_push(p, a, q);
    if q.is_prefix_of(p.push(a)) {
        assert(q.len() == p.len() + 1);
        assert(q =~= p.push(a).subrange(0, q.len() as int));
        assert(q[p.len() as int] == a);
    }
}

/// Making `p` ready for a newtype variant is framed by `p`. It leaves a
/// directory with the marker file and without a payload.
pub proof fn lemma_newtype_variant_begun_framed(t: TreeView, p: Seq<Seq<char>>, name: Seq<char>)
    requires
        well_formed(t),
    ensures
        well_formed(newtype_variant_begun(t, p, name).tree),
        framed(t, newtype_variant_begun(t, p, name).tree, p),
        newtype_variant_begun(t, p, name).failure is None ==> {
            let after = newtype_variant_begun(t, p, name).tree;
            &&& is_dir(after, p)
            &&& after.dom().contains(p.push(variant_name()))
            &&& after[p.push(variant_name())] == NodeView::File(vstd::utf8::encode_utf8(name))
            &&& !after.dom().contains(p.push(value_name()))
        },
{
    lemma_variant_cleared_framed(t, p);
    let cleared = variant_cleared(t, p);
    if dirs_free(cleared, p) {
        let made = with_dirs(cleared, p);
        lemma_with_dirs_framed(cleared, p);
        lemma_framed_chain(t, cleared, made, p);
        let marker = p.push(variant_name());
        let content = vstd::utf8::encode_utf8(name);
        lemma_put_framed(made, marker, content);
        let after = put(made, marker, content).tree;
        lemma_framed_widen(made, after, p, variant_name());
        lemma_framed_chain(t, made, after, p);
        lemma_parent_prefix(p, variant_name());
        lemma_marker_name();
        lemma_self_prefix(p.push(value_name()));
        lemma_children_apart(p, variant_name(), value_name(), p.push(value_name()));
        assert(same_at(made, after, p.push(value_name())));
        assert(!made.dom().contains(p.push(value_name()))) by {
            if p.push(value_name()).is_prefix_of(p) {
            }
        }
    }
}

/// Making `p` ready for a tuple variant is framed by `p`. It leaves a
/// directory with the marker file and without elements.
pub proof fn lemma_tuple_variant_begun_framed(t: TreeView, p: Seq<Seq<char>>, name: Seq<char>)
    requires
        well_formed(t),
    ensures
        well_formed(tuple_variant_begun(t, p, name).tree),
        framed(t, tuple_variant_begun(t, p, name).tree, p),
        tuple_variant_begun(t, p, name).failure is None ==> {
            let after = tuple_variant_begun(t, p, name).tree;
            &&& is_dir(after, p)
            &&& after.dom().contains(p.push(variant_name()))
            &&& after[p.push(variant_name())] == NodeView::File(vstd::utf8::encode_utf8(name))
            &&& forall|q: Seq<Seq<char>>| under_index(p, q) ==> !after.dom().contains(q)
        },
{
    lemma_seq_begun_framed(t, p);
    let begun = seq_begun(t, p);
    if begun.failure is None {
        let marker = p.push(variant_name());
        let content = vstd::utf8::encode_utf8(name);
        lemma_put_framed(begun.tree, marker, content);
        let after = put(begun.tree, marker, content).tree;
        lemma_framed_widen(begun.tree, after, p, variant_name());
        lemma_framed_chain(t, begun.tree, after, p);
        lemma_parent_prefix(p, variant_name());
        lemma_marker_name();
        assert forall|q: Seq<Seq<char>>| under_index(p, q) implies !after.dom().contains(q) by {
            crate::tree::lemma_prefix_push(p, q[p.len() as int], q);
            lemma_children_apart(p, variant_name(), q[p.len() as int], q);
            assert(same_at(begun.tree, after, q));
        }
    }
}

/// Making `p` ready for a struct variant is framed by `p`. It leaves a
/// directory with the marker file.
pub proof fn lemma_struct_variant_begun_framed(t: TreeView, p: Seq<Seq<char>>, name: Seq<char>)
    requires
        well_formed(t),
    ensures
        well_formed(struct_variant_begun(t, p, name).tree),
        framed(t, struct_variant_begun(t, p, name).tree, p),
        struct_variant_begun(t, p, name).failure is None ==> {
            let after = struct_variant_begun(t, p, name).tree;
            &&& is_dir(after, p)
            &&& after.dom().contains(p.push(variant_name()))
            &&& after[p.push(variant_name())] == NodeView::File(vstd::utf8::encode_utf8(name))
        },
{
    lemma_map_begun_framed(t, p);
    let begun = map_begun(t, p);
    if begun.failure is None {
        let marker = p.push(variant_name());
        let content = vstd::utf8::encode_utf8(name);
        lemma_put_framed(begun.tree, marker, content);
        let after = put(begun.tree, marker, content).tree;
        lemma_framed_widen(begun.tree, after, p, variant_name());
        lemma_framed_chain(t, begun.tree, after, p);
        lemma_parent_prefix(p, variant_name());
    }
}

/// A tree is framed against itself.
pub proof fn lemma_framed_same(t: TreeView, p: Seq<Seq<char>>)
    ensures
        framed(t, t, p),
{
    assert forall|q: Seq<Seq<char>>| apart(p, q) implies #[trigger] same_at(t, t, q) by {}
}

/// Encoding a value at `p` changes nothing apart from `p`: every path that
/// lies neither at, nor under, nor above `p` holds what it held, and the
/// directories above `p` stay. This holds of a failed encoding too.
pub proof fn lemma_encode_framed(t: TreeView, p: Seq<Seq<char>>, v: ValueView)
    requires
        well_formed(t),
    ensures
        well_formed(encode(t, p, v).tree),
        framed(t, encode(t, p, v).tree, p),
    decreases v, 0nat,
{
    match v {
        ValueView::Bool(b) => {
            lemma_put_framed(t, p, vstd::utf8::encode_utf8(crate::text::bool_text(b)));
        },
        ValueView::Int(_, n) => {
            lemma_put_framed(t, p, vstd::utf8::encode_utf8(crate::text::decimal_text(n)));
        },
        ValueView::Char(c) => {
            lemma_put_framed(t, p, vstd::utf8::encode_utf8(seq![c]));
        },
        ValueView::Text(s) => {
            lemma_put_framed(t, p, vstd::utf8::encode_utf8(s));
        },
        ValueView::Bytes(b) => {
            lemma_put_framed(t, p, b);
        },
        ValueView::Unit => {
            lemma_put_framed(t, p, Seq::empty());
        },
        ValueView::Absent => {
            lemma_without_framed(t, p);
        },
        ValueView::Present(inner) => {
            lemma_encode_framed(t, p, *inner);
        },
        ValueView::Newtype(inner) => {
            lemma_encode_framed(t, p, *inner);
        },
        ValueView::Sequence(items) => {
            lemma_seq_begun_framed(t, p);
            let begun = seq_begun(t, p);
            if begun.failure is None {
                lemma_items_framed(begun.tree, p, items, items.len());
                lemma_framed_chain(
                    t,
                    begun.tree,
                    encode_items(begun.tree, p, items, items.len()).tree,
                    p,
                );
            }
        },
        ValueView::Tuple(items) => {
            lemma_seq_begun_framed(t, p);
            let begun = seq_begun(t, p);
            if begun.failure is None {
                lemma_items_framed(begun.tree, p, items, items.len());
                lemma_framed_chain(
                    t,
                    begun.tree,
                    encode_items(begun.tree, p, items, items.len()).tree,
                    p,
                );
            }
        },
        ValueView::Mapping(entries) => {
            lemma_map_begun_framed(t, p);
            let begun = map_begun(t, p);
            if begun.failure is None {
                lemma_entries_framed(begun.tree, p, entries, entries.len());
                lemma_framed_chain(
                    t,
                    begun.tree,
                    encode_entries(begun.tree, p, entries, entries.len()).tree,
                    p,
                );
            }
        },
        ValueView::Record(fields) => {
            lemma_map_begun_framed(t, p);
            let begun = map_begun(t, p);
            if begun.failure is None {
                lemma_fields_framed(begun.tree, p, fields, fields.len());
                lemma_framed_chain(
                    t,
                    begun.tree,
                    encode_fields(begun.tree, p, fields, fields.len()).tree,
                    p,
                );
            }
        },
        ValueView::UnitVariant(name) => {
            lemma_put_framed(t, p, vstd::utf8::encode_utf8(name));
        },
        ValueView::NewtypeVariant(name, inner) => {
            lemma_newtype_variant_begun_framed(t, p, name);
            let begun = newtype_variant_begun(t, p, name);
            if begun.failure is None {
                let payload = p.push(value_name());
                lemma_encode_framed(begun.tree, payload, *inner);
                let after = encode(begun.tree, payload, *inner).tree;
                lemma_framed_widen(begun.tree, after, p, value_name());
                lemma_framed_chain(t, begun.tree, after, p);
            }
        },
        ValueView::TupleVariant(name, items) => {
            lemma_tuple_variant_begun_framed(t, p, name);
            let begun = tuple_variant_begun(t, p, name);
            if begun.failure is None {
                lemma_items_framed(begun.tree, p, items, items.len());
                lemma_framed_chain(
                    t,
                    begun.tree,
                    encode_items(begun.tree, p, items, items.len()).tree,
                    p,
                );
            }
        },
        ValueView::StructVariant(name, fields) => {
            lemma_struct_variant_begun_framed(t, p, name);
            let begun = struct_variant_begun(t, p, name);
            if begun.failure is None {
                lemma_fields_framed(begun.tree, p, fields, fields.len());
                lemma_framed_chain(
                    t,
                    begun.tree,
                    encode_fields(begun.tree, p, fields, fields.len()).tree,
                    p,
                );
            }
        },
    }
}

/// Encoding elements in the directory `p` changes nothing apart from `p`,
/// and `p` stays a directory.
pub proof fn lemma_items_framed(t: TreeView, p: Seq<Seq<char>>, items: Seq<ValueView>, n: nat)
    requires
        well_formed(t),
    ensures
        well_formed(encode_items(t, p, items, n).tree),
        framed(t, encode_items(t, p, items, n).tree, p),
        is_dir(t, p) ==> is_dir(encode_items(t, p, items, n).tree, p),
    decreases items, n,
{
    if n == 0 || n > items.len() {
        lemma_framed_same(t, p);
    } else {
        lemma_items_framed(t, p, items, (n - 1) as nat);
        let before = encode_items(t, p, items, (n - 1) as nat);
        if before.failure is None {
            let name = index_name((n - 1) as nat);
            lemma_encode_framed(before.tree, p.push(name), items[n - 1]);
            let after = encode(before.tree, p.push(name), items[n - 1]).tree;
            lemma_parent_prefix(p, name);
            lemma_framed_widen(before.tree, after, p, name);
            lemma_framed_chain(t, before.tree, after, p);
        }
    }
}

/// Encoding entries in the directory `p` changes nothing apart from `p`,
/// and `p` stays a directory.
pub proof fn lemma_entries_framed(
    t: TreeView,
    p: Seq<Seq<char>>,
    entries: Seq<(ValueView, ValueView)>,
    n: nat,
)
    requires
        well_formed(t),
    ensures
        well_formed(encode_entries(t, p, entries, n).tree),
        framed(t, encode_entries(t, p, entries, n).tree, p),
        is_dir(t, p) ==> is_dir(encode_entries(t, p, entries, n).tree, p),
    decreases entries, n,
{
    if n == 0 || n > entries.len() {
        lemma_framed_same(t, p);
    } else {
        lemma_entries_framed(t, p, entries, (n - 1) as nat);
        let before = encode_entries(t, p, entries, (n - 1) as nat);
        if before.failure is None {
            let step = encode_entry(before.tree, p, entries[n - 1].0, entries[n - 1].1);
            assert(encode_entries(t, p, entries, n) == step);
            match key_text(entries[n - 1].0) {
                Some(name) => {
                    lemma_encode_framed(before.tree, p.push(name), entries[n - 1].1);
                    let after = encode(before.tree, p.push(name), entries[n - 1].1).tree;
                    assert(step.tree == after);
                    lemma_parent_prefix(p, name);
                    lemma_framed_widen(before.tree, after, p, name);
                    lemma_framed_chain(t, before.tree, after, p);
                },
                None => {
                    assert(step.tree == before.tree);
                },
            }
        }
    }
}

/// Encoding fields in the directory `p` changes nothing apart from `p`, and
/// `p` stays a directory.
pub proof fn lemma_fields_framed(
    t: TreeView,
    p: Seq<Seq<char>>,
    fields: Seq<(Seq<char>, ValueView)>,
    n: nat,
)
    requires
        well_formed(t),
    ensures
        well_formed(encode_fields(t, p, fields, n).tree),
        framed(t, encode_fields(t, p, fields, n).tree, p),
        is_dir(t, p) ==> is_dir(encode_fields(t, p, fields, n).tree, p),
    decreases fields, n,
{
    if n == 0 || n > fields.len() {
        lemma_framed_same(t, p);
    } else {
        lemma_fields_framed(t, p, fields, (n - 1) as nat);
        let before = encode_fields(t, p, fields, (n - 1) as nat);
        if before.failure is None {
            let name = fields[n - 1].0;
            lemma_encode_framed(before.tree, p.push(name), fields[n - 1].1);
            let after = encode(before.tree, p.push(name), fields[n - 1].1).tree;
            lemma_parent_prefix(p, name);
            lemma_framed_widen(before.tree, after, p, name);
            lemma_framed_chain(t, before.tree, after, p);
        }
    }
}

/// If the first `n` elements were written, so were the first `m` of them.
pub proof fn lemma_items_succeed(
    t: TreeView,
    p: Seq<Seq<char>>,
    items: Seq<ValueView>,
    m: nat,
    n: nat,
)
    requires
        m <= n <= items.len(),
        encode_items(t, p, items, n).failure is None,
    ensures
        encode_items(t, p, items, m).failure is None,
{
    if encode_items(t, p, items, m).failure is Some {
        crate::ser::lemma_items_stop(t, p, items, m, n);
    }
}

/// If the first `n` fields were written, so were the first `m` of them.
pub proof fn lemma_fields_succeed(
    t: TreeView,
    p: Seq<Seq<char>>,
    fields: Seq<(Seq<char>, ValueView)>,
    m: nat,
    n: nat,
)
    requires
        m <= n <= fields.len(),
        encode_fields(t, p, fields, n).failure is None,
    ensures
        encode_fields(t, p, fields, m).failure is None,
{
    if encode_fields(t, p, fields, m).failure is Some {
        crate::ser::lemma_fields_stop(t, p, fields, m, n);
    }
}

/// The elements from `m` up to `n` leave alone what lies apart from each of
/// them.
pub proof fn lemma_items_untouched(
    t: TreeView,
    p: Seq<Seq<char>>,
    items: Seq<ValueView>,
    m: nat,
    n: nat,
    q: Seq<Seq<char>>,
)
    requires
        well_formed(t),
        m <= n <= items.len(),
        forall|j: nat| m <= j < n ==> apart(#[trigger] p.push(index_name(j)), q),
    ensures
        same_at(encode_items(t, p, items, m).tree, encode_items(t, p, items, n).tree, q),
    decreases n,
{
    if n > m {
        lemma_items_untouched(t, p, items, m, (n - 1) as nat, q);
        let before = encode_items(t, p, items, (n - 1) as nat);
        lemma_items_framed(t, p, items, (n - 1) as nat);
        if before.failure is None {
            let child = p.push(index_name((n - 1) as nat));
            lemma_encode_framed(before.tree, child, items[n - 1]);
            assert(apart(child, q));
            assert(same_at(before.tree, encode(before.tree, child, items[n - 1]).tree, q));
        }
    }
}

/// The fields from `m` up to `n` leave alone what lies apart from each of
/// them.
pub proof fn lemma_fields_untouched(
    t: TreeView,
    p: Seq<Seq<char>>,
    fields: Seq<(Seq<char>, ValueView)>,
    m: nat,
    n: nat,
    q: Seq<Seq<char>>,
)
    requires
        well_formed(t),
        m <= n <= fields.len(),
        forall|j: int| m <= j < n ==> apart(p.push((#[trigger] fields[j]).0), q),
    ensures
        same_at(encode_fields(t, p, fields, m).tree, encode_fields(t, p, fields, n).tree, q),
    decreases n,
{
    if n > m {
        lemma_fields_untouched(t, p, fields, m, (n - 1) as nat, q);
        let before = encode_fields(t, p, fields, (n - 1) as nat);
        lemma_fields_framed(t, p, fields, (n - 1) as nat);
        if before.failure is None {
            let child = p.push(fields[n - 1].0);
            lemma_encode_framed(before.tree, child, fields[n - 1].1);
            assert(apart(child, q));
            assert(same_at(before.tree, encode(before.tree, child, fields[n - 1].1).tree, q));
        }
    }
}

/// Foreign nodes in a struct: where `p` is a directory, the encoding of a
/// struct at `p` leaves every node of `p` that is named like none of its
/// fields as it was, with all beneath it.
pub proof fn law_record_keeps_foreign(
    t: TreeView,
    p: Seq<Seq<char>>,
    fields: Seq<(Seq<char>, ValueView)>,
    name: Seq<char>,
    q: Seq<Seq<char>>,
)
    requires
        well_formed(t),
        is_dir(t, p),
        forall|i: int| 0 <= i < fields.len() ==> (#[trigger] fields[i]).0 != name,
        p.push(name).is_prefix_of(q),
    ensures
        same_at(t, encode(t, p, ValueView::Record(fields)).tree, q),
{
    lemma_map_begun_framed(t, p);
    assert forall|j: int| 0 <= j < fields.len() implies apart(p.push((#[trigger] fields[j]).0), q) by {
        lemma_children_apart(p, fields[j].0, name, q);
    }
    lemma_fields_untouched(t, p, fields, 0, fields.len(), q);
}

/// Foreign nodes in a sequence: where `p` is a directory, the encoding of a
/// sequence at `p` leaves every node of `p` whose name is not that of an
/// element as it was, with all beneath it.
pub proof fn law_sequence_keeps_foreign(
    t: TreeView,
    p: Seq<Seq<char>>,
    items: Seq<ValueView>,
    name: Seq<char>,
    q: Seq<Seq<char>>,
)
    requires
        well_formed(t),
        is_dir(t, p),
        items.len() <= usize::MAX,
        !crate::text::is_index_name(name),
        p.push(name).is_prefix_of(q),
    ensures
        same_at(t, encode(t, p, ValueView::Sequence(items)).tree, q),
{
    lemma_seq_begun_framed(t, p);
    lemma_seq_cleared_framed(t, p);
    crate::tree::lemma_prefix_push(p, name, q);
    let cleared = seq_cleared(t, p);
    assert(same_at(t, cleared, q));
    assert(dirs_free(cleared, p)) by {
        lemma_ancestors_are_dirs(cleared, p);
        assert forall|k: int| 0 <= k <= p.len() implies !is_file(cleared, #[trigger] p.take(k)) by {
            if k == p.len() {
                assert(p.take(k) =~= p);
            }
        }
    }
    let begun = with_dirs(cleared, p);
    assert(same_at(cleared, begun, q));
    assert forall|j: nat| 0 <= j < items.len() implies apart(#[trigger] p.push(index_name(j)), q) by {
        crate::text::lemma_parse_decimal_text(j as int, false, 0, usize::MAX as int);
        lemma_children_apart(p, index_name(j), name, q);
    }
    lemma_items_untouched(begun, p, items, 0, items.len(), q);
}

/// Absence: the encoding of an absent value at `p` always succeeds and
/// leaves nothing at `p` nor beneath it.
pub proof fn law_absent_removes(t: TreeView, p: Seq<Seq<char>>, q: Seq<Seq<char>>)
    requires
        p.is_prefix_of(q),
    ensures
        encode(t, p, ValueView::Absent).failure is None,
        !encode(t, p, ValueView::Absent).tree.dom().contains(q),
{
}

/// Absence: where `p` holds nothing, an optional value read at `p` is
/// absent, whatever its shape, and the reading of a scalar, a map or an
/// enum at `p` fails because the file is not found.
pub proof fn law_missing_read(fs: crate::tree::FileTree, p: Seq<Seq<char>>, s: ShapeView)
    requires
        !fs@.dom().contains(p),
    ensures
        crate::de::decode(fs, p, ShapeView::Optional(Box::new(s))) == Ok::<
            ValueView,
            crate::de::ErrorView,
        >(ValueView::Absent),
        s is Bool || s is Int || s is Char || s is Text || s is Bytes || s is Unit || s is Mapping
            || s is Enum ==> crate::de::decode(fs, p, s) == Err::<ValueView, crate::de::ErrorView>(
            crate::de::ErrorView::FileNotFound,
        ),
{
}

/// If the first `n` entries were written, so were the first `m` of them.
pub proof fn lemma_entries_succeed(
    t: TreeView,
    p: Seq<Seq<char>>,
    entries: Seq<(ValueView, ValueView)>,
    m: nat,
    n: nat,
)
    requires
        m <= n <= entries.len(),
        encode_entries(t, p, entries, n).failure is None,
    ensures
        encode_entries(t, p, entries, m).failure is None,
{
    if encode_entries(t, p, entries, m).failure is Some {
        crate::ser::lemma_entries_stop(t, p, entries, m, n);
    }
}

/// The entries from `m` up to `n` leave alone what lies apart from each of
/// them.
pub proof fn lemma_entries_untouched(
    t: TreeView,
    p: Seq<Seq<char>>,
    entries: Seq<(ValueView, ValueView)>,
    m: nat,
    n: nat,
    q: Seq<Seq<char>>,
)
    requires
        well_formed(t),
        m <= n <= entries.len(),
        forall|j: int|
            m <= j < n ==> (key_text((#[trigger] entries[j]).0) matches Some(name) ==> apart(
                p.push(name),
                q,
            )),
    ensures
        same_at(encode_entries(t, p, entries, m).tree, encode_entries(t, p, entries, n).tree, q),
    decreases n,
{
    if n > m {
        lemma_entries_untouched(t, p, entries, m, (n - 1) as nat, q);
        let before = encode_entries(t, p, entries, (n - 1) as nat);
        lemma_entries_framed(t, p, entries, (n - 1) as nat);
        if before.failure is None {
            let step = encode_entry(before.tree, p, entries[n - 1].0, entries[n - 1].1);
            assert(encode_entries(t, p, entries, n) == step);
            match key_text(entries[n - 1].0) {
                Some(name) => {
                    let child = p.push(name);
                    lemma_encode_framed(before.tree, child, entries[n - 1].1);
                    assert(step.tree == encode(before.tree, child, entries[n - 1].1).tree);
                    assert(apart(child, q));
                    assert(same_at(before.tree, step.tree, q));
                },
                None => {
                    assert(step.tree == before.tree);
                },
            }
        }
    }
}

/// What a change that is framed by `p` leaves outside `p`, where the
/// directory that holds `p` exists: everything as it was.
pub proof fn lemma_framed_housed(
    before: TreeView,
    after: TreeView,
    p: Seq<Seq<char>>,
    q: Seq<Seq<char>>,
)
    requires
        well_formed(before),
        well_formed(after),
        p.len() > 0 ==> is_dir(before, p.drop_last()),
        framed(before, after, p),
        !p.is_prefix_of(q),
    ensures
        same_at(before, after, q),
{
    if q.is_prefix_of(p) {
        assert(q != p) by {
            lemma_self_prefix(p);
        }
        assert(q.len() < p.len()) by {
            if q.len() == p.len() {
                assert(q =~= p.subrange(0, q.len() as int));
                assert(p =~= p.subrange(0, p.len() as int));
            }
        }
        let parent = p.drop_last();
        lemma_ancestors_are_dirs(before, parent);
        assert(q =~= p.subrange(0, q.len() as int));
        if q.len() == parent.len() {
            assert(q =~= parent);
        } else {
            assert(q =~= parent.take(q.len() as int));
        }
        assert(is_dir(before, q));
        assert(is_dir(after, q));
    } else {
        assert(apart(p, q));
    }
}

/// Shrinkage: after a sequence was encoded at `p`, the directory holds no
/// node that is named like an element but those of the elements written:
/// what an earlier and longer sequence left is gone.
pub proof fn law_sequence_holds_no_more(
    t: TreeView,
    p: Seq<Seq<char>>,
    items: Seq<ValueView>,
    q: Seq<Seq<char>>,
)
    requires
        well_formed(t),
        under_index(p, q),
        forall|j: nat| j < items.len() ==> q[p.len() as int] != #[trigger] index_name(j),
    ensures
        !encode(t, p, ValueView::Sequence(items)).tree.dom().contains(q),
{
    lemma_seq_begun_framed(t, p);
    let begun = seq_begun(t, p);
    if begun.failure is None {
        crate::tree::lemma_prefix_push(p, q[p.len() as int], q);
        assert forall|j: nat| 0 <= j < items.len() implies apart(
            #[trigger] p.push(index_name(j)),
            q,
        ) by {
            lemma_children_apart(p, index_name(j), q[p.len() as int], q);
        }
        lemma_items_untouched(begun.tree, p, items, 0, items.len(), q);
    }
}

} // verus!
