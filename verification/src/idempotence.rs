//! Encoding a value a second time changes nothing: the proof, shape by
//! shape.

use crate::laws::{
    apart, lemma_children_apart, lemma_encode_framed, lemma_entries_framed,
    lemma_entries_succeed, lemma_entries_untouched, lemma_fields_framed, lemma_fields_succeed,
    lemma_fields_untouched, lemma_framed_housed, lemma_items_framed, lemma_items_untouched,
    lemma_map_begun_framed, lemma_marker_name, lemma_newtype_variant_begun_framed,
    lemma_parent_prefix, lemma_put_framed, lemma_self_prefix, lemma_seq_begun_framed,
    lemma_seq_cleared_framed, lemma_struct_variant_begun_framed,
    lemma_tuple_variant_begun_framed, lemma_variant_cleared_framed, same_at,
};
use crate::locality::{
    housed, lemma_encode_local, lemma_housed, lemma_items_local, lemma_nothing_beneath,
    lemma_put_housed,
};
use crate::path::{index_name, value_name, variant_name};
use crate::round_trip::{
    agrees_under, conforms, distinct_names, law_round_trip, lemma_agrees_narrow,
    lemma_field_agrees,
};
use crate::ser::{
    done, encode, encode_entries, encode_entry, encode_fields, encode_items, key_text, map_begun,
    newtype_variant_begun, put, seq_begun, seq_cleared, struct_variant_begun,
    tuple_variant_begun, under_index, variant_cleared, without_indices,
};
use crate::text::{bool_text, decimal_text};
use crate::tree::{is_dir, well_formed, with_dirs, without, FileTree, NodeView, TreeView};
use crate::value::{ShapeView, ValueView};
use vstd::prelude::*;
use vstd::utf8::encode_utf8;

verus! {

/// Whether no two of `entries` have the same text as key.
pub open spec fn distinct_keys(entries: Seq<(ValueView, ValueView)>) -> bool {
    forall|i: int, j: int|
        0 <= i < entries.len() && 0 <= j < entries.len() && i != j ==> key_text(
            (#[trigger] entries[i]).0,
        ) != key_text((#[trigger] entries[j]).0)
}

/// Whether `v` writes every node once: in no struct of `v` two fields have
/// one name, in no map two entries have one key, and no field of a struct
/// variant is called like the marker file.
pub open spec fn tidy(v: ValueView) -> bool
    decreases v,
{
    match v {
        ValueView::Present(inner) => tidy(*inner),
        ValueView::Newtype(inner) => tidy(*inner),
        ValueView::Sequence(items) => tidy_items(items),
        ValueView::Tuple(items) => tidy_items(items),
        ValueView::Mapping(entries) => distinct_keys(entries) && (forall|i: int|
            0 <= i < entries.len() ==> tidy((#[trigger] entries[i]).1)),
        ValueView::Record(fields) => tidy_fields(fields),
        ValueView::NewtypeVariant(_, inner) => tidy(*inner),
        ValueView::TupleVariant(_, items) => tidy_items(items),
        ValueView::StructVariant(_, fields) => tidy_fields(fields) && (forall|i: int|
            0 <= i < fields.len() ==> (#[trigger] fields[i]).0 != variant_name()),
        _ => true,
    }
}

/// Whether each of `items` is tidy, and they are no more than a sequence can
/// hold.
pub open spec fn tidy_items(items: Seq<ValueView>) -> bool
    decreases items,
{
    items.len() <= usize::MAX && (forall|i: int| 0 <= i < items.len() ==> tidy(#[trigger] items[i]))
}

/// Whether the names of `fields` are distinct and each value is tidy.
pub open spec fn tidy_fields(fields: Seq<(Seq<char>, ValueView)>) -> bool
    decreases fields,
{
    distinct_names(fields) && (forall|i: int|
        0 <= i < fields.len() ==> tidy((#[trigger] fields[i]).1))
}

/// Trees that hold the same at every path are the same.
pub proof fn lemma_same_everywhere(a: TreeView, b: TreeView)
    requires
        forall|q: Seq<Seq<char>>| #[trigger] same_at(a, b, q),
    ensures
        a == b,
{
    assert forall|q: Seq<Seq<char>>| a.dom().contains(q) == b.dom().contains(q) by {
        assert(same_at(a, b, q));
    }
    assert forall|q: Seq<Seq<char>>| #[trigger] a.dom().contains(q) implies a[q] == b[q] by {
        assert(same_at(a, b, q));
    }
    assert(a =~= b);
}

/// Writing to a file what it holds changes nothing.
pub proof fn lemma_put_same(u: TreeView, p: Seq<Seq<char>>, content: Seq<u8>)
    requires
        well_formed(u),
        u.dom().contains(p),
        u[p] == NodeView::File(content),
    ensures
        put(u, p, content) == done(u),
{
    assert(housed(u, p)) by {
        if p.len() > 0 {
            assert(is_dir(u, p.drop_last()));
        }
    }
    lemma_put_housed(u, p, content);
    assert(u.insert(p, NodeView::File(content)) =~= u);
}

/// Writing a leaf again changes nothing.
pub proof fn lemma_leaf_again(t: TreeView, u: TreeView, p: Seq<Seq<char>>, content: Seq<u8>)
    requires
        well_formed(t),
        well_formed(u),
        put(t, p, content).failure is None,
        agrees_under(u, put(t, p, content).tree, p),
    ensures
        put(u, p, content) == done(u),
{
    lemma_put_framed(t, p, content);
    lemma_self_prefix(p);
    assert(same_at(u, put(t, p, content).tree, p));
    lemma_put_same(u, p, content);
}

/// Writing the elements again, into the directory cleared of elements,
/// leaves the tree that held them.
pub proof fn lemma_items_again(b: TreeView, u: TreeView, p: Seq<Seq<char>>, items: Seq<ValueView>)
    requires
        well_formed(b),
        well_formed(u),
        is_dir(b, p),
        forall|q: Seq<Seq<char>>| under_index(p, q) ==> !b.dom().contains(q),
        items.len() <= usize::MAX,
        encode_items(b, p, items, items.len()).failure is None,
        agrees_under(u, encode_items(b, p, items, items.len()).tree, p),
    ensures
        is_dir(u, p),
        seq_begun(u, p) == done(without_indices(u, p)),
        well_formed(without_indices(u, p)),
        encode_items(without_indices(u, p), p, items, items.len()) == done(u),
{
    let n = items.len();
    let last = encode_items(b, p, items, n).tree;
    lemma_items_framed(b, p, items, n);
    lemma_self_prefix(p);
    assert(same_at(u, last, p));
    assert(is_dir(u, p));
    let c = without_indices(u, p);
    lemma_seq_cleared_framed(u, p);
    assert(seq_cleared(u, p) == c);
    assert(housed(u, p)) by {
        if p.len() > 0 {
            assert(is_dir(u, p.drop_last()));
        }
    }
    assert(housed(c, p)) by {
        if p.len() > 0 {
            assert(!under_index(p, p.drop_last()));
        }
    }
    lemma_housed(c, p);
    assert forall|q: Seq<Seq<char>>| p.is_prefix_of(q) implies #[trigger] same_at(c, b, q) by {
        if under_index(p, q) {
        } else if q == p {
        } else {
            assert(q.len() > p.len()) by {
                if q.len() == p.len() {
                    assert(q =~= p);
                }
            }
            let name = q[p.len() as int];
            crate::tree::lemma_prefix_push(p, name, q);
            assert forall|j: nat| 0 <= j < n implies apart(#[trigger] p.push(index_name(j)), q) by {
                crate::text::lemma_parse_decimal_text(j as int, false, 0, usize::MAX as int);
                lemma_children_apart(p, index_name(j), name, q);
            }
            lemma_items_untouched(b, p, items, 0, n, q);
            assert(same_at(u, last, q));
        }
    }
    lemma_items_local(c, b, p, items, n);
    lemma_items_framed(c, p, items, n);
    let again = encode_items(c, p, items, n).tree;
    assert forall|q: Seq<Seq<char>>| #[trigger] same_at(again, u, q) by {
        if p.is_prefix_of(q) {
            assert(same_at(again, last, q));
            assert(same_at(u, last, q));
        } else {
            lemma_framed_housed(c, again, p, q);
        }
    }
    lemma_same_everywhere(again, u);
}

/// Encoding again: where `v` was encoded at `p`, and the tree agrees at and
/// under `p` with what the encoding left, encoding `v` at `p` once more
/// succeeds and changes nothing.
pub proof fn lemma_encode_again(t: TreeView, u: TreeView, p: Seq<Seq<char>>, v: ValueView)
    requires
        well_formed(t),
        well_formed(u),
        encode(t, p, v).failure is None,
        tidy(v),
        agrees_under(u, encode(t, p, v).tree, p),
    ensures
        encode(u, p, v) == done(u),
    decreases v, 1nat,
{
    reveal_with_fuel(tidy, 2);
    reveal_with_fuel(tidy_items, 2);
    reveal_with_fuel(tidy_fields, 2);
    match v {
        ValueView::Bool(x) => {
            lemma_leaf_again(t, u, p, encode_utf8(bool_text(x)));
        },
        ValueView::Int(_, n) => {
            lemma_leaf_again(t, u, p, encode_utf8(decimal_text(n)));
        },
        ValueView::Char(c) => {
            lemma_leaf_again(t, u, p, encode_utf8(seq![c]));
        },
        ValueView::Text(s) => {
            lemma_leaf_again(t, u, p, encode_utf8(s));
        },
        ValueView::Bytes(x) => {
            lemma_leaf_again(t, u, p, x);
        },
        ValueView::Unit => {
            lemma_leaf_again(t, u, p, Seq::empty());
        },
        ValueView::Absent => {
            assert forall|q: Seq<Seq<char>>| p.is_prefix_of(q) implies !u.dom().contains(q) by {
                assert(same_at(u, without(t, p), q));
            }
            assert(without(u, p) =~= u);
        },
        ValueView::Present(inner) => {
            lemma_encode_again(t, u, p, *inner);
        },
        ValueView::Newtype(inner) => {
            lemma_encode_again(t, u, p, *inner);
        },
        ValueView::Sequence(items) => {
            lemma_seq_begun_framed(t, p);
            lemma_items_again(seq_begun(t, p).tree, u, p, items);
        },
        ValueView::Tuple(items) => {
            lemma_seq_begun_framed(t, p);
            lemma_items_again(seq_begun(t, p).tree, u, p, items);
        },
        ValueView::Mapping(_) => {
            lemma_again_mapping(t, u, p, v);
        },
        ValueView::Record(_) => {
            lemma_again_record(t, u, p, v);
        },
        ValueView::UnitVariant(name) => {
            lemma_leaf_again(t, u, p, encode_utf8(name));
        },
        ValueView::NewtypeVariant(_, _) => {
            lemma_again_newtype_variant(t, u, p, v);
        },
        ValueView::TupleVariant(_, _) => {
            lemma_again_tuple_variant(t, u, p, v);
        },
        ValueView::StructVariant(_, _) => {
            lemma_again_struct_variant(t, u, p, v);
        },
    }
}

/// Writing the fields of a struct again changes nothing.
pub proof fn lemma_fields_again(
    b: TreeView,
    u: TreeView,
    p: Seq<Seq<char>>,
    fields: Seq<(Seq<char>, ValueView)>,
    k: nat,
)
    requires
        well_formed(b),
        well_formed(u),
        tidy_fields(fields),
        encode_fields(b, p, fields, fields.len()).failure is None,
        agrees_under(u, encode_fields(b, p, fields, fields.len()).tree, p),
        k <= fields.len(),
    ensures
        encode_fields(u, p, fields, k) == done(u),
    decreases fields, k,
{
    if k > 0 {
        lemma_fields_again(b, u, p, fields, (k - 1) as nat);
        let i = (k - 1) as nat;
        lemma_field_agrees(u, b, p, fields, i);
        lemma_fields_framed(b, p, fields, i);
        lemma_fields_succeed(b, p, fields, i + 1, fields.len());
        lemma_encode_again(
            encode_fields(b, p, fields, i).tree,
            u,
            p.push(fields[i as int].0),
            fields[i as int].1,
        );
    }
}

/// Writing the entries of a map again changes nothing.
pub proof fn lemma_entries_again(
    b: TreeView,
    u: TreeView,
    p: Seq<Seq<char>>,
    entries: Seq<(ValueView, ValueView)>,
    k: nat,
)
    requires
        well_formed(b),
        well_formed(u),
        distinct_keys(entries),
        forall|i: int| 0 <= i < entries.len() ==> tidy((#[trigger] entries[i]).1),
        encode_entries(b, p, entries, entries.len()).failure is None,
        agrees_under(u, encode_entries(b, p, entries, entries.len()).tree, p),
        k <= entries.len(),
    ensures
        encode_entries(u, p, entries, k) == done(u),
    decreases entries, k,
{
    if k > 0 {
        lemma_entries_again(b, u, p, entries, (k - 1) as nat);
        let i = (k - 1) as nat;
        let n = entries.len();
        let before = encode_entries(b, p, entries, i);
        lemma_entries_framed(b, p, entries, i);
        lemma_entries_succeed(b, p, entries, i, n);
        lemma_entries_succeed(b, p, entries, i + 1, n);
        let step = encode_entry(before.tree, p, entries[i as int].0, entries[i as int].1);
        assert(encode_entries(b, p, entries, i + 1) == step);
        let name = key_text(entries[i as int].0)->Some_0;
        let child = p.push(name);
        assert(step == encode(before.tree, child, entries[i as int].1));
        assert forall|q: Seq<Seq<char>>| child.is_prefix_of(q) implies #[trigger] same_at(
            u,
            step.tree,
            q,
        ) by {
            crate::tree::lemma_prefix_push(p, name, q);
            assert(same_at(u, encode_entries(b, p, entries, n).tree, q));
            assert forall|j: int| i + 1 <= j < n implies (key_text(
                (#[trigger] entries[j]).0,
            ) matches Some(other) ==> apart(p.push(other), q)) by {
                if key_text(entries[j].0) is Some {
                    let other = key_text(entries[j].0)->Some_0;
                    assert(key_text(entries[j].0) != key_text(entries[i as int].0));
                    lemma_children_apart(p, other, name, q);
                }
            }
            lemma_entries_untouched(b, p, entries, i + 1, n, q);
        }
        lemma_encode_again(before.tree, u, child, entries[i as int].1);
        assert(encode_entry(u, p, entries[i as int].0, entries[i as int].1) == encode(
            u,
            child,
            entries[i as int].1,
        ));
    }
}

/// Encoding a struct again changes nothing.
pub proof fn lemma_again_record(t: TreeView, u: TreeView, p: Seq<Seq<char>>, v: ValueView)
    requires
        well_formed(t),
        well_formed(u),
        encode(t, p, v).failure is None,
        tidy(v),
        agrees_under(u, encode(t, p, v).tree, p),
        v is Record,
    ensures
        encode(u, p, v) == done(u),
    decreases v, 0nat,
{
    reveal_with_fuel(tidy, 2);
    reveal_with_fuel(tidy_items, 2);
    reveal_with_fuel(tidy_fields, 2);
    let fields = v->Record_0;
    lemma_map_begun_framed(t, p);
    let b = map_begun(t, p).tree;
    lemma_fields_framed(b, p, fields, fields.len());
    lemma_self_prefix(p);
    assert(same_at(u, encode_fields(b, p, fields, fields.len()).tree, p));
    lemma_map_begun_framed(u, p);
    lemma_fields_again(b, u, p, fields, fields.len());
}

/// Encoding a map again changes nothing.
pub proof fn lemma_again_mapping(t: TreeView, u: TreeView, p: Seq<Seq<char>>, v: ValueView)
    requires
        well_formed(t),
        well_formed(u),
        encode(t, p, v).failure is None,
        tidy(v),
        agrees_under(u, encode(t, p, v).tree, p),
        v is Mapping,
    ensures
        encode(u, p, v) == done(u),
    decreases v, 0nat,
{
    reveal_with_fuel(tidy, 2);
    reveal_with_fuel(tidy_items, 2);
    reveal_with_fuel(tidy_fields, 2);
    let entries = v->Mapping_0;
    lemma_map_begun_framed(t, p);
    let b = map_begun(t, p).tree;
    lemma_entries_framed(b, p, entries, entries.len());
    lemma_self_prefix(p);
    assert(same_at(u, encode_entries(b, p, entries, entries.len()).tree, p));
    lemma_map_begun_framed(u, p);
    lemma_entries_again(b, u, p, entries, entries.len());
}

/// Encoding a struct variant again changes nothing.
pub proof fn lemma_again_struct_variant(t: TreeView, u: TreeView, p: Seq<Seq<char>>, v: ValueView)
    requires
        well_formed(t),
        well_formed(u),
        encode(t, p, v).failure is None,
        tidy(v),
        agrees_under(u, encode(t, p, v).tree, p),
        v is StructVariant,
    ensures
        encode(u, p, v) == done(u),
    decreases v, 0nat,
{
    reveal_with_fuel(tidy, 2);
    reveal_with_fuel(tidy_items, 2);
    reveal_with_fuel(tidy_fields, 2);
    let name = v->StructVariant_0;
    let fields = v->StructVariant_1;
    lemma_struct_variant_begun_framed(t, p, name);
    let b = struct_variant_begun(t, p, name).tree;
    let marker = p.push(variant_name());
    let last = encode_fields(b, p, fields, fields.len()).tree;
    lemma_fields_framed(b, p, fields, fields.len());
    lemma_parent_prefix(p, variant_name());
    lemma_self_prefix(marker);
    lemma_self_prefix(p);
    assert forall|j: int| 0 <= j < fields.len() implies apart(
        p.push((#[trigger] fields[j]).0),
        marker,
    ) by {
        lemma_children_apart(p, fields[j].0, variant_name(), marker);
    }
    lemma_fields_untouched(b, p, fields, 0, fields.len(), marker);
    assert(same_at(u, last, p));
    assert(same_at(u, last, marker));
    lemma_map_begun_framed(u, p);
    lemma_put_same(u, marker, encode_utf8(name));
    lemma_fields_again(b, u, p, fields, fields.len());
}

/// Encoding a tuple variant again changes nothing.
pub proof fn lemma_again_tuple_variant(t: TreeView, u: TreeView, p: Seq<Seq<char>>, v: ValueView)
    requires
        well_formed(t),
        well_formed(u),
        encode(t, p, v).failure is None,
        tidy(v),
        agrees_under(u, encode(t, p, v).tree, p),
        v is TupleVariant,
    ensures
        encode(u, p, v) == done(u),
    decreases v, 0nat,
{
    reveal_with_fuel(tidy, 2);
    reveal_with_fuel(tidy_items, 2);
    reveal_with_fuel(tidy_fields, 2);
    let name = v->TupleVariant_0;
    let items = v->TupleVariant_1;
    lemma_tuple_variant_begun_framed(t, p, name);
    let b = tuple_variant_begun(t, p, name).tree;
    let marker = p.push(variant_name());
    let last = encode_items(b, p, items, items.len()).tree;
    lemma_items_again(b, u, p, items);
    lemma_parent_prefix(p, variant_name());
    lemma_marker_name();
    lemma_self_prefix(marker);
    assert forall|j: nat| 0 <= j < items.len() implies apart(
        #[trigger] p.push(index_name(j)),
        marker,
    ) by {
        crate::text::lemma_parse_decimal_text(j as int, false, 0, usize::MAX as int);
        lemma_children_apart(p, index_name(j), variant_name(), marker);
    }
    lemma_items_untouched(b, p, items, 0, items.len(), marker);
    assert(same_at(u, last, marker));
    let c = without_indices(u, p);
    assert(!under_index(p, marker));
    lemma_put_same(c, marker, encode_utf8(name));
}

/// Encoding a newtype variant again changes nothing.
pub proof fn lemma_again_newtype_variant(t: TreeView, u: TreeView, p: Seq<Seq<char>>, v: ValueView)
    requires
        well_formed(t),
        well_formed(u),
        encode(t, p, v).failure is None,
        tidy(v),
        agrees_under(u, encode(t, p, v).tree, p),
        v is NewtypeVariant,
    ensures
        encode(u, p, v) == done(u),
    decreases v, 0nat,
{
    reveal_with_fuel(tidy, 2);
    reveal_with_fuel(tidy_items, 2);
    reveal_with_fuel(tidy_fields, 2);
    let name = v->NewtypeVariant_0;
    let inner = *v->NewtypeVariant_1;
    let content = encode_utf8(name);
    lemma_newtype_variant_begun_framed(t, p, name);
    let b = newtype_variant_begun(t, p, name).tree;
    let marker = p.push(variant_name());
    let payload = p.push(value_name());
    let last = encode(b, payload, inner).tree;
    lemma_encode_framed(b, payload, inner);
    lemma_parent_prefix(p, value_name());
    lemma_parent_prefix(p, variant_name());
    lemma_marker_name();
    lemma_self_prefix(marker);
    lemma_self_prefix(payload);
    lemma_self_prefix(p);
    lemma_children_apart(p, value_name(), variant_name(), marker);
    lemma_children_apart(p, variant_name(), value_name(), payload);
    assert(is_dir(last, p));
    assert(same_at(b, last, marker));
    assert(same_at(u, last, p));
    assert(same_at(u, last, marker));
    // What the second encoding starts from: the tree without the payload.
    lemma_variant_cleared_framed(u, p);
    let cleared = variant_cleared(u, p);
    assert(housed(u, p)) by {
        if p.len() > 0 {
            assert(is_dir(u, p.drop_last()));
        }
    }
    crate::locality::lemma_cleared_housed(u, cleared, p);
    lemma_housed(cleared, p);
    assert(with_dirs(cleared, p) == cleared);
    assert(!cleared.dom().contains(marker));
    lemma_put_framed(cleared, marker, content);
    lemma_put_housed(cleared, marker, content);
    let again = put(cleared, marker, content).tree;
    assert(newtype_variant_begun(u, p, name).tree == again);
    assert(newtype_variant_begun(u, p, name).failure is None);
    assert forall|q: Seq<Seq<char>>| !payload.is_prefix_of(q) implies #[trigger] same_at(
        again,
        u,
        q,
    ) by {
        if q == marker {
        } else if marker.is_prefix_of(q) {
            assert(again.dom().contains(q) <==> q == marker);
            lemma_nothing_beneath(u, marker, q);
        } else {
            lemma_framed_housed(cleared, again, marker, q);
            assert(same_at(cleared, u, q));
        }
    }
    assert forall|q: Seq<Seq<char>>| payload.is_prefix_of(q) implies #[trigger] same_at(
        again,
        b,
        q,
    ) by {
        lemma_children_apart(p, variant_name(), value_name(), q);
        assert(same_at(cleared, again, q));
        if q != payload {
            lemma_nothing_beneath(b, payload, q);
        }
    }
    assert(is_dir(again, p));
    lemma_encode_local(again, b, payload, inner);
    lemma_encode_framed(again, payload, inner);
    let second = encode(again, payload, inner).tree;
    lemma_agrees_narrow(u, last, p, value_name());
    assert forall|q: Seq<Seq<char>>| #[trigger] same_at(second, u, q) by {
        if payload.is_prefix_of(q) {
            assert(same_at(second, last, q));
            assert(same_at(u, last, q));
        } else {
            lemma_framed_housed(again, second, payload, q);
            assert(same_at(again, u, q));
        }
    }
    lemma_same_everywhere(second, u);
}

/// Idempotence: once `v` was encoded at `p`, encoding `v` at `p` again
/// succeeds and leaves the tree as it is.
pub proof fn law_encode_twice(t: TreeView, p: Seq<Seq<char>>, v: ValueView)
    requires
        well_formed(t),
        encode(t, p, v).failure is None,
        tidy(v),
    ensures
        encode(encode(t, p, v).tree, p, v) == done(encode(t, p, v).tree),
{
    let u = encode(t, p, v).tree;
    lemma_encode_framed(t, p, v);
    assert forall|q: Seq<Seq<char>>| p.is_prefix_of(q) implies #[trigger] same_at(u, u, q) by {}
    lemma_encode_again(t, u, p, v);
}

/// After a value was encoded twice at `p`, decoding at `p` with the shape
/// of the value gives the value.
pub proof fn law_encode_twice_round_trip(
    fs: FileTree,
    t: TreeView,
    p: Seq<Seq<char>>,
    v: ValueView,
    s: ShapeView,
)
    requires
        well_formed(t),
        encode(t, p, v).failure is None,
        tidy(v),
        conforms(v, s),
        fs@ == encode(encode(t, p, v).tree, p, v).tree,
    ensures
        crate::de::decode(fs, p, s) == Ok::<ValueView, crate::de::ErrorView>(v),
{
    law_encode_twice(t, p, v);
    law_round_trip(fs, t, p, v, s);
}

} // verus!
