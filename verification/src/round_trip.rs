//! A value that was written is read back: the proof, shape by shape.

use crate::de::{
    decode, decode_elements, decode_fields, decode_tuple, decode_tuple_items, discriminant,
    element_present, extent, first_among, is_extent, lemma_extent, names_of, read_bytes, read_text,
    ErrorView,
};
use crate::laws::{
    apart, lemma_children_apart, lemma_encode_framed, lemma_fields_framed, lemma_fields_succeed,
    lemma_fields_untouched, lemma_items_framed, lemma_items_succeed, lemma_items_untouched,
    lemma_map_begun_framed, lemma_marker_name, lemma_newtype_variant_begun_framed,
    lemma_parent_prefix, lemma_put_framed, lemma_self_prefix, lemma_seq_begun_framed,
    lemma_struct_variant_begun_framed, lemma_tuple_variant_begun_framed, same_at,
};
use crate::path::{index_name, value_name, variant_name};
use crate::ser::{
    encode, encode_fields, encode_items, map_begun, newtype_variant_begun, put, seq_begun,
    struct_variant_begun, tuple_variant_begun, under_index,
};
use crate::text::{bool_text, decimal_text};
use crate::tree::{is_dir, well_formed, FileTree, NodeView, TreeView};
use crate::value::{ShapeView, ValueView};
use vstd::prelude::*;
use vstd::utf8::encode_utf8;

verus! {

/// Whether the encoding of `v` leaves a node: an absent value leaves none,
/// and neither does what only wraps one.
pub open spec fn solid(v: ValueView) -> bool
    decreases v,
{
    match v {
        ValueView::Absent => false,
        ValueView::Present(inner) => solid(*inner),
        ValueView::Newtype(inner) => solid(*inner),
        _ => true,
    }
}

/// Whether the names of `fields` are distinct.
pub open spec fn distinct_names(fields: Seq<(Seq<char>, ValueView)>) -> bool {
    forall|i: int, j: int|
        0 <= i < fields.len() && 0 <= j < fields.len() && i != j ==> (#[trigger] fields[i]).0
            != (#[trigger] fields[j]).0
}

/// The shape that `variants` gives for the variant called `name`: that of
/// the first variant with that name.
pub open spec fn payload_shape(variants: Seq<(Seq<char>, ShapeView)>, name: Seq<char>) -> Option<
    ShapeView,
> {
    match first_among(names_of(variants), name, variants.len()) {
        Some(i) => if i < variants.len() {
            Some(variants[i as int].1)
        } else {
            None
        },
        None => None,
    }
}

/// Whether `v` is a value of the shape `s` that can be read back as it was
/// written. That leaves out: a character that is not ASCII, of which one
/// byte is read; a present value, or an element, that leaves no node; a
/// struct with two fields of one name, or with a field called like the
/// marker file of a variant; and a map, whose entries come back in the
/// order in which the directory lists them.
pub open spec fn conforms(v: ValueView, s: ShapeView) -> bool
    decreases v,
{
    match v {
        ValueView::Bool(_) => s is Bool,
        ValueView::Int(kind, n) => s == ShapeView::Int(kind) && kind.min() <= n <= kind.max(),
        ValueView::Char(c) => s is Char && (c as int) < 128,
        ValueView::Text(_) => s is Text,
        ValueView::Bytes(_) => s is Bytes,
        ValueView::Unit => s is Unit,
        ValueView::Absent => s is Optional,
        ValueView::Present(inner) => s matches ShapeView::Optional(shape) && solid(*inner)
            && conforms(*inner, *shape),
        ValueView::Newtype(inner) => s matches ShapeView::Newtype(shape) && conforms(
            *inner,
            *shape,
        ),
        ValueView::Sequence(items) => s matches ShapeView::Sequence(shape) && items.len()
            <= usize::MAX && (forall|i: int|
            0 <= i < items.len() ==> solid(#[trigger] items[i]) && conforms(items[i], *shape)),
        ValueView::Tuple(items) => s matches ShapeView::Tuple(shapes) && tuple_conforms(
            items,
            shapes,
        ),
        ValueView::Mapping(_) => false,
        ValueView::Record(fields) => s matches ShapeView::Record(shapes) && record_conforms(
            fields,
            shapes,
        ),
        ValueView::UnitVariant(name) => s matches ShapeView::Enum(variants) && payload_shape(
            variants,
            name,
        ) == Some(ShapeView::Unit),
        ValueView::NewtypeVariant(name, inner) => s matches ShapeView::Enum(variants)
            && (payload_shape(variants, name) matches Some(ShapeView::Newtype(shape)) && conforms(
            *inner,
            *shape,
        )),
        ValueView::TupleVariant(name, items) => s matches ShapeView::Enum(variants)
            && (payload_shape(variants, name) matches Some(ShapeView::Tuple(shapes))
            && tuple_conforms(items, shapes)),
        ValueView::StructVariant(name, fields) => s matches ShapeView::Enum(variants)
            && (payload_shape(variants, name) matches Some(ShapeView::Record(shapes))
            && record_conforms(fields, shapes) && (forall|i: int|
            0 <= i < fields.len() ==> (#[trigger] fields[i]).0 != variant_name())),
    }
}

/// Whether the elements `items` are of the shapes `shapes`, one each, and
/// each leaves a node.
pub open spec fn tuple_conforms(items: Seq<ValueView>, shapes: Seq<ShapeView>) -> bool
    decreases items,
{
    &&& items.len() == shapes.len()
    &&& items.len() <= usize::MAX
    &&& forall|i: int|
        0 <= i < items.len() ==> solid(#[trigger] items[i]) && conforms(items[i], shapes[i])
}

/// Whether the fields `fields` are those of `shapes`, name by name, each
/// value of its shape, and no name occurs twice.
pub open spec fn record_conforms(
    fields: Seq<(Seq<char>, ValueView)>,
    shapes: Seq<(Seq<char>, ShapeView)>,
) -> bool
    decreases fields,
{
    &&& fields.len() == shapes.len()
    &&& distinct_names(fields)
    &&& forall|i: int|
        0 <= i < fields.len() ==> (#[trigger] fields[i]).0 == shapes[i].0 && conforms(
            fields[i].1,
            shapes[i].1,
        )
}

/// Whether the two trees hold the same at `p` and everywhere beneath it.
pub open spec fn agrees_under(a: TreeView, b: TreeView, p: Seq<Seq<char>>) -> bool {
    forall|q: Seq<Seq<char>>| p.is_prefix_of(q) ==> #[trigger] same_at(a, b, q)
}

/// A value that leaves a node leaves it at the path where it was written.
pub proof fn lemma_solid_present(t: TreeView, p: Seq<Seq<char>>, v: ValueView)
    requires
        well_formed(t),
        solid(v),
        encode(t, p, v).failure is None,
    ensures
        encode(t, p, v).tree.dom().contains(p),
    decreases v,
{
    match v {
        ValueView::Bool(b) => {
            lemma_put_framed(t, p, encode_utf8(bool_text(b)));
        },
        ValueView::Int(_, n) => {
            lemma_put_framed(t, p, encode_utf8(decimal_text(n)));
        },
        ValueView::Char(c) => {
            lemma_put_framed(t, p, encode_utf8(seq![c]));
        },
        ValueView::Text(s) => {
            lemma_put_framed(t, p, encode_utf8(s));
        },
        ValueView::Bytes(b) => {
            lemma_put_framed(t, p, b);
        },
        ValueView::Unit => {
            lemma_put_framed(t, p, Seq::empty());
        },
        ValueView::Absent => {},
        ValueView::Present(inner) => {
            lemma_solid_present(t, p, *inner);
        },
        ValueView::Newtype(inner) => {
            lemma_solid_present(t, p, *inner);
        },
        ValueView::Sequence(items) => {
            lemma_seq_begun_framed(t, p);
            lemma_items_framed(seq_begun(t, p).tree, p, items, items.len());
        },
        ValueView::Tuple(items) => {
            lemma_seq_begun_framed(t, p);
            lemma_items_framed(seq_begun(t, p).tree, p, items, items.len());
        },
        ValueView::Mapping(entries) => {
            lemma_map_begun_framed(t, p);
            crate::laws::lemma_entries_framed(map_begun(t, p).tree, p, entries, entries.len());
        },
        ValueView::Record(fields) => {
            lemma_map_begun_framed(t, p);
            lemma_fields_framed(map_begun(t, p).tree, p, fields, fields.len());
        },
        ValueView::UnitVariant(name) => {
            lemma_put_framed(t, p, encode_utf8(name));
        },
        ValueView::NewtypeVariant(name, inner) => {
            lemma_newtype_variant_begun_framed(t, p, name);
            let begun = newtype_variant_begun(t, p, name).tree;
            lemma_encode_framed(begun, p.push(value_name()), *inner);
            lemma_parent_prefix(p, value_name());
            assert(is_dir(encode(begun, p.push(value_name()), *inner).tree, p));
        },
        ValueView::TupleVariant(name, items) => {
            lemma_tuple_variant_begun_framed(t, p, name);
            lemma_items_framed(tuple_variant_begun(t, p, name).tree, p, items, items.len());
        },
        ValueView::StructVariant(name, fields) => {
            lemma_struct_variant_begun_framed(t, p, name);
            lemma_fields_framed(struct_variant_begun(t, p, name).tree, p, fields, fields.len());
        },
    }
}

/// Trees that agree under a path agree under each of its children.
pub proof fn lemma_agrees_narrow(a: TreeView, b: TreeView, p: Seq<Seq<char>>, name: Seq<char>)
    requires
        agrees_under(a, b, p),
    ensures
        agrees_under(a, b, p.push(name)),
{
    assert forall|q: Seq<Seq<char>>| p.push(name).is_prefix_of(q) implies #[trigger] same_at(
        a,
        b,
        q,
    ) by {
        crate::tree::lemma_prefix_push(p, name, q);
    }
}

/// A leaf that was written is found as a file with its content.
pub proof fn lemma_leaf_read(fs: FileTree, t: TreeView, p: Seq<Seq<char>>, content: Seq<u8>)
    requires
        well_formed(t),
        put(t, p, content).failure is None,
        agrees_under(fs@, put(t, p, content).tree, p),
    ensures
        fs@.dom().contains(p),
        fs@[p] == NodeView::File(content),
        read_bytes(fs@, p) == Ok::<Seq<u8>, ErrorView>(content),
{
    lemma_put_framed(t, p, content);
    lemma_self_prefix(p);
    assert(same_at(fs@, put(t, p, content).tree, p));
}

/// A text that was written is found as it was.
pub proof fn lemma_text_read(fs: FileTree, t: TreeView, p: Seq<Seq<char>>, text: Seq<char>)
    requires
        well_formed(t),
        put(t, p, encode_utf8(text)).failure is None,
        agrees_under(fs@, put(t, p, encode_utf8(text)).tree, p),
    ensures
        fs@.dom().contains(p),
        !is_dir(fs@, p),
        read_text(fs@, p) == Ok::<Seq<char>, ErrorView>(text),
{
    lemma_leaf_read(fs, t, p, encode_utf8(text));
    vstd::utf8::encode_utf8_valid_utf8(text);
    vstd::utf8::encode_utf8_decode_utf8(text);
}

/// The elements that were written into a directory cleared of elements are
/// exactly the elements found there.
pub proof fn lemma_extent_written(
    fs: FileTree,
    b: TreeView,
    p: Seq<Seq<char>>,
    items: Seq<ValueView>,
)
    requires
        well_formed(b),
        forall|q: Seq<Seq<char>>| under_index(p, q) ==> !b.dom().contains(q),
        items.len() <= usize::MAX,
        forall|i: int| 0 <= i < items.len() ==> solid(#[trigger] items[i]),
        encode_items(b, p, items, items.len()).failure is None,
        agrees_under(fs@, encode_items(b, p, items, items.len()).tree, p),
    ensures
        is_extent(fs@, p, items.len()),
        extent(fs@, p) == items.len(),
{
    let n = items.len();
    let last = encode_items(b, p, items, n).tree;
    assert forall|m: nat| m < n implies #[trigger] element_present(fs@, p, m) by {
        let child = p.push(index_name(m));
        let before = encode_items(b, p, items, m);
        lemma_items_succeed(b, p, items, m, n);
        lemma_items_succeed(b, p, items, m + 1, n);
        lemma_items_framed(b, p, items, m);
        lemma_solid_present(before.tree, child, items[m as int]);
        lemma_self_prefix(child);
        assert forall|j: nat| m + 1 <= j < n implies apart(
            #[trigger] p.push(index_name(j)),
            child,
        ) by {
            crate::de::lemma_index_names_differ(j, m);
            lemma_children_apart(p, index_name(j), index_name(m), child);
        }
        lemma_items_untouched(b, p, items, m + 1, n, child);
        lemma_parent_prefix(p, index_name(m));
        assert(same_at(fs@, last, child));
    }
    let beyond = p.push(index_name(n));
    lemma_self_prefix(beyond);
    lemma_parent_prefix(p, index_name(n));
    crate::text::lemma_parse_decimal_text(n as int, false, 0, usize::MAX as int);
    assert(under_index(p, beyond));
    assert forall|j: nat| 0 <= j < n implies apart(#[trigger] p.push(index_name(j)), beyond) by {
        crate::de::lemma_index_names_differ(j, n);
        lemma_children_apart(p, index_name(j), index_name(n), beyond);
    }
    lemma_items_untouched(b, p, items, 0, n, beyond);
    assert(same_at(fs@, last, beyond));
    assert(!element_present(fs@, p, n));
    lemma_extent(fs@, p, n);
}

/// A value that was written is read back: where `v` was encoded at `p`, and
/// the tree agrees at and under `p` with what the encoding left, the
/// decoding at `p` with the shape of `v` gives `v`.
pub proof fn lemma_round_trip(
    fs: FileTree,
    t: TreeView,
    p: Seq<Seq<char>>,
    v: ValueView,
    s: ShapeView,
)
    requires
        well_formed(t),
        encode(t, p, v).failure is None,
        conforms(v, s),
        agrees_under(fs@, encode(t, p, v).tree, p),
    ensures
        decode(fs, p, s) == Ok::<ValueView, ErrorView>(v),
    decreases v, 1nat,
{
    match v {
        ValueView::Bool(b) => {
            lemma_round_trip_bool(fs, t, p, v, s);
        },
        ValueView::Int(kind, n) => {
            lemma_round_trip_int(fs, t, p, v, s);
        },
        ValueView::Char(c) => {
            lemma_round_trip_char(fs, t, p, v, s);
        },
        ValueView::Text(text) => {
            lemma_round_trip_text(fs, t, p, v, s);
        },
        ValueView::Bytes(b) => {
            lemma_round_trip_bytes(fs, t, p, v, s);
        },
        ValueView::Unit => {
            lemma_round_trip_unit(fs, t, p, v, s);
        },
        ValueView::Absent => {
            lemma_round_trip_absent(fs, t, p, v, s);
        },
        ValueView::Present(inner) => {
            lemma_round_trip_present(fs, t, p, v, s);
        },
        ValueView::Newtype(inner) => {
            lemma_round_trip_newtype(fs, t, p, v, s);
        },
        ValueView::Sequence(items) => {
            lemma_round_trip_sequence(fs, t, p, v, s);
        },
        ValueView::Tuple(items) => {
            lemma_round_trip_tuple(fs, t, p, v, s);
        },
        ValueView::Mapping(_) => {},
        ValueView::Record(fields) => {
            lemma_round_trip_record(fs, t, p, v, s);
        },
        ValueView::UnitVariant(name) => {
            lemma_round_trip_unit_variant(fs, t, p, v, s);
        },
        ValueView::NewtypeVariant(name, inner) => {
            lemma_round_trip_newtype_variant(fs, t, p, v, s);
        },
        ValueView::TupleVariant(name, items) => {
            lemma_round_trip_tuple_variant(fs, t, p, v, s);
        },
        ValueView::StructVariant(name, fields) => {
            lemma_round_trip_struct_variant(fs, t, p, v, s);
        },
    }
}

/// A boolean that was written is read back.
pub proof fn lemma_round_trip_bool(
    fs: FileTree,
    t: TreeView,
    p: Seq<Seq<char>>,
    v: ValueView,
    s: ShapeView,
)
    requires
        well_formed(t),
        encode(t, p, v).failure is None,
        conforms(v, s),
        agrees_under(fs@, encode(t, p, v).tree, p),
        v is Bool,
    ensures
        decode(fs, p, s) == Ok::<ValueView, ErrorView>(v),
    decreases v, 0nat,
{
    lemma_self_prefix(p);
    let b = v->Bool_0;

    lemma_text_read(fs, t, p, bool_text(b));
    crate::text::lemma_parse_bool_text(b);

}

/// An integer that was written is read back.
pub proof fn lemma_round_trip_int(
    fs: FileTree,
    t: TreeView,
    p: Seq<Seq<char>>,
    v: ValueView,
    s: ShapeView,
)
    requires
        well_formed(t),
        encode(t, p, v).failure is None,
        conforms(v, s),
        agrees_under(fs@, encode(t, p, v).tree, p),
        v is Int,
    ensures
        decode(fs, p, s) == Ok::<ValueView, ErrorView>(v),
    decreases v, 0nat,
{
    lemma_self_prefix(p);
    let kind = v->Int_0;
    let n = v->Int_1;

    lemma_text_read(fs, t, p, decimal_text(n));
    crate::text::lemma_trimmed_decimal_text(n);
    crate::text::lemma_parse_decimal_text(n, kind.signed(), kind.min(), kind.max());

}

/// An ASCII character that was written is read back.
pub proof fn lemma_round_trip_char(
    fs: FileTree,
    t: TreeView,
    p: Seq<Seq<char>>,
    v: ValueView,
    s: ShapeView,
)
    requires
        well_formed(t),
        encode(t, p, v).failure is None,
        conforms(v, s),
        agrees_under(fs@, encode(t, p, v).tree, p),
        v is Char,
    ensures
        decode(fs, p, s) == Ok::<ValueView, ErrorView>(v),
    decreases v, 0nat,
{
    lemma_self_prefix(p);
    let c = v->Char_0;

    lemma_leaf_read(fs, t, p, encode_utf8(seq![c]));
    let chars = seq![c];
    assert(vstd::utf8::is_ascii_chars(chars));
    vstd::utf8::is_ascii_chars_encode_utf8(chars);
    assert(encode_utf8(chars)[0] == c as u8);

}

/// A text that was written is read back.
pub proof fn lemma_round_trip_text(
    fs: FileTree,
    t: TreeView,
    p: Seq<Seq<char>>,
    v: ValueView,
    s: ShapeView,
)
    requires
        well_formed(t),
        encode(t, p, v).failure is None,
        conforms(v, s),
        agrees_under(fs@, encode(t, p, v).tree, p),
        v is Text,
    ensures
        decode(fs, p, s) == Ok::<ValueView, ErrorView>(v),
    decreases v, 0nat,
{
    lemma_self_prefix(p);
    let text = v->Text_0;

    lemma_text_read(fs, t, p, text);

}

/// Bytes that was written is read back.
pub proof fn lemma_round_trip_bytes(
    fs: FileTree,
    t: TreeView,
    p: Seq<Seq<char>>,
    v: ValueView,
    s: ShapeView,
)
    requires
        well_formed(t),
        encode(t, p, v).failure is None,
        conforms(v, s),
        agrees_under(fs@, encode(t, p, v).tree, p),
        v is Bytes,
    ensures
        decode(fs, p, s) == Ok::<ValueView, ErrorView>(v),
    decreases v, 0nat,
{
    lemma_self_prefix(p);
    let b = v->Bytes_0;

    lemma_leaf_read(fs, t, p, b);

}

/// The unit value that was written is read back.
pub proof fn lemma_round_trip_unit(
    fs: FileTree,
    t: TreeView,
    p: Seq<Seq<char>>,
    v: ValueView,
    s: ShapeView,
)
    requires
        well_formed(t),
        encode(t, p, v).failure is None,
        conforms(v, s),
        agrees_under(fs@, encode(t, p, v).tree, p),
        v is Unit,
    ensures
        decode(fs, p, s) == Ok::<ValueView, ErrorView>(v),
    decreases v, 0nat,
{
    lemma_self_prefix(p);

    lemma_leaf_read(fs, t, p, Seq::empty());

}

/// An absent value that was written is read back.
pub proof fn lemma_round_trip_absent(
    fs: FileTree,
    t: TreeView,
    p: Seq<Seq<char>>,
    v: ValueView,
    s: ShapeView,
)
    requires
        well_formed(t),
        encode(t, p, v).failure is None,
        conforms(v, s),
        agrees_under(fs@, encode(t, p, v).tree, p),
        v is Absent,
    ensures
        decode(fs, p, s) == Ok::<ValueView, ErrorView>(v),
    decreases v, 0nat,
{
    lemma_self_prefix(p);

    assert(same_at(fs@, encode(t, p, v).tree, p));

}

/// A present value that was written is read back.
pub proof fn lemma_round_trip_present(
    fs: FileTree,
    t: TreeView,
    p: Seq<Seq<char>>,
    v: ValueView,
    s: ShapeView,
)
    requires
        well_formed(t),
        encode(t, p, v).failure is None,
        conforms(v, s),
        agrees_under(fs@, encode(t, p, v).tree, p),
        v is Present,
    ensures
        decode(fs, p, s) == Ok::<ValueView, ErrorView>(v),
    decreases v, 0nat,
{
    lemma_self_prefix(p);
    let inner = v->Present_0;

    lemma_solid_present(t, p, *inner);
    assert(same_at(fs@, encode(t, p, v).tree, p));
    lemma_round_trip(fs, t, p, *inner, *s->Optional_0);

}

/// A wrapped value that was written is read back.
pub proof fn lemma_round_trip_newtype(
    fs: FileTree,
    t: TreeView,
    p: Seq<Seq<char>>,
    v: ValueView,
    s: ShapeView,
)
    requires
        well_formed(t),
        encode(t, p, v).failure is None,
        conforms(v, s),
        agrees_under(fs@, encode(t, p, v).tree, p),
        v is Newtype,
    ensures
        decode(fs, p, s) == Ok::<ValueView, ErrorView>(v),
    decreases v, 0nat,
{
    lemma_self_prefix(p);
    let inner = v->Newtype_0;

    lemma_round_trip(fs, t, p, *inner, *s->Newtype_0);

}

/// A sequence that was written is read back.
pub proof fn lemma_round_trip_sequence(
    fs: FileTree,
    t: TreeView,
    p: Seq<Seq<char>>,
    v: ValueView,
    s: ShapeView,
)
    requires
        well_formed(t),
        encode(t, p, v).failure is None,
        conforms(v, s),
        agrees_under(fs@, encode(t, p, v).tree, p),
        v is Sequence,
    ensures
        decode(fs, p, s) == Ok::<ValueView, ErrorView>(v),
    decreases v, 0nat,
{
    lemma_self_prefix(p);
    let items = v->Sequence_0;

    lemma_seq_begun_framed(t, p);
    let b = seq_begun(t, p).tree;
    lemma_extent_written(fs, b, p, items);
    lemma_elements_read(fs, b, p, items, *s->Sequence_0, items.len());
    assert(items.take(items.len() as int) =~= items);

}

/// A tuple that was written is read back.
pub proof fn lemma_round_trip_tuple(
    fs: FileTree,
    t: TreeView,
    p: Seq<Seq<char>>,
    v: ValueView,
    s: ShapeView,
)
    requires
        well_formed(t),
        encode(t, p, v).failure is None,
        conforms(v, s),
        agrees_under(fs@, encode(t, p, v).tree, p),
        v is Tuple,
    ensures
        decode(fs, p, s) == Ok::<ValueView, ErrorView>(v),
    decreases v, 0nat,
{
    reveal_with_fuel(conforms, 2);
    reveal_with_fuel(tuple_conforms, 2);
    lemma_self_prefix(p);
    let items = v->Tuple_0;

    lemma_seq_begun_framed(t, p);
    let b = seq_begun(t, p).tree;
    lemma_extent_written(fs, b, p, items);
    lemma_tuple_read(fs, b, p, items, s->Tuple_0, items.len());
    assert(items.take(items.len() as int) =~= items);
    assert(decode_tuple(fs, p, s->Tuple_0) == Ok::<Seq<ValueView>, ErrorView>(items));

}

/// A struct that was written is read back.
pub proof fn lemma_round_trip_record(
    fs: FileTree,
    t: TreeView,
    p: Seq<Seq<char>>,
    v: ValueView,
    s: ShapeView,
)
    requires
        well_formed(t),
        encode(t, p, v).failure is None,
        conforms(v, s),
        agrees_under(fs@, encode(t, p, v).tree, p),
        v is Record,
    ensures
        decode(fs, p, s) == Ok::<ValueView, ErrorView>(v),
    decreases v, 0nat,
{
    reveal_with_fuel(conforms, 2);
    reveal_with_fuel(record_conforms, 2);
    lemma_self_prefix(p);
    let fields = v->Record_0;

    lemma_map_begun_framed(t, p);
    let b = map_begun(t, p).tree;
    lemma_fields_read(fs, b, p, fields, s->Record_0, fields.len());
    assert(fields.take(fields.len() as int) =~= fields);

}

/// A variant without payload that was written is read back.
pub proof fn lemma_round_trip_unit_variant(
    fs: FileTree,
    t: TreeView,
    p: Seq<Seq<char>>,
    v: ValueView,
    s: ShapeView,
)
    requires
        well_formed(t),
        encode(t, p, v).failure is None,
        conforms(v, s),
        agrees_under(fs@, encode(t, p, v).tree, p),
        v is UnitVariant,
    ensures
        decode(fs, p, s) == Ok::<ValueView, ErrorView>(v),
    decreases v, 0nat,
{
    lemma_self_prefix(p);
    let name = v->UnitVariant_0;

    lemma_text_read(fs, t, p, name);

}

/// A newtype variant that was written is read back.
pub proof fn lemma_round_trip_newtype_variant(
    fs: FileTree,
    t: TreeView,
    p: Seq<Seq<char>>,
    v: ValueView,
    s: ShapeView,
)
    requires
        well_formed(t),
        encode(t, p, v).failure is None,
        conforms(v, s),
        agrees_under(fs@, encode(t, p, v).tree, p),
        v is NewtypeVariant,
    ensures
        decode(fs, p, s) == Ok::<ValueView, ErrorView>(v),
    decreases v, 0nat,
{
    lemma_self_prefix(p);
    let name = v->NewtypeVariant_0;
    let inner = v->NewtypeVariant_1;

    let variants = s->Enum_0;
    let shape = payload_shape(variants, name)->Some_0->Newtype_0;
    lemma_newtype_variant_begun_framed(t, p, name);
    let b = newtype_variant_begun(t, p, name).tree;
    let payload = p.push(value_name());
    let marker = p.push(variant_name());
    let last = encode(b, payload, *inner).tree;
    lemma_encode_framed(b, payload, *inner);
    lemma_parent_prefix(p, value_name());
    lemma_parent_prefix(p, variant_name());
    lemma_marker_name();
    lemma_self_prefix(marker);
    lemma_children_apart(p, value_name(), variant_name(), marker);
    assert(is_dir(last, p));
    assert(same_at(b, last, marker));
    assert(same_at(fs@, last, p));
    assert(same_at(fs@, last, marker));
    vstd::utf8::encode_utf8_valid_utf8(name);
    vstd::utf8::encode_utf8_decode_utf8(name);
    assert(discriminant(fs@, p) == Ok::<Seq<char>, ErrorView>(name));
    lemma_agrees_narrow(fs@, last, p, value_name());
    lemma_round_trip(fs, b, payload, *inner, *shape);

}

/// A tuple variant that was written is read back.
pub proof fn lemma_round_trip_tuple_variant(
    fs: FileTree,
    t: TreeView,
    p: Seq<Seq<char>>,
    v: ValueView,
    s: ShapeView,
)
    requires
        well_formed(t),
        encode(t, p, v).failure is None,
        conforms(v, s),
        agrees_under(fs@, encode(t, p, v).tree, p),
        v is TupleVariant,
    ensures
        decode(fs, p, s) == Ok::<ValueView, ErrorView>(v),
    decreases v, 0nat,
{
    reveal_with_fuel(conforms, 2);
    reveal_with_fuel(tuple_conforms, 2);
    lemma_self_prefix(p);
    let name = v->TupleVariant_0;
    let items = v->TupleVariant_1;

    let variants = s->Enum_0;
    let shapes = payload_shape(variants, name)->Some_0->Tuple_0;
    lemma_tuple_variant_begun_framed(t, p, name);
    let b = tuple_variant_begun(t, p, name).tree;
    let marker = p.push(variant_name());
    let last = encode_items(b, p, items, items.len()).tree;
    lemma_items_framed(b, p, items, items.len());
    lemma_parent_prefix(p, variant_name());
    lemma_marker_name();
    lemma_self_prefix(marker);
    assert forall|j: nat| 0 <= j < items.len() implies apart(
        #[trigger] p.push(index_name(j)),
        marker,
    ) by {
        crate::text::lemma_parse_decimal_text(j as int, false, 0, usize::MAX as int);
        lemma_children_apart(p, index_name(j), variant_name(), marker);
    }
    lemma_items_untouched(b, p, items, 0, items.len(), marker);
    assert(same_at(fs@, last, p));
    assert(same_at(fs@, last, marker));
    vstd::utf8::encode_utf8_valid_utf8(name);
    vstd::utf8::encode_utf8_decode_utf8(name);
    assert(discriminant(fs@, p) == Ok::<Seq<char>, ErrorView>(name));
    lemma_extent_written(fs, b, p, items);
    lemma_tuple_read(fs, b, p, items, shapes, items.len());
    assert(items.take(items.len() as int) =~= items);
    assert(decode_tuple(fs, p, shapes) == Ok::<Seq<ValueView>, ErrorView>(items));

}

/// A struct variant that was written is read back.
pub proof fn lemma_round_trip_struct_variant(
    fs: FileTree,
    t: TreeView,
    p: Seq<Seq<char>>,
    v: ValueView,
    s: ShapeView,
)
    requires
        well_formed(t),
        encode(t, p, v).failure is None,
        conforms(v, s),
        agrees_under(fs@, encode(t, p, v).tree, p),
        v is StructVariant,
    ensures
        decode(fs, p, s) == Ok::<ValueView, ErrorView>(v),
    decreases v, 0nat,
{
    reveal_with_fuel(conforms, 2);
    reveal_with_fuel(record_conforms, 2);
    lemma_self_prefix(p);
    let name = v->StructVariant_0;
    let fields = v->StructVariant_1;

    let variants = s->Enum_0;
    let shapes = payload_shape(variants, name)->Some_0->Record_0;
    lemma_struct_variant_begun_framed(t, p, name);
    let b = struct_variant_begun(t, p, name).tree;
    let marker = p.push(variant_name());
    let last = encode_fields(b, p, fields, fields.len()).tree;
    lemma_fields_framed(b, p, fields, fields.len());
    lemma_parent_prefix(p, variant_name());
    lemma_self_prefix(marker);
    assert forall|j: int| 0 <= j < fields.len() implies apart(
        p.push((#[trigger] fields[j]).0),
        marker,
    ) by {
        lemma_children_apart(p, fields[j].0, variant_name(), marker);
    }
    lemma_fields_untouched(b, p, fields, 0, fields.len(), marker);
    assert(same_at(fs@, last, p));
    assert(same_at(fs@, last, marker));
    vstd::utf8::encode_utf8_valid_utf8(name);
    vstd::utf8::encode_utf8_decode_utf8(name);
    assert(discriminant(fs@, p) == Ok::<Seq<char>, ErrorView>(name));
    lemma_fields_read(fs, b, p, fields, shapes, fields.len());
    assert(fields.take(fields.len() as int) =~= fields);

}

/// The first `k` elements of a sequence that was written are read back.
pub proof fn lemma_elements_read(
    fs: FileTree,
    b: TreeView,
    p: Seq<Seq<char>>,
    items: Seq<ValueView>,
    shape: ShapeView,
    k: nat,
)
    requires
        well_formed(b),
        forall|i: int| 0 <= i < items.len() ==> conforms(#[trigger] items[i], shape),
        encode_items(b, p, items, items.len()).failure is None,
        agrees_under(fs@, encode_items(b, p, items, items.len()).tree, p),
        k <= items.len(),
    ensures
        decode_elements(fs, p, shape, k) == Ok::<Seq<ValueView>, ErrorView>(items.take(k as int)),
    decreases items, k,
{
    if k == 0 {
        assert(items.take(0) =~= Seq::<ValueView>::empty());
    } else {
        lemma_elements_read(fs, b, p, items, shape, (k - 1) as nat);
        let i = (k - 1) as nat;
        lemma_item_agrees(fs@, b, p, items, i);
        lemma_items_framed(b, p, items, i);
        lemma_items_succeed(b, p, items, i + 1, items.len());
        lemma_round_trip(
            fs,
            encode_items(b, p, items, i).tree,
            p.push(index_name(i)),
            items[i as int],
            shape,
        );
        assert(items.take(k as int) =~= items.take(i as int).push(items[i as int]));
    }
}

/// The first `k` elements of a tuple that was written are read back.
pub proof fn lemma_tuple_read(
    fs: FileTree,
    b: TreeView,
    p: Seq<Seq<char>>,
    items: Seq<ValueView>,
    shapes: Seq<ShapeView>,
    k: nat,
)
    requires
        well_formed(b),
        items.len() == shapes.len(),
        forall|i: int| 0 <= i < items.len() ==> conforms(#[trigger] items[i], shapes[i]),
        encode_items(b, p, items, items.len()).failure is None,
        agrees_under(fs@, encode_items(b, p, items, items.len()).tree, p),
        k <= items.len(),
    ensures
        decode_tuple_items(fs, p, shapes, k) == Ok::<Seq<ValueView>, ErrorView>(
            items.take(k as int),
        ),
    decreases items, k,
{
    if k == 0 {
        assert(items.take(0) =~= Seq::<ValueView>::empty());
    } else {
        lemma_tuple_read(fs, b, p, items, shapes, (k - 1) as nat);
        let i = (k - 1) as nat;
        lemma_item_agrees(fs@, b, p, items, i);
        lemma_items_framed(b, p, items, i);
        lemma_items_succeed(b, p, items, i + 1, items.len());
        lemma_round_trip(
            fs,
            encode_items(b, p, items, i).tree,
            p.push(index_name(i)),
            items[i as int],
            shapes[i as int],
        );
        assert(items.take(k as int) =~= items.take(i as int).push(items[i as int]));
    }
}

/// What the tree holds under element `i` is what the writing of element `i`
/// left there: the elements after it lie apart.
pub proof fn lemma_item_agrees(
    a: TreeView,
    b: TreeView,
    p: Seq<Seq<char>>,
    items: Seq<ValueView>,
    i: nat,
)
    requires
        well_formed(b),
        i < items.len(),
        agrees_under(a, encode_items(b, p, items, items.len()).tree, p),
    ensures
        agrees_under(a, encode_items(b, p, items, i + 1).tree, p.push(index_name(i))),
{
    let child = p.push(index_name(i));
    let n = items.len();
    assert forall|q: Seq<Seq<char>>| child.is_prefix_of(q) implies #[trigger] same_at(
        a,
        encode_items(b, p, items, i + 1).tree,
        q,
    ) by {
        crate::tree::lemma_prefix_push(p, index_name(i), q);
        assert(same_at(a, encode_items(b, p, items, n).tree, q));
        assert forall|j: nat| i + 1 <= j < n implies apart(#[trigger] p.push(index_name(j)), q) by {
            crate::de::lemma_index_names_differ(j, i);
            lemma_children_apart(p, index_name(j), index_name(i), q);
        }
        lemma_items_untouched(b, p, items, i + 1, n, q);
    }
}

/// What the tree holds under field `i` is what the writing of field `i`
/// left there: the fields after it have other names and lie apart.
pub proof fn lemma_field_agrees(
    a: TreeView,
    b: TreeView,
    p: Seq<Seq<char>>,
    fields: Seq<(Seq<char>, ValueView)>,
    i: nat,
)
    requires
        well_formed(b),
        i < fields.len(),
        distinct_names(fields),
        agrees_under(a, encode_fields(b, p, fields, fields.len()).tree, p),
    ensures
        agrees_under(a, encode_fields(b, p, fields, i + 1).tree, p.push(fields[i as int].0)),
{
    let child = p.push(fields[i as int].0);
    let n = fields.len();
    assert forall|q: Seq<Seq<char>>| child.is_prefix_of(q) implies #[trigger] same_at(
        a,
        encode_fields(b, p, fields, i + 1).tree,
        q,
    ) by {
        crate::tree::lemma_prefix_push(p, fields[i as int].0, q);
        assert(same_at(a, encode_fields(b, p, fields, n).tree, q));
        assert forall|j: int| i + 1 <= j < n implies apart(p.push((#[trigger] fields[j]).0), q) by {
            assert(fields[j].0 != fields[i as int].0);
            lemma_children_apart(p, fields[j].0, fields[i as int].0, q);
        }
        lemma_fields_untouched(b, p, fields, i + 1, n, q);
    }
}

/// The first `k` fields of a struct that was written are read back.
pub proof fn lemma_fields_read(
    fs: FileTree,
    b: TreeView,
    p: Seq<Seq<char>>,
    fields: Seq<(Seq<char>, ValueView)>,
    shapes: Seq<(Seq<char>, ShapeView)>,
    k: nat,
)
    requires
        well_formed(b),
        record_conforms(fields, shapes),
        encode_fields(b, p, fields, fields.len()).failure is None,
        agrees_under(fs@, encode_fields(b, p, fields, fields.len()).tree, p),
        k <= fields.len(),
    ensures
        decode_fields(fs, p, shapes, k) == Ok::<Seq<(Seq<char>, ValueView)>, ErrorView>(
            fields.take(k as int),
        ),
    decreases fields, k,
{
    if k == 0 {
        assert(fields.take(0) =~= Seq::<(Seq<char>, ValueView)>::empty());
    } else {
        lemma_fields_read(fs, b, p, fields, shapes, (k - 1) as nat);
        let i = (k - 1) as nat;
        lemma_field_agrees(fs@, b, p, fields, i);
        lemma_fields_framed(b, p, fields, i);
        lemma_fields_succeed(b, p, fields, i + 1, fields.len());
        assert(fields[i as int].0 == shapes[i as int].0);
        lemma_round_trip(
            fs,
            encode_fields(b, p, fields, i).tree,
            p.push(fields[i as int].0),
            fields[i as int].1,
            shapes[i as int].1,
        );
        assert(fields.take(k as int) =~= fields.take(i as int).push(fields[i as int]));
    }
}

/// Round trip: after `v` was encoded at `p`, decoding at `p` with the shape
/// of `v` gives `v`. This holds whatever the tree held before, at `p` and
/// elsewhere.
pub proof fn law_round_trip(
    fs: FileTree,
    t: TreeView,
    p: Seq<Seq<char>>,
    v: ValueView,
    s: ShapeView,
)
    requires
        well_formed(t),
        encode(t, p, v).failure is None,
        conforms(v, s),
        fs@ == encode(t, p, v).tree,
    ensures
        decode(fs, p, s) == Ok::<ValueView, ErrorView>(v),
{
    assert forall|q: Seq<Seq<char>>| p.is_prefix_of(q) implies #[trigger] same_at(
        fs@,
        encode(t, p, v).tree,
        q,
    ) by {}
    lemma_round_trip(fs, t, p, v, s);
}

} // verus!
