//! What a decoding gives depends only on what the tree holds at and under
//! the path that is read.

use crate::de::{
    decode, decode_elements, decode_entries, decode_fields, decode_tuple, decode_tuple_items,
    discriminant, element_present, extent, is_extent, lemma_extent, lemma_extent_exists,
};
use crate::laws::{lemma_parent_prefix, lemma_self_prefix, same_at};
use crate::path::{index_name, value_name, variant_name};
use crate::round_trip::agrees_under;
use crate::tree::FileTree;
use crate::value::ShapeView;
use vstd::prelude::*;

verus! {

/// Whether the two trees hold the same at `p` and everywhere beneath it, and
/// list the nodes of every directory there in the same order.
pub open spec fn alike_under(a: FileTree, b: FileTree, p: Seq<Seq<char>>) -> bool {
    &&& agrees_under(a@, b@, p)
    &&& forall|q: Seq<Seq<char>>| p.is_prefix_of(q) ==> #[trigger] a.listing(q) == b.listing(q)
}

/// Trees that are alike under a path are alike under each of its children.
pub proof fn lemma_alike_narrow(a: FileTree, b: FileTree, p: Seq<Seq<char>>, name: Seq<char>)
    requires
        alike_under(a, b, p),
    ensures
        alike_under(a, b, p.push(name)),
{
    assert forall|q: Seq<Seq<char>>| p.push(name).is_prefix_of(q) implies #[trigger] same_at(
        a@,
        b@,
        q,
    ) by {
        crate::tree::lemma_prefix_push(p, name, q);
    }
    assert forall|q: Seq<Seq<char>>| p.push(name).is_prefix_of(q) implies #[trigger] a.listing(q)
        == b.listing(q) by {
        crate::tree::lemma_prefix_push(p, name, q);
    }
}

/// Trees that are alike under a directory hold the same number of elements
/// in it.
pub proof fn lemma_extent_local(a: FileTree, b: FileTree, p: Seq<Seq<char>>)
    requires
        alike_under(a, b, p),
    ensures
        extent(a@, p) == extent(b@, p),
{
    lemma_extent_exists(&a, p);
    let n = extent(a@, p);
    assert forall|m: nat| element_present(a@, p, m) == element_present(b@, p, m) by {
        lemma_parent_prefix(p, index_name(m));
        assert(same_at(a@, b@, p.push(index_name(m))));
    }
    assert(is_extent(b@, p, n)) by {
        assert forall|m: nat| m < n implies #[trigger] element_present(b@, p, m) by {
            assert(element_present(a@, p, m));
        }
    }
    lemma_extent(b@, p, n);
}

/// Reading is local: trees that are alike at and under `p` give the same
/// when a value of any shape is decoded at `p`.
pub proof fn lemma_decode_local(a: FileTree, b: FileTree, p: Seq<Seq<char>>, s: ShapeView)
    requires
        alike_under(a, b, p),
    ensures
        decode(a, p, s) == decode(b, p, s),
    decreases s, 0nat,
{
    lemma_self_prefix(p);
    assert(same_at(a@, b@, p));
    match s {
        ShapeView::Optional(inner) => {
            lemma_decode_local(a, b, p, *inner);
        },
        ShapeView::Newtype(inner) => {
            lemma_decode_local(a, b, p, *inner);
        },
        ShapeView::Sequence(element) => {
            lemma_extent_local(a, b, p);
            lemma_elements_local(a, b, p, *element, extent(a@, p));
        },
        ShapeView::Tuple(shapes) => {
            lemma_tuple_local(a, b, p, shapes);
        },
        ShapeView::Mapping(value) => {
            lemma_entries_local(a, b, p, a.listing(p), *value, a.listing(p).len());
        },
        ShapeView::Record(fields) => {
            assert forall|i: int| 0 <= i < fields.len() implies alike_under(
                a,
                b,
                p.push((#[trigger] fields[i]).0),
            ) by {
                lemma_alike_narrow(a, b, p, fields[i].0);
            }
            lemma_fields_local(a, b, p, fields, fields.len());
        },
        ShapeView::Enum(variants) => {
            lemma_parent_prefix(p, variant_name());
            assert(same_at(a@, b@, p.push(variant_name())));
            assert(discriminant(a@, p) == discriminant(b@, p));
            assert forall|i: int| 0 <= i < variants.len() implies decode_payload_alike(
                a,
                b,
                p,
                (#[trigger] variants[i]).1,
            ) by {
                match variants[i].1 {
                    ShapeView::Newtype(inner) => {
                        lemma_alike_narrow(a, b, p, value_name());
                        lemma_decode_local(a, b, p.push(value_name()), *inner);
                    },
                    ShapeView::Tuple(shapes) => {
                        lemma_tuple_local(a, b, p, shapes);
                    },
                    ShapeView::Record(fields) => {
                        assert forall|k: int| 0 <= k < fields.len() implies alike_under(
                            a,
                            b,
                            p.push((#[trigger] fields[k]).0),
                        ) by {
                            lemma_alike_narrow(a, b, p, fields[k].0);
                        }
                        lemma_fields_local(a, b, p, fields, fields.len());
                    },
                    _ => {},
                }
            }
        },
        _ => {},
    }
}

/// Whether the payload of a variant of shape `s` is read alike in both
/// trees.
pub open spec fn decode_payload_alike(a: FileTree, b: FileTree, p: Seq<Seq<char>>, s: ShapeView)
    -> bool {
    match s {
        ShapeView::Newtype(inner) => decode(a, p.push(value_name()), *inner) == decode(
            b,
            p.push(value_name()),
            *inner,
        ),
        ShapeView::Tuple(shapes) => decode_tuple(a, p, shapes) == decode_tuple(b, p, shapes),
        ShapeView::Record(fields) => decode_fields(a, p, fields, fields.len()) == decode_fields(
            b,
            p,
            fields,
            fields.len(),
        ),
        _ => true,
    }
}

/// The elements of a sequence are read alike in trees that are alike.
pub proof fn lemma_elements_local(
    a: FileTree,
    b: FileTree,
    p: Seq<Seq<char>>,
    element: ShapeView,
    n: nat,
)
    requires
        alike_under(a, b, p),
    ensures
        decode_elements(a, p, element, n) == decode_elements(b, p, element, n),
    decreases element, n,
{
    if n > 0 {
        lemma_elements_local(a, b, p, element, (n - 1) as nat);
        lemma_alike_narrow(a, b, p, index_name((n - 1) as nat));
        lemma_decode_local(a, b, p.push(index_name((n - 1) as nat)), element);
    }
}

/// The elements of a tuple are read alike in trees that are alike.
pub proof fn lemma_tuple_items_local(
    a: FileTree,
    b: FileTree,
    p: Seq<Seq<char>>,
    shapes: Seq<ShapeView>,
    n: nat,
)
    requires
        alike_under(a, b, p),
    ensures
        decode_tuple_items(a, p, shapes, n) == decode_tuple_items(b, p, shapes, n),
    decreases shapes, n,
{
    if n > 0 && n <= shapes.len() {
        lemma_tuple_items_local(a, b, p, shapes, (n - 1) as nat);
        lemma_alike_narrow(a, b, p, index_name((n - 1) as nat));
        lemma_decode_local(a, b, p.push(index_name((n - 1) as nat)), shapes[n - 1]);
    }
}

/// A tuple is read alike in trees that are alike.
pub proof fn lemma_tuple_local(a: FileTree, b: FileTree, p: Seq<Seq<char>>, shapes: Seq<ShapeView>)
    requires
        alike_under(a, b, p),
    ensures
        decode_tuple(a, p, shapes) == decode_tuple(b, p, shapes),
    decreases shapes, shapes.len() + 1,
{
    lemma_extent_local(a, b, p);
    let found = extent(a@, p);
    let read = if found < shapes.len() {
        found
    } else {
        shapes.len()
    };
    lemma_tuple_items_local(a, b, p, shapes, read);
}

/// The entries of a map are read alike in trees that are alike.
pub proof fn lemma_entries_local(
    a: FileTree,
    b: FileTree,
    p: Seq<Seq<char>>,
    names: Seq<Seq<char>>,
    value: ShapeView,
    n: nat,
)
    requires
        alike_under(a, b, p),
    ensures
        decode_entries(a, p, names, value, n) == decode_entries(b, p, names, value, n),
    decreases value, n,
{
    if n > 0 && n <= names.len() {
        lemma_entries_local(a, b, p, names, value, (n - 1) as nat);
        lemma_alike_narrow(a, b, p, names[n - 1]);
        lemma_decode_local(a, b, p.push(names[n - 1]), value);
    }
}

/// The fields of a struct are read alike in trees that are alike under each
/// of the fields. What else the directory holds is not looked at.
pub proof fn lemma_fields_local(
    a: FileTree,
    b: FileTree,
    p: Seq<Seq<char>>,
    fields: Seq<(Seq<char>, ShapeView)>,
    n: nat,
)
    requires
        forall|i: int| 0 <= i < fields.len() ==> alike_under(a, b, p.push((#[trigger] fields[i]).0)),
    ensures
        decode_fields(a, p, fields, n) == decode_fields(b, p, fields, n),
    decreases fields, n,
{
    if n > 0 && n <= fields.len() {
        lemma_fields_local(a, b, p, fields, (n - 1) as nat);
        assert(alike_under(a, b, p.push(fields[n - 1].0)));
        lemma_decode_local(a, b, p.push(fields[n - 1].0), fields[n - 1].1);
    }
}

/// Foreign nodes in a struct are not read: trees that are alike under each
/// field of a struct give the same when the struct is decoded, whatever
/// else its directory holds in the one or the other.
pub proof fn law_record_ignores_foreign(
    a: FileTree,
    b: FileTree,
    p: Seq<Seq<char>>,
    fields: Seq<(Seq<char>, ShapeView)>,
)
    requires
        forall|i: int| 0 <= i < fields.len() ==> alike_under(a, b, p.push((#[trigger] fields[i]).0)),
    ensures
        decode(a, p, ShapeView::Record(fields)) == decode(b, p, ShapeView::Record(fields)),
{
    lemma_fields_local(a, b, p, fields, fields.len());
}

} // verus!
