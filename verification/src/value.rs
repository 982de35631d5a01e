//! The data model: the shapes of value that the codec writes and reads.

use crate::text::IntKind;
use vstd::prelude::*;

verus! {

/// A value of the data model, as a mathematical value.
pub enum ValueView {
    /// A boolean.
    Bool(bool),
    /// An integer of the given type.
    Int(IntKind, int),
    /// A single character.
    Char(char),
    /// A text.
    Text(Seq<char>),
    /// Raw bytes.
    Bytes(Seq<u8>),
    /// The unit value, and a struct without fields.
    Unit,
    /// An optional value that is absent.
    Absent,
    /// An optional value that is present.
    Present(Box<ValueView>),
    /// A struct that wraps one value.
    Newtype(Box<ValueView>),
    /// A sequence of any length.
    Sequence(Seq<ValueView>),
    /// A tuple, or a struct with unnamed fields.
    Tuple(Seq<ValueView>),
    /// A map: keys with their values.
    Mapping(Seq<(ValueView, ValueView)>),
    /// A struct: field names with their values.
    Record(Seq<(Seq<char>, ValueView)>),
    /// An enum variant without a payload.
    UnitVariant(Seq<char>),
    /// An enum variant that wraps one value.
    NewtypeVariant(Seq<char>, Box<ValueView>),
    /// An enum variant with unnamed fields.
    TupleVariant(Seq<char>, Seq<ValueView>),
    /// An enum variant with named fields.
    StructVariant(Seq<char>, Seq<(Seq<char>, ValueView)>),
}

/// A value of the data model.
#[derive(Debug, PartialEq, Eq)]
pub enum Value {
    /// A boolean.
    Bool(bool),
    I8(i8),
    I16(i16),
    I32(i32),
    I64(i64),
    U8(u8),
    U16(u16),
    U32(u32),
    U64(u64),
    /// A single character.
    Char(char),
    /// A text.
    Text(String),
    /// Raw bytes.
    Bytes(Vec<u8>),
    /// The unit value, and a struct without fields.
    Unit,
    /// An optional value that is absent.
    Absent,
    /// An optional value that is present.
    Present(Box<Value>),
    /// A struct that wraps one value.
    Newtype(Box<Value>),
    /// A sequence of any length.
    Sequence(Vec<Value>),
    /// A tuple, or a struct with unnamed fields.
    Tuple(Vec<Value>),
    /// A map: keys with their values.
    Mapping(Vec<(Value, Value)>),
    /// A struct: field names with their values.
    Record(Vec<(String, Value)>),
    /// An enum variant without a payload.
    UnitVariant(String),
    /// An enum variant that wraps one value.
    NewtypeVariant(String, Box<Value>),
    /// An enum variant with unnamed fields.
    TupleVariant(String, Vec<Value>),
    /// An enum variant with named fields.
    StructVariant(String, Vec<(String, Value)>),
}

/// The views of the values of `items`.
pub open spec fn items_view(items: Vec<Value>) -> Seq<ValueView>
    decreases items,
{
    Seq::new(
        items@.len(),
        |i: int|
            if 0 <= i < items@.len() {
                value_view(items@[i])
            } else {
                ValueView::Unit
            },
    )
}

/// The views of the keys and values of `entries`.
pub open spec fn entries_view(entries: Vec<(Value, Value)>) -> Seq<(ValueView, ValueView)>
    decreases entries,
{
    Seq::new(
        entries@.len(),
        |i: int|
            if 0 <= i < entries@.len() {
                (value_view(entries@[i].0), value_view(entries@[i].1))
            } else {
                (ValueView::Unit, ValueView::Unit)
            },
    )
}

/// The views of the names and values of `fields`.
pub open spec fn fields_view(fields: Vec<(String, Value)>) -> Seq<(Seq<char>, ValueView)>
    decreases fields,
{
    Seq::new(
        fields@.len(),
        |i: int|
            if 0 <= i < fields@.len() {
                (fields@[i].0@, value_view(fields@[i].1))
            } else {
                (Seq::empty(), ValueView::Unit)
            },
    )
}

/// The mathematical value that `v` stands for.
pub open spec fn value_view(v: Value) -> ValueView
    decreases v,
{
    match v {
        Value::Bool(b) => ValueView::Bool(b),
        Value::I8(n) => ValueView::Int(IntKind::I8, n as int),
        Value::I16(n) => ValueView::Int(IntKind::I16, n as int),
        Value::I32(n) => ValueView::Int(IntKind::I32, n as int),
        Value::I64(n) => ValueView::Int(IntKind::I64, n as int),
        Value::U8(n) => ValueView::Int(IntKind::U8, n as int),
        Value::U16(n) => ValueView::Int(IntKind::U16, n as int),
        Value::U32(n) => ValueView::Int(IntKind::U32, n as int),
        Value::U64(n) => ValueView::Int(IntKind::U64, n as int),
        Value::Char(c) => ValueView::Char(c),
        Value::Text(s) => ValueView::Text(s@),
        Value::Bytes(b) => ValueView::Bytes(b@),
        Value::Unit => ValueView::Unit,
        Value::Absent => ValueView::Absent,
        Value::Present(inner) => ValueView::Present(Box::new(value_view(*inner))),
        Value::Newtype(inner) => ValueView::Newtype(Box::new(value_view(*inner))),
        Value::Sequence(items) => ValueView::Sequence(items_view(items)),
        Value::Tuple(items) => ValueView::Tuple(items_view(items)),
        Value::Mapping(entries) => ValueView::Mapping(entries_view(entries)),
        Value::Record(fields) => ValueView::Record(fields_view(fields)),
        Value::UnitVariant(name) => ValueView::UnitVariant(name@),
        Value::NewtypeVariant(name, inner) => ValueView::NewtypeVariant(
            name@,
            Box::new(value_view(*inner)),
        ),
        Value::TupleVariant(name, items) => ValueView::TupleVariant(name@, items_view(items)),
        Value::StructVariant(name, fields) => ValueView::StructVariant(
            name@,
            fields_view(fields),
        ),
    }
}

impl View for Value {
    type V = ValueView;

    open spec fn view(&self) -> ValueView {
        value_view(*self)
    }
}

/// The shape of a value that is to be read, as a mathematical value.
pub enum ShapeView {
    /// A boolean.
    Bool,
    /// An integer of the given type.
    Int(IntKind),
    /// A single character.
    Char,
    /// A text.
    Text,
    /// Raw bytes.
    Bytes,
    /// The unit value, and a struct without fields.
    Unit,
    /// A value of the given shape that may be absent.
    Optional(Box<ShapeView>),
    /// A struct that wraps one value of the given shape.
    Newtype(Box<ShapeView>),
    /// A sequence of any length with elements of the given shape.
    Sequence(Box<ShapeView>),
    /// A tuple with one element of each of the given shapes.
    Tuple(Seq<ShapeView>),
    /// A map from texts to values of the given shape.
    Mapping(Box<ShapeView>),
    /// A struct with the given fields, each with its shape.
    Record(Seq<(Seq<char>, ShapeView)>),
    /// An enum with the given variants, in their order. The shape beside a
    /// name says what the variant holds: `Unit` nothing, `Newtype` one
    /// value, `Tuple` unnamed fields, `Record` named fields.
    Enum(Seq<(Seq<char>, ShapeView)>),
}

/// The shape of a value that is to be read.
#[derive(Debug, PartialEq, Eq)]
pub enum Shape {
    /// A boolean.
    Bool,
    /// An integer of the given type.
    Int(IntKind),
    /// A single character.
    Char,
    /// A text.
    Text,
    /// Raw bytes.
    Bytes,
    /// The unit value, and a struct without fields.
    Unit,
    /// A value of the given shape that may be absent.
    Optional(Box<Shape>),
    /// A struct that wraps one value of the given shape.
    Newtype(Box<Shape>),
    /// A sequence of any length with elements of the given shape.
    Sequence(Box<Shape>),
    /// A tuple with one element of each of the given shapes.
    Tuple(Vec<Shape>),
    /// A map from texts to values of the given shape.
    Mapping(Box<Shape>),
    /// A struct with the given fields, each with its shape.
    Record(Vec<(String, Shape)>),
    /// An enum with the given variants, in their order. The shape beside a
    /// name says what the variant holds: `Unit` nothing, `Newtype` one
    /// value, `Tuple` unnamed fields, `Record` named fields.
    Enum(Vec<(String, Shape)>),
}

/// The views of the shapes of `shapes`.
pub open spec fn shapes_view(shapes: Vec<Shape>) -> Seq<ShapeView>
    decreases shapes,
{
    Seq::new(
        shapes@.len(),
        |i: int|
            if 0 <= i < shapes@.len() {
                shape_view(shapes@[i])
            } else {
                ShapeView::Unit
            },
    )
}

/// The views of the names and shapes of `named`.
pub open spec fn named_shapes_view(named: Vec<(String, Shape)>) -> Seq<(Seq<char>, ShapeView)>
    decreases named,
{
    Seq::new(
        named@.len(),
        |i: int|
            if 0 <= i < named@.len() {
                (named@[i].0@, shape_view(named@[i].1))
            } else {
                (Seq::empty(), ShapeView::Unit)
            },
    )
}

/// The mathematical value that `s` stands for.
pub open spec fn shape_view(s: Shape) -> ShapeView
    decreases s,
{
    match s {
        Shape::Bool => ShapeView::Bool,
        Shape::Int(kind) => ShapeView::Int(kind),
        Shape::Char => ShapeView::Char,
        Shape::Text => ShapeView::Text,
        Shape::Bytes => ShapeView::Bytes,
        Shape::Unit => ShapeView::Unit,
        Shape::Optional(inner) => ShapeView::Optional(Box::new(shape_view(*inner))),
        Shape::Newtype(inner) => ShapeView::Newtype(Box::new(shape_view(*inner))),
        Shape::Sequence(inner) => ShapeView::Sequence(Box::new(shape_view(*inner))),
        Shape::Tuple(shapes) => ShapeView::Tuple(shapes_view(shapes)),
        Shape::Mapping(inner) => ShapeView::Mapping(Box::new(shape_view(*inner))),
        Shape::Record(fields) => ShapeView::Record(named_shapes_view(fields)),
        Shape::Enum(variants) => ShapeView::Enum(named_shapes_view(variants)),
    }
}

impl View for Shape {
    type V = ShapeView;

    open spec fn view(&self) -> ShapeView {
        shape_view(*self)
    }
}

} // verus!
