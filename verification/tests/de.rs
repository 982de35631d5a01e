use serde_fs::de::Error;
use serde_fs::path::TreePath;
use serde_fs::text::{IntErrorKind, IntKind};
use serde_fs::tree::FileTree;
use serde_fs::value::{Shape, Value};
use serde_fs::{FilesystemDeserializer, FilesystemSerializer};
use std::collections::HashMap;

fn text(s: &str) -> Value {
    Value::Text(s.to_string())
}

fn name(s: &str) -> String {
    s.to_string()
}

fn trimmed_text(fs: &FileTree, deserializer: &FilesystemDeserializer) -> String {
    deserializer.read_trimmed(fs).unwrap().into_iter().collect()
}

fn unit_variants(names: &[&str]) -> Shape {
    Shape::Enum(names.iter().map(|n| (n.to_string(), Shape::Unit)).collect())
}

fn test_struct(test: u8, passed: u64) -> Vec<(String, Value)> {
    vec![(name("test"), Value::U8(test)), (name("passed"), Value::U64(passed))]
}

fn test_struct_shape() -> Vec<(String, Shape)> {
    vec![(name("test"), Shape::Int(IntKind::U8)), (name("passed"), Shape::Int(IntKind::U64))]
}

fn tuple_struct_shape() -> Shape {
    Shape::Tuple(vec![Shape::Int(IntKind::U8), Shape::Int(IntKind::U8), Shape::Int(IntKind::U8)])
}

#[test]
fn de_boolean() {
    let mut fs = FileTree::new();
    let tmp = TreePath::new();
    let serializer = FilesystemSerializer::new(tmp.join("bool"));
    let deserializer = FilesystemDeserializer::new(tmp.join("bool"));
    Value::Bool(true).serialize(&mut fs, serializer.clone()).unwrap();
    assert_eq!(deserializer.clone().deserialize_bool(&fs).unwrap(), true);
    Value::Bool(false).serialize(&mut fs, serializer.clone()).unwrap();
    assert_eq!(deserializer.clone().deserialize_bool(&fs).unwrap(), false);
}

#[test]
fn boolean_extra_space() {
    let mut fs = FileTree::new();
    let tmp = TreePath::new();
    let serializer = FilesystemSerializer::new(tmp.join("bool"));
    let deserializer = FilesystemDeserializer::new(tmp.join("bool"));
    text(" true \n").serialize(&mut fs, serializer.clone()).unwrap();
    assert_eq!(deserializer.clone().deserialize_bool(&fs).unwrap(), true);
    text(" false \n").serialize(&mut fs, serializer.clone()).unwrap();
    assert_eq!(deserializer.clone().deserialize_bool(&fs).unwrap(), false);
}

#[test]
fn de_numbers() {
    let mut fs = FileTree::new();
    let tmp = TreePath::new();
    let serializer = FilesystemSerializer::new(tmp.join("n"));
    let deserializer = FilesystemDeserializer::new(tmp.join("n"));
    Value::I8(-1).serialize(&mut fs, serializer.clone()).unwrap();
    assert_eq!(deserializer.clone().deserialize_i8(&fs).unwrap(), -1);
    Value::U8(1).serialize(&mut fs, serializer.clone()).unwrap();
    assert_eq!(deserializer.clone().deserialize_u8(&fs).unwrap(), 1);
    Value::I16(-1).serialize(&mut fs, serializer.clone()).unwrap();
    assert_eq!(deserializer.clone().deserialize_i16(&fs).unwrap(), -1);
    Value::U16(1).serialize(&mut fs, serializer.clone()).unwrap();
    assert_eq!(deserializer.clone().deserialize_u16(&fs).unwrap(), 1);
    Value::I32(-1).serialize(&mut fs, serializer.clone()).unwrap();
    assert_eq!(deserializer.clone().deserialize_i32(&fs).unwrap(), -1);
    Value::U32(1).serialize(&mut fs, serializer.clone()).unwrap();
    assert_eq!(deserializer.clone().deserialize_u32(&fs).unwrap(), 1);
    Value::I64(-1).serialize(&mut fs, serializer.clone()).unwrap();
    assert_eq!(deserializer.clone().deserialize_i64(&fs).unwrap(), -1);
    Value::U64(1).serialize(&mut fs, serializer.clone()).unwrap();
    assert_eq!(deserializer.clone().deserialize_u64(&fs).unwrap(), 1);
    serializer.clone().serialize_str(&mut fs, &format!("{}", 1.3f32)).unwrap();
    assert_eq!(trimmed_text(&fs, &deserializer).parse::<f32>().unwrap(), 1.3);
    serializer.clone().serialize_str(&mut fs, &format!("{}", 1.31f64)).unwrap();
    assert_eq!(trimmed_text(&fs, &deserializer).parse::<f64>().unwrap(), 1.31);
}

#[test]
fn numbers_extra_space() {
    let mut fs = FileTree::new();
    let tmp = TreePath::new();
    let serializer = FilesystemSerializer::new(tmp.join("n"));
    let deserializer = FilesystemDeserializer::new(tmp.join("n"));
    text(" -1 \n").serialize(&mut fs, serializer.clone()).unwrap();
    assert_eq!(deserializer.clone().deserialize_i8(&fs).unwrap(), -1);
    text(" 1 \n").serialize(&mut fs, serializer.clone()).unwrap();
    assert_eq!(deserializer.clone().deserialize_u8(&fs).unwrap(), 1);
    text(" -1 \n").serialize(&mut fs, serializer.clone()).unwrap();
    assert_eq!(deserializer.clone().deserialize_i16(&fs).unwrap(), -1);
    text(" 1 \n").serialize(&mut fs, serializer.clone()).unwrap();
    assert_eq!(deserializer.clone().deserialize_u16(&fs).unwrap(), 1);
    text(" -1 \n").serialize(&mut fs, serializer.clone()).unwrap();
    assert_eq!(deserializer.clone().deserialize_i32(&fs).unwrap(), -1);
    text(" 1 \n").serialize(&mut fs, serializer.clone()).unwrap();
    assert_eq!(deserializer.clone().deserialize_u32(&fs).unwrap(), 1);
    text(" -1 \n").serialize(&mut fs, serializer.clone()).unwrap();
    assert_eq!(deserializer.clone().deserialize_i64(&fs).unwrap(), -1);
    text(" 1 \n").serialize(&mut fs, serializer.clone()).unwrap();
    assert_eq!(deserializer.clone().deserialize_u64(&fs).unwrap(), 1);
    text(" 1.3 \n").serialize(&mut fs, serializer.clone()).unwrap();
    assert_eq!(trimmed_text(&fs, &deserializer).parse::<f32>().unwrap(), 1.3);
    text(" 1.31 \n").serialize(&mut fs, serializer.clone()).unwrap();
    assert_eq!(trimmed_text(&fs, &deserializer).parse::<f64>().unwrap(), 1.31);
}

#[test]
fn de_char() {
    let mut fs = FileTree::new();
    let tmp = TreePath::new();
    let serializer = FilesystemSerializer::new(tmp.join("c"));
    let deserializer = FilesystemDeserializer::new(tmp.join("c"));
    Value::Char('!').serialize(&mut fs, serializer.clone()).unwrap();
    assert_eq!(deserializer.clone().deserialize_char(&fs).unwrap(), '!');
}

#[test]
fn char_empty() {
    let mut fs = FileTree::new();
    let tmp = TreePath::new();
    let serializer = FilesystemSerializer::new(tmp.join("c"));
    let deserializer = FilesystemDeserializer::new(tmp.join("c"));
    text("").serialize(&mut fs, serializer.clone()).unwrap();
    let err = deserializer.clone().deserialize_char(&fs).unwrap_err();
    assert!(matches!(err, Error::Empty));
}

#[test]
fn de_string() {
    let mut fs = FileTree::new();
    let tmp = TreePath::new();
    let serializer = FilesystemSerializer::new(tmp.join("str"));
    let deserializer = FilesystemDeserializer::new(tmp.join("str"));
    text("hello").serialize(&mut fs, serializer.clone()).unwrap();
    assert_eq!(deserializer.clone().deserialize_string(&fs).unwrap(), "hello");
}

#[test]
fn de_bytes() {
    let mut fs = FileTree::new();
    let tmp = TreePath::new();
    let serializer = FilesystemSerializer::new(tmp.join("bytes"));
    let deserializer = FilesystemDeserializer::new(tmp.join("bytes"));
    Value::Bytes(b"hello".to_vec()).serialize(&mut fs, serializer.clone()).unwrap();
    let byte_buf = deserializer.clone().deserialize_byte_buf(&fs).unwrap();
    let buf: &[u8] = byte_buf.as_ref();
    assert_eq!(buf, b"hello");
}

#[test]
fn de_option() {
    let mut fs = FileTree::new();
    let tmp = TreePath::new();
    let serializer = FilesystemSerializer::new(tmp.join("option"));
    let deserializer = FilesystemDeserializer::new(tmp.join("option"));
    let shape = Shape::Optional(Box::new(Shape::Text));
    Value::Present(Box::new(text("hello"))).serialize(&mut fs, serializer.clone()).unwrap();
    assert_eq!(
        shape.deserialize(&fs, deserializer.clone()).unwrap(),
        Value::Present(Box::new(text("hello")))
    );
    Value::Absent.serialize(&mut fs, serializer.clone()).unwrap();
    assert_eq!(shape.deserialize(&fs, deserializer.clone()).unwrap(), Value::Absent);
}

#[test]
fn de_unit() {
    let mut fs = FileTree::new();
    let tmp = TreePath::new();
    let serializer = FilesystemSerializer::new(tmp.join("unit"));
    let deserializer = FilesystemDeserializer::new(tmp.join("unit"));
    Value::Unit.serialize(&mut fs, serializer.clone()).unwrap();
    assert_eq!(deserializer.clone().deserialize_unit(&fs).unwrap(), ());
}

#[test]
fn unit_not_found() {
    let fs = FileTree::new();
    let tmp = TreePath::new();
    let deserializer = FilesystemDeserializer::new(tmp.join("unit"));
    let err = deserializer.clone().deserialize_unit(&fs).unwrap_err();
    assert!(matches!(err, Error::FileNotFound));
}

#[test]
fn de_unit_struct() {
    let mut fs = FileTree::new();
    let tmp = TreePath::new();
    let serializer = FilesystemSerializer::new(tmp.join("unit"));
    let deserializer = FilesystemDeserializer::new(tmp.join("unit"));
    serializer.clone().serialize_unit_struct(&mut fs, "UnitStruct").unwrap();
    assert_eq!(deserializer.clone().deserialize_unit_struct(&fs, "UnitStruct").unwrap(), ());
}

#[test]
fn de_unit_variant() {
    let mut fs = FileTree::new();
    let tmp = TreePath::new();
    let serializer = FilesystemSerializer::new(tmp.join("unit"));
    let deserializer = FilesystemDeserializer::new(tmp.join("unit"));
    Value::UnitVariant(name("b")).serialize(&mut fs, serializer.clone()).unwrap();
    assert_eq!(
        unit_variants(&["A", "b", "C"]).deserialize(&fs, deserializer.clone()).unwrap(),
        Value::UnitVariant(name("b"))
    );
}

#[test]
fn unit_wrong_variant() {
    let mut fs = FileTree::new();
    let tmp = TreePath::new();
    let serializer = FilesystemSerializer::new(tmp.join("unit"));
    let deserializer = FilesystemDeserializer::new(tmp.join("unit"));
    Value::UnitVariant(name("b")).serialize(&mut fs, serializer.clone()).unwrap();
    let err = unit_variants(&["A", "B", "C"]).deserialize(&fs, deserializer.clone()).unwrap_err();
    assert!(matches!(err, Error::InvalidEnum(ref str) if str == "b"));
}

#[test]
fn de_newtype_variant() {
    let mut fs = FileTree::new();
    let tmp = TreePath::new();
    let serializer = FilesystemSerializer::new(tmp.join("newtype"));
    let deserializer = FilesystemDeserializer::new(tmp.join("newtype"));
    Value::Newtype(Box::new(Value::UnitVariant(name("b"))))
        .serialize(&mut fs, serializer.clone())
        .unwrap();
    assert_eq!(
        Shape::Newtype(Box::new(unit_variants(&["A", "b", "C"])))
            .deserialize(&fs, deserializer.clone())
            .unwrap(),
        Value::Newtype(Box::new(Value::UnitVariant(name("b"))))
    );
}

#[test]
fn de_newtype_struct() {
    let mut fs = FileTree::new();
    let tmp = TreePath::new();
    let serializer = FilesystemSerializer::new(tmp.join("newtype"));
    let deserializer = FilesystemDeserializer::new(tmp.join("newtype"));
    Value::Newtype(Box::new(Value::U8(100))).serialize(&mut fs, serializer.clone()).unwrap();
    assert_eq!(
        Shape::Newtype(Box::new(Shape::Int(IntKind::U8)))
            .deserialize(&fs, deserializer.clone())
            .unwrap(),
        Value::Newtype(Box::new(Value::U8(100)))
    );
}

#[test]
fn de_newtype_tuple_variant() {
    let mut fs = FileTree::new();
    let tmp = TreePath::new();
    let serializer = FilesystemSerializer::new(tmp.join("newtype"));
    let deserializer = FilesystemDeserializer::new(tmp.join("newtype"));
    let v = Value::Newtype(Box::new(Value::TupleVariant(
        name("V1"),
        vec![Value::U8(100), Value::U8(100), Value::U8(100)],
    )));
    v.serialize(&mut fs, serializer.clone()).unwrap();
    let shape = Shape::Newtype(Box::new(Shape::Enum(vec![(name("V1"), tuple_struct_shape())])));
    assert_eq!(shape.deserialize(&fs, deserializer.clone()).unwrap(), v);
}

#[test]
fn de_tuple_newtype_variant() {
    let mut fs = FileTree::new();
    let tmp = TreePath::new();
    let serializer = FilesystemSerializer::new(tmp.join("var"));
    let deserializer = FilesystemDeserializer::new(tmp.join("var"));
    let v = Value::NewtypeVariant(name("C"), Box::new(Value::U8(100)));
    v.serialize(&mut fs, serializer.clone()).unwrap();
    let shape =
        Shape::Enum(vec![(name("C"), Shape::Newtype(Box::new(Shape::Int(IntKind::U8))))]);
    assert_eq!(shape.deserialize(&fs, deserializer.clone()).unwrap(), v);
}

#[test]
fn de_tuple_newtype_variant_tag() {
    let mut fs = FileTree::new();
    let tmp = TreePath::new();
    let serializer = FilesystemSerializer::new(tmp.join("var"));
    let deserializer = FilesystemDeserializer::new(tmp.join("var"));
    let v = Value::Record(vec![
        (name("type"), Value::UnitVariant(name("C"))),
        (name("content"), Value::U8(100)),
    ]);
    v.serialize(&mut fs, serializer.clone()).unwrap();
    let shape = Shape::Record(vec![
        (name("type"), unit_variants(&["C"])),
        (name("content"), Shape::Int(IntKind::U8)),
    ]);
    assert_eq!(shape.deserialize(&fs, deserializer.clone()).unwrap(), v);
}

#[test]
fn de_seq() {
    let mut fs = FileTree::new();
    let tmp = TreePath::new();
    let serializer = FilesystemSerializer::new(tmp.join("seq"));
    let deserializer = FilesystemDeserializer::new(tmp.join("seq"));
    Value::Sequence(vec![Value::I32(100), Value::I32(200), Value::I32(300)])
        .serialize(&mut fs, serializer.clone())
        .unwrap();
    assert_eq!(
        Shape::Sequence(Box::new(Shape::Int(IntKind::U16)))
            .deserialize(&fs, deserializer.clone())
            .unwrap(),
        Value::Sequence(vec![Value::U16(100), Value::U16(200), Value::U16(300)])
    );
}

fn complex(x: u32) -> Value {
    Value::Record(vec![(name("something"), Value::U32(x)), (name("stuff"), Value::U32(x))])
}

#[test]
fn seq_complex_elem() {
    let mut fs = FileTree::new();
    let tmp = TreePath::new();
    let serializer = FilesystemSerializer::new(tmp.join("seq-complex-elem"));
    let deserializer = FilesystemDeserializer::new(tmp.join("seq-complex-elem"));
    let value = Value::Sequence(vec![complex(0), complex(1), complex(2)]);
    value.serialize(&mut fs, serializer.clone()).unwrap();
    let shape = Shape::Sequence(Box::new(Shape::Record(vec![
        (name("something"), Shape::Int(IntKind::U32)),
        (name("stuff"), Shape::Int(IntKind::U32)),
    ])));
    assert_eq!(shape.deserialize(&fs, deserializer.clone()).unwrap(), value);
}

#[test]
fn de_tuple() {
    let mut fs = FileTree::new();
    let tmp = TreePath::new();
    let serializer = FilesystemSerializer::new(tmp.join("tuple"));
    let deserializer = FilesystemDeserializer::new(tmp.join("tuple"));
    Value::Tuple(vec![Value::I32(100), Value::I32(200), Value::I32(300)])
        .serialize(&mut fs, serializer.clone())
        .unwrap();
    let shape = Shape::Tuple(vec![
        Shape::Int(IntKind::U8),
        Shape::Int(IntKind::U8),
        Shape::Int(IntKind::U16),
    ]);
    assert_eq!(
        shape.deserialize(&fs, deserializer.clone()).unwrap(),
        Value::Tuple(vec![Value::U8(100), Value::U8(200), Value::U16(300)])
    );
}

#[test]
fn tuple_size_mismatch() {
    let mut fs = FileTree::new();
    let tmp = TreePath::new();
    let serializer = FilesystemSerializer::new(tmp.join("tuple"));
    let deserializer = FilesystemDeserializer::new(tmp.join("tuple"));
    Value::Tuple(vec![Value::I32(100), Value::I32(200)])
        .serialize(&mut fs, serializer.clone())
        .unwrap();
    let shape = Shape::Tuple(vec![
        Shape::Int(IntKind::U8),
        Shape::Int(IntKind::U8),
        Shape::Int(IntKind::U16),
    ]);
    let err = shape.deserialize(&fs, deserializer.clone()).unwrap_err();
    assert!(matches!(err, Error::InvalidLen { expected: 3, got: 2 }));
}

#[test]
fn tuple_type_mismatch() {
    let mut fs = FileTree::new();
    let tmp = TreePath::new();
    let serializer = FilesystemSerializer::new(tmp.join("tuple"));
    let deserializer = FilesystemDeserializer::new(tmp.join("tuple"));
    Value::Tuple(vec![Value::I32(100), text("hello")])
        .serialize(&mut fs, serializer.clone())
        .unwrap();
    let shape = Shape::Tuple(vec![Shape::Int(IntKind::U8), Shape::Int(IntKind::U8)]);
    let err = shape.deserialize(&fs, deserializer.clone()).unwrap_err();
    assert!(matches!(err, Error::ParseIntError(_)));
}

#[test]
fn de_tuple_struct() {
    let mut fs = FileTree::new();
    let tmp = TreePath::new();
    let serializer = FilesystemSerializer::new(tmp.join("tuple"));
    let deserializer = FilesystemDeserializer::new(tmp.join("tuple"));
    Value::Tuple(vec![Value::U8(100), Value::U8(200), Value::U8(100)])
        .serialize(&mut fs, serializer.clone())
        .unwrap();
    assert_eq!(
        tuple_struct_shape().deserialize(&fs, deserializer.clone()).unwrap(),
        Value::Tuple(vec![Value::U8(100), Value::U8(200), Value::U8(100)])
    );
}

#[test]
fn tuple_struct_type_mismatch() {
    let mut fs = FileTree::new();
    let tmp = TreePath::new();
    let serializer = FilesystemSerializer::new(tmp.join("tuple"));
    let deserializer = FilesystemDeserializer::new(tmp.join("tuple"));
    Value::Tuple(vec![Value::I32(100), text("hello"), Value::I32(100)])
        .serialize(&mut fs, serializer.clone())
        .unwrap();
    let err = tuple_struct_shape().deserialize(&fs, deserializer.clone()).unwrap_err();
    assert!(matches!(err, Error::ParseIntError(_)));
}

#[test]
fn tuple_struct_size_mismatch() {
    let mut fs = FileTree::new();
    let tmp = TreePath::new();
    let serializer = FilesystemSerializer::new(tmp.join("tuple"));
    let deserializer = FilesystemDeserializer::new(tmp.join("tuple"));
    Value::Tuple(vec![Value::I32(100), Value::I32(200)])
        .serialize(&mut fs, serializer.clone())
        .unwrap();
    let err = tuple_struct_shape().deserialize(&fs, deserializer.clone()).unwrap_err();
    assert!(matches!(err, Error::InvalidLen { expected: 3, got: 2 }));
}

#[test]
fn de_tuple_variant() {
    let mut fs = FileTree::new();
    let tmp = TreePath::new();
    let serializer = FilesystemSerializer::new(tmp.join("tuple"));
    let deserializer = FilesystemDeserializer::new(tmp.join("tuple"));
    let v = Value::TupleVariant(name("V1"), vec![Value::U8(100), Value::U8(200), Value::U8(100)]);
    v.serialize(&mut fs, serializer.clone()).unwrap();
    let shape = Shape::Enum(vec![(name("V1"), tuple_struct_shape())]);
    assert_eq!(shape.deserialize(&fs, deserializer.clone()).unwrap(), v);
}

#[test]
fn de_map() {
    let mut fs = FileTree::new();
    let tmp = TreePath::new();
    let serializer = FilesystemSerializer::new(tmp.join("map"));
    let deserializer = FilesystemDeserializer::new(tmp.join("map"));
    let mut map: HashMap<String, i32> = HashMap::new();
    map.insert("test".into(), 100);
    map.insert("passed".into(), 2100);
    let entries: Vec<(Value, Value)> =
        map.iter().map(|(k, v)| (text(k), Value::I32(*v))).collect();
    Value::Mapping(entries).serialize(&mut fs, serializer.clone()).unwrap();
    let read = Shape::Mapping(Box::new(Shape::Int(IntKind::I32)))
        .deserialize(&fs, deserializer.clone())
        .unwrap();
    let mut found: HashMap<String, i32> = HashMap::new();
    match read {
        Value::Mapping(entries) => {
            for entry in entries {
                match entry {
                    (Value::Text(k), Value::I32(v)) => {
                        assert!(found.insert(k, v).is_none());
                    }
                    other => panic!("unexpected entry {:?}", other),
                }
            }
        }
        other => panic!("unexpected value {:?}", other),
    }
    assert_eq!(found, map);
}

#[test]
fn de_structure() {
    let mut fs = FileTree::new();
    let tmp = TreePath::new();
    let serializer = FilesystemSerializer::new(tmp.join("struct"));
    let deserializer = FilesystemDeserializer::new(tmp.join("struct"));
    let s = Value::Record(test_struct(100, 2100));
    s.serialize(&mut fs, serializer.clone()).unwrap();
    assert_eq!(Shape::Record(test_struct_shape()).deserialize(&fs, deserializer.clone()).unwrap(), s);
}

#[test]
fn structure_extra() {
    let mut fs = FileTree::new();
    let tmp = TreePath::new();
    let serializer = FilesystemSerializer::new(tmp.join("struct"));
    let deserializer = FilesystemDeserializer::new(tmp.join("struct"));
    let mut fields = test_struct(100, 2100);
    fields.push((name("extra"), Value::U8(10)));
    Value::Record(fields).serialize(&mut fs, serializer.clone()).unwrap();
    assert_eq!(
        Shape::Record(test_struct_shape()).deserialize(&fs, deserializer.clone()).unwrap(),
        Value::Record(test_struct(100, 2100))
    );
}

#[test]
fn de_struct_variant() {
    let mut fs = FileTree::new();
    let tmp = TreePath::new();
    let serializer = FilesystemSerializer::new(tmp.join("struct"));
    let deserializer = FilesystemDeserializer::new(tmp.join("struct"));
    let s = Value::StructVariant(name("V1"), test_struct(100, 2100));
    s.serialize(&mut fs, serializer.clone()).unwrap();
    let shape = Shape::Enum(vec![(name("V1"), Shape::Record(test_struct_shape()))]);
    assert_eq!(shape.deserialize(&fs, deserializer.clone()).unwrap(), s);
}

#[test]
fn struct_variant_tag_internal() {
    let mut fs = FileTree::new();
    let tmp = TreePath::new();
    let serializer = FilesystemSerializer::new(tmp.join("struct"));
    let deserializer = FilesystemDeserializer::new(tmp.join("struct"));
    let s = Value::Record(vec![
        (name("type"), Value::UnitVariant(name("V1"))),
        (name("."), Value::Record(test_struct(100, 2100))),
    ]);
    s.serialize(&mut fs, serializer.clone()).unwrap();
    let shape = Shape::Record(vec![
        (name("type"), unit_variants(&["V1"])),
        (name("."), Shape::Record(test_struct_shape())),
    ]);
    assert_eq!(shape.deserialize(&fs, deserializer.clone()).unwrap(), s);
}

#[test]
fn de_struct_variant_tag_content() {
    let mut fs = FileTree::new();
    let tmp = TreePath::new();
    let serializer = FilesystemSerializer::new(tmp.join("struct"));
    let deserializer = FilesystemDeserializer::new(tmp.join("struct"));
    let s = Value::Record(vec![
        (name("type"), Value::UnitVariant(name("V1"))),
        (name("content"), Value::Record(test_struct(100, 2100))),
    ]);
    s.serialize(&mut fs, serializer.clone()).unwrap();
    let shape = Shape::Record(vec![
        (name("type"), unit_variants(&["V1"])),
        (name("content"), Shape::Record(test_struct_shape())),
    ]);
    assert_eq!(shape.deserialize(&fs, deserializer.clone()).unwrap(), s);
}

#[test]
fn parse_errors_name_their_kind() {
    let mut fs = FileTree::new();
    let tmp = TreePath::new();
    let serializer = FilesystemSerializer::new(tmp.join("n"));
    let deserializer = FilesystemDeserializer::new(tmp.join("n"));
    text("300").serialize(&mut fs, serializer.clone()).unwrap();
    assert_eq!(
        deserializer.clone().deserialize_u8(&fs).unwrap_err(),
        Error::ParseIntError(IntErrorKind::PosOverflow)
    );
    text("-129").serialize(&mut fs, serializer.clone()).unwrap();
    assert_eq!(
        deserializer.clone().deserialize_i8(&fs).unwrap_err(),
        Error::ParseIntError(IntErrorKind::NegOverflow)
    );
    assert_eq!(
        deserializer.clone().deserialize_u8(&fs).unwrap_err(),
        Error::ParseIntError(IntErrorKind::InvalidDigit)
    );
    text("  ").serialize(&mut fs, serializer.clone()).unwrap();
    assert_eq!(
        deserializer.clone().deserialize_u8(&fs).unwrap_err(),
        Error::ParseIntError(IntErrorKind::Empty)
    );
    text("yes").serialize(&mut fs, serializer.clone()).unwrap();
    assert_eq!(deserializer.clone().deserialize_bool(&fs).unwrap_err(), Error::ParseBoolError);
}
