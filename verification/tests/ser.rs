use serde_fs::path::TreePath;
use serde_fs::ser::{write_to_file, Error};
use serde_fs::tree::FileTree;
use serde_fs::value::Value;
use serde_fs::FilesystemSerializer;

fn file_to_string(fs: &FileTree, path: &TreePath) -> String {
    String::from_utf8(fs.read(path).unwrap()).unwrap()
}

fn text(s: &str) -> Value {
    Value::Text(s.to_string())
}

fn test_struct(test: u8, passed: u64) -> Vec<(String, Value)> {
    vec![
        ("test".to_string(), Value::U8(test)),
        ("passed".to_string(), Value::U64(passed)),
    ]
}

#[test]
fn ser_boolean() {
    let mut fs = FileTree::new();
    let tmp = TreePath::new();
    let serializer = FilesystemSerializer::new(tmp.join("bool"));
    Value::Bool(true).serialize(&mut fs, serializer.clone()).unwrap();
    assert_eq!(file_to_string(&fs, &tmp.join("bool")), "true");
    Value::Bool(false).serialize(&mut fs, serializer.clone()).unwrap();
    assert_eq!(file_to_string(&fs, &tmp.join("bool")), "false");
}

#[test]
fn ser_numbers() {
    let mut fs = FileTree::new();
    let tmp = TreePath::new();
    let serializer = FilesystemSerializer::new(tmp.join("n"));
    Value::I8(-1).serialize(&mut fs, serializer.clone()).unwrap();
    assert_eq!(file_to_string(&fs, &tmp.join("n")), "-1");
    Value::U8(1).serialize(&mut fs, serializer.clone()).unwrap();
    assert_eq!(file_to_string(&fs, &tmp.join("n")), "1");
    Value::I16(-1).serialize(&mut fs, serializer.clone()).unwrap();
    assert_eq!(file_to_string(&fs, &tmp.join("n")), "-1");
    Value::U16(1).serialize(&mut fs, serializer.clone()).unwrap();
    assert_eq!(file_to_string(&fs, &tmp.join("n")), "1");
    Value::I32(-1).serialize(&mut fs, serializer.clone()).unwrap();
    assert_eq!(file_to_string(&fs, &tmp.join("n")), "-1");
    Value::U32(1).serialize(&mut fs, serializer.clone()).unwrap();
    assert_eq!(file_to_string(&fs, &tmp.join("n")), "1");
    Value::I64(-1).serialize(&mut fs, serializer.clone()).unwrap();
    assert_eq!(file_to_string(&fs, &tmp.join("n")), "-1");
    Value::U64(1).serialize(&mut fs, serializer.clone()).unwrap();
    assert_eq!(file_to_string(&fs, &tmp.join("n")), "1");
    serializer.clone().serialize_str(&mut fs, &format!("{}", 1.3f32)).unwrap();
    assert_eq!(file_to_string(&fs, &tmp.join("n")), "1.3");
    serializer.clone().serialize_str(&mut fs, &format!("{}", 1.31f64)).unwrap();
    assert_eq!(file_to_string(&fs, &tmp.join("n")), "1.31");
}

#[test]
fn ser_char() {
    let mut fs = FileTree::new();
    let tmp = TreePath::new();
    let serializer = FilesystemSerializer::new(tmp.join("c"));
    Value::Char('!').serialize(&mut fs, serializer.clone()).unwrap();
    assert_eq!(file_to_string(&fs, &tmp.join("c")), "!");
}

#[test]
fn ser_string() {
    let mut fs = FileTree::new();
    let tmp = TreePath::new();
    let serializer = FilesystemSerializer::new(tmp.join("str"));
    text("hello").serialize(&mut fs, serializer.clone()).unwrap();
    assert_eq!(file_to_string(&fs, &tmp.join("str")), "hello");
}

#[test]
fn ser_bytes() {
    let mut fs = FileTree::new();
    let tmp = TreePath::new();
    let serializer = FilesystemSerializer::new(tmp.join("bytes"));
    Value::Bytes(b"hello".to_vec()).serialize(&mut fs, serializer.clone()).unwrap();
    assert_eq!(file_to_string(&fs, &tmp.join("bytes")), "hello");
}

#[test]
fn ser_option() {
    let mut fs = FileTree::new();
    let tmp = TreePath::new();
    let serializer = FilesystemSerializer::new(tmp.join("option"));
    Value::Present(Box::new(text("hello"))).serialize(&mut fs, serializer.clone()).unwrap();
    assert_eq!(file_to_string(&fs, &tmp.join("option")), "hello");
    Value::Absent.serialize(&mut fs, serializer.clone()).unwrap();
    assert!(!fs.contains(&tmp.join("option")));
}

#[test]
fn ser_unit() {
    let mut fs = FileTree::new();
    let tmp = TreePath::new();
    let serializer = FilesystemSerializer::new(tmp.join("unit"));
    Value::Unit.serialize(&mut fs, serializer.clone()).unwrap();
    assert_eq!(file_to_string(&fs, &tmp.join("unit")), "");
}

#[test]
fn ser_unit_struct() {
    let mut fs = FileTree::new();
    let tmp = TreePath::new();
    let serializer = FilesystemSerializer::new(tmp.join("unit"));
    serializer.clone().serialize_unit_struct(&mut fs, "UnitStruct").unwrap();
    assert_eq!(file_to_string(&fs, &tmp.join("unit")), "");
}

#[test]
fn ser_unit_variant() {
    let mut fs = FileTree::new();
    let tmp = TreePath::new();
    let serializer = FilesystemSerializer::new(tmp.join("unit"));
    Value::UnitVariant("b".to_string()).serialize(&mut fs, serializer.clone()).unwrap();
    assert_eq!(file_to_string(&fs, &tmp.join("unit")), "b");
}

#[test]
fn ser_tuple_newtype_variant() {
    let mut fs = FileTree::new();
    let tmp = TreePath::new();
    let serializer = FilesystemSerializer::new(tmp.join("var"));
    Value::NewtypeVariant("C".to_string(), Box::new(Value::U8(100)))
        .serialize(&mut fs, serializer.clone())
        .unwrap();
    assert_eq!(file_to_string(&fs, &tmp.join("var").join("variant")), "C");
    assert_eq!(file_to_string(&fs, &tmp.join("var").join("value")), "100");
}

#[test]
fn tuple_newtype_variant_keep_aux_files() {
    let mut fs = FileTree::new();
    let tmp = TreePath::new();
    let serializer = FilesystemSerializer::new(tmp.join("var"));
    fs.create_dir_all(&tmp.join("var")).unwrap();
    write_to_file(&mut fs, &tmp.join("var").join("README.md"), b"Hello!".to_vec()).unwrap();
    Value::NewtypeVariant("C".to_string(), Box::new(Value::U8(100)))
        .serialize(&mut fs, serializer.clone())
        .unwrap();
    assert_eq!(file_to_string(&fs, &tmp.join("var").join("variant")), "C");
    assert_eq!(file_to_string(&fs, &tmp.join("var").join("value")), "100");
    assert_eq!(file_to_string(&fs, &tmp.join("var").join("README.md")), "Hello!");
}

#[test]
fn ser_tuple_newtype_variant_tag() {
    let mut fs = FileTree::new();
    let tmp = TreePath::new();
    let serializer = FilesystemSerializer::new(tmp.join("var"));
    Value::Record(vec![
        ("type".to_string(), Value::UnitVariant("C".to_string())),
        ("content".to_string(), Value::U8(100)),
    ])
    .serialize(&mut fs, serializer.clone())
    .unwrap();
    assert_eq!(file_to_string(&fs, &tmp.join("var").join("type")), "C");
    assert_eq!(file_to_string(&fs, &tmp.join("var").join("content")), "100");
}

#[test]
fn ser_newtype_struct() {
    let mut fs = FileTree::new();
    let tmp = TreePath::new();
    let serializer = FilesystemSerializer::new(tmp.join("newtype"));
    Value::Newtype(Box::new(Value::U8(100))).serialize(&mut fs, serializer.clone()).unwrap();
    assert_eq!(file_to_string(&fs, &tmp.join("newtype")), "100");
}

#[test]
fn ser_newtype_variant() {
    let mut fs = FileTree::new();
    let tmp = TreePath::new();
    let serializer = FilesystemSerializer::new(tmp.join("newtype"));
    Value::Newtype(Box::new(Value::UnitVariant("b".to_string())))
        .serialize(&mut fs, serializer.clone())
        .unwrap();
    assert_eq!(file_to_string(&fs, &tmp.join("newtype")), "b");
}

#[test]
fn ser_newtype_tuple_variant() {
    let mut fs = FileTree::new();
    let tmp = TreePath::new();
    let serializer = FilesystemSerializer::new(tmp.join("newtype"));
    let v = Value::Newtype(Box::new(Value::TupleVariant(
        "V1".to_string(),
        vec![Value::U8(100), Value::U8(100), Value::U8(100)],
    )));
    v.serialize(&mut fs, serializer.clone()).unwrap();
    assert_eq!(file_to_string(&fs, &tmp.join("newtype").join("variant")), "V1");
    assert_eq!(file_to_string(&fs, &tmp.join("newtype").join("0")), "100");
    assert_eq!(file_to_string(&fs, &tmp.join("newtype").join("1")), "100");
    assert_eq!(file_to_string(&fs, &tmp.join("newtype").join("2")), "100");
}

#[test]
fn ser_seq() {
    let mut fs = FileTree::new();
    let tmp = TreePath::new();
    let serializer = FilesystemSerializer::new(tmp.join("seq"));
    Value::Sequence(vec![Value::I32(100), Value::I32(200), Value::I32(300)])
        .serialize(&mut fs, serializer.clone())
        .unwrap();
    assert_eq!(file_to_string(&fs, &tmp.join("seq").join("0")), "100");
    assert_eq!(file_to_string(&fs, &tmp.join("seq").join("1")), "200");
    assert_eq!(file_to_string(&fs, &tmp.join("seq").join("2")), "300");
}

#[test]
fn seq_keep_aux_files() {
    let mut fs = FileTree::new();
    let tmp = TreePath::new();
    let serializer = FilesystemSerializer::new(tmp.join("seq"));
    fs.create_dir_all(&tmp.join("seq")).unwrap();
    write_to_file(&mut fs, &tmp.join("seq").join("README.md"), b"Hello!".to_vec()).unwrap();
    Value::Sequence(vec![Value::I32(100), Value::I32(200), Value::I32(300)])
        .serialize(&mut fs, serializer.clone())
        .unwrap();
    assert_eq!(file_to_string(&fs, &tmp.join("seq").join("README.md")), "Hello!");
}

#[test]
fn seq_empty() {
    let mut fs = FileTree::new();
    let tmp = TreePath::new();
    let serializer = FilesystemSerializer::new(tmp.join("seq"));
    Value::Sequence(Vec::new()).serialize(&mut fs, serializer.clone()).unwrap();
    assert!(fs.is_dir(&tmp.join("seq")));
}

#[test]
fn seq_shrink() {
    let mut fs = FileTree::new();
    let tmp = TreePath::new();
    let serializer = FilesystemSerializer::new(tmp.join("seq"));
    Value::Sequence(vec![Value::I32(100), Value::I32(200), Value::I32(300)])
        .serialize(&mut fs, serializer.clone())
        .unwrap();
    Value::Sequence(vec![Value::I32(100), Value::I32(200)])
        .serialize(&mut fs, serializer.clone())
        .unwrap();
    assert_eq!(file_to_string(&fs, &tmp.join("seq").join("0")), "100");
    assert_eq!(file_to_string(&fs, &tmp.join("seq").join("1")), "200");
    assert!(!fs.contains(&tmp.join("seq").join("2")));
}

#[test]
fn ser_tuple() {
    let mut fs = FileTree::new();
    let tmp = TreePath::new();
    let serializer = FilesystemSerializer::new(tmp.join("tuple"));
    Value::Tuple(vec![Value::I32(100), Value::I32(200), Value::I32(300)])
        .serialize(&mut fs, serializer.clone())
        .unwrap();
    assert_eq!(file_to_string(&fs, &tmp.join("tuple").join("0")), "100");
    assert_eq!(file_to_string(&fs, &tmp.join("tuple").join("1")), "200");
    assert_eq!(file_to_string(&fs, &tmp.join("tuple").join("2")), "300");
}

#[test]
fn ser_tuple_struct() {
    let mut fs = FileTree::new();
    let tmp = TreePath::new();
    let serializer = FilesystemSerializer::new(tmp.join("tuple"));
    let mut fields = serializer.clone().serialize_tuple_struct(&mut fs, "TupleStruct", 3).unwrap();
    fields.serialize_field(&mut fs, &Value::U8(100)).unwrap();
    fields.serialize_field(&mut fs, &Value::U8(200)).unwrap();
    fields.serialize_field(&mut fs, &Value::U8(100)).unwrap();
    fields.end().unwrap();
    assert_eq!(file_to_string(&fs, &tmp.join("tuple").join("0")), "100");
    assert_eq!(file_to_string(&fs, &tmp.join("tuple").join("1")), "200");
    assert_eq!(file_to_string(&fs, &tmp.join("tuple").join("2")), "100");
}

#[test]
fn ser_tuple_variant() {
    let mut fs = FileTree::new();
    let tmp = TreePath::new();
    let serializer = FilesystemSerializer::new(tmp.join("tuple"));
    Value::TupleVariant("V1".to_string(), vec![Value::U8(100), Value::U8(200), Value::U8(100)])
        .serialize(&mut fs, serializer.clone())
        .unwrap();
    assert_eq!(file_to_string(&fs, &tmp.join("tuple").join("variant")), "V1");
    assert_eq!(file_to_string(&fs, &tmp.join("tuple").join("0")), "100");
    assert_eq!(file_to_string(&fs, &tmp.join("tuple").join("1")), "200");
    assert_eq!(file_to_string(&fs, &tmp.join("tuple").join("2")), "100");
}

#[test]
fn ser_map() {
    let mut fs = FileTree::new();
    let tmp = TreePath::new();
    let serializer = FilesystemSerializer::new(tmp.join("map"));
    Value::Mapping(vec![(text("test"), Value::I32(100)), (text("passed"), Value::I32(2100))])
        .serialize(&mut fs, serializer.clone())
        .unwrap();
    assert_eq!(file_to_string(&fs, &tmp.join("map").join("test")), "100");
    assert_eq!(file_to_string(&fs, &tmp.join("map").join("passed")), "2100");
}

#[test]
fn map_keep_aux_files() {
    let mut fs = FileTree::new();
    let tmp = TreePath::new();
    let serializer = FilesystemSerializer::new(tmp.join("map"));
    fs.create_dir_all(&tmp.join("map")).unwrap();
    write_to_file(&mut fs, &tmp.join("map").join("README.md"), b"Hello!".to_vec()).unwrap();
    Value::Sequence(vec![Value::I32(100), Value::I32(200), Value::I32(300)])
        .serialize(&mut fs, serializer.clone())
        .unwrap();
    assert_eq!(file_to_string(&fs, &tmp.join("map").join("README.md")), "Hello!");
}

#[test]
fn map_extra() {
    let mut fs = FileTree::new();
    let tmp = TreePath::new();
    let serializer = FilesystemSerializer::new(tmp.join("map"));
    Value::Mapping(vec![(text("test"), Value::I32(100)), (text("passed"), Value::I32(2100))])
        .serialize(&mut fs, serializer.clone())
        .unwrap();
    Value::Mapping(vec![(text("test"), Value::I32(100))])
        .serialize(&mut fs, serializer.clone())
        .unwrap();
    assert!(!fs.contains(&tmp.join("passed")));
}

fn key_must_be_a_string_check(fs: &mut FileTree, serializer: &FilesystemSerializer, key: Value, value: Value) {
    let err = Value::Mapping(vec![(key, value)]).serialize(fs, serializer.clone()).unwrap_err();
    assert!(matches!(err, Error::KeyMustBeAString));
}

#[test]
fn map_invalid_key() {
    let mut fs = FileTree::new();
    let tmp = TreePath::new();
    let serializer = FilesystemSerializer::new(tmp.join("map"));
    key_must_be_a_string_check(&mut fs, &serializer, Value::I8(0), Value::I8(0));
    key_must_be_a_string_check(&mut fs, &serializer, Value::U8(0), Value::U8(0));
    key_must_be_a_string_check(&mut fs, &serializer, Value::I16(0), Value::I16(0));
    key_must_be_a_string_check(&mut fs, &serializer, Value::U16(0), Value::U16(0));
    key_must_be_a_string_check(&mut fs, &serializer, Value::I32(0), Value::I32(0));
    key_must_be_a_string_check(&mut fs, &serializer, Value::U32(0), Value::U32(0));
    key_must_be_a_string_check(&mut fs, &serializer, Value::I64(0), Value::I64(0));
    key_must_be_a_string_check(&mut fs, &serializer, Value::U64(0), Value::U64(0));
    key_must_be_a_string_check(&mut fs, &serializer, Value::Bool(false), Value::Bool(false));
    key_must_be_a_string_check(
        &mut fs,
        &serializer,
        Value::Record(test_struct(0, 0)),
        Value::Record(test_struct(0, 0)),
    );
}

#[test]
fn ser_structure() {
    let mut fs = FileTree::new();
    let tmp = TreePath::new();
    let serializer = FilesystemSerializer::new(tmp.join("struct"));
    Value::Record(test_struct(100, 2100)).serialize(&mut fs, serializer.clone()).unwrap();
    assert_eq!(file_to_string(&fs, &tmp.join("struct").join("test")), "100");
    assert_eq!(file_to_string(&fs, &tmp.join("struct").join("passed")), "2100");
}

#[test]
fn structure_keep_aux_files() {
    let mut fs = FileTree::new();
    let tmp = TreePath::new();
    let serializer = FilesystemSerializer::new(tmp.join("struct"));
    fs.create_dir_all(&tmp.join("struct")).unwrap();
    write_to_file(&mut fs, &tmp.join("struct").join("README.md"), b"Hello!".to_vec()).unwrap();
    Value::Record(test_struct(100, 2100)).serialize(&mut fs, serializer.clone()).unwrap();
    assert_eq!(file_to_string(&fs, &tmp.join("struct").join("README.md")), "Hello!");
}

#[test]
fn ser_struct_variant() {
    let mut fs = FileTree::new();
    let tmp = TreePath::new();
    let serializer = FilesystemSerializer::new(tmp.join("struct"));
    Value::StructVariant("V1".to_string(), test_struct(100, 2100))
        .serialize(&mut fs, serializer.clone())
        .unwrap();
    assert_eq!(file_to_string(&fs, &tmp.join("struct").join("variant")), "V1");
    assert_eq!(file_to_string(&fs, &tmp.join("struct").join("test")), "100");
    assert_eq!(file_to_string(&fs, &tmp.join("struct").join("passed")), "2100");
}

#[test]
fn ser_struct_variant_tag() {
    let mut fs = FileTree::new();
    let tmp = TreePath::new();
    let serializer = FilesystemSerializer::new(tmp.join("struct"));
    Value::Record(vec![
        ("type".to_string(), text("V1")),
        ("test".to_string(), Value::U8(100)),
        ("passed".to_string(), Value::U64(2100)),
    ])
    .serialize(&mut fs, serializer.clone())
    .unwrap();
    assert_eq!(file_to_string(&fs, &tmp.join("struct").join("type")), "V1");
    assert_eq!(file_to_string(&fs, &tmp.join("struct").join("test")), "100");
    assert_eq!(file_to_string(&fs, &tmp.join("struct").join("passed")), "2100");
}

#[test]
fn ser_struct_variant_tag_content() {
    let mut fs = FileTree::new();
    let tmp = TreePath::new();
    let serializer = FilesystemSerializer::new(tmp.join("struct"));
    Value::Record(vec![
        ("type".to_string(), Value::UnitVariant("V1".to_string())),
        ("content".to_string(), Value::Record(test_struct(100, 2100))),
    ])
    .serialize(&mut fs, serializer.clone())
    .unwrap();
    assert_eq!(file_to_string(&fs, &tmp.join("struct").join("type")), "V1");
    assert_eq!(file_to_string(&fs, &tmp.join("struct").join("content").join("test")), "100");
    assert_eq!(file_to_string(&fs, &tmp.join("struct").join("content").join("passed")), "2100");
}
