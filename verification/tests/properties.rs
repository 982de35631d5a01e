use serde_fs::de::{AnyContent, Error as DeError};
use serde_fs::path::TreePath;
use serde_fs::ser::{write_to_file, Error as SerError};
use serde_fs::text::{format_signed, format_unsigned, trim, IntErrorKind, IntKind};
use serde_fs::tree::{FileTree, FsOp, IoErrorKind};
use serde_fs::value::{Shape, Value};
use serde_fs::{from_fs, from_fs_in_place, to_fs, FilesystemDeserializer, FilesystemSerializer};

fn text(s: &str) -> Value {
    Value::Text(s.to_string())
}

fn name(s: &str) -> String {
    s.to_string()
}

fn file_to_string(fs: &FileTree, path: &TreePath) -> String {
    String::from_utf8(fs.read(path).unwrap()).unwrap()
}

fn path_text(path: &TreePath) -> String {
    let mut parts = Vec::new();
    for i in 0..path.len() {
        parts.push(path.name(i).clone());
    }
    parts.join("/")
}

fn collect(fs: &FileTree, path: &TreePath, out: &mut Vec<(String, Option<Vec<u8>>)>) {
    if fs.is_file(path) {
        out.push((path_text(path), Some(fs.read(path).unwrap())));
    } else if fs.is_dir(path) {
        out.push((path_text(path), None));
        for child in fs.read_dir(path).unwrap() {
            collect(fs, &path.join(&child), out);
        }
    }
}

fn snapshot(fs: &FileTree) -> Vec<(String, Option<Vec<u8>>)> {
    let mut out = Vec::new();
    collect(fs, &TreePath::new(), &mut out);
    out.sort();
    out
}

fn sample() -> (Value, Shape) {
    let value = Value::Record(vec![
        (name("flag"), Value::Bool(true)),
        (name("count"), Value::I64(i64::MIN)),
        (name("letter"), Value::Char('x')),
        (name("title"), text("  spaced out \n")),
        (name("blob"), Value::Bytes(vec![0, 159, 146, 150])),
        (name("nothing"), Value::Unit),
        (name("maybe"), Value::Absent),
        (name("surely"), Value::Present(Box::new(Value::U64(u64::MAX)))),
        (name("wrapped"), Value::Newtype(Box::new(Value::U8(7)))),
        (
            name("list"),
            Value::Sequence(vec![
                Value::Tuple(vec![Value::I8(-1), text("a")]),
                Value::Tuple(vec![Value::I8(2), text("b")]),
            ]),
        ),
        (name("unit"), Value::UnitVariant(name("Off"))),
        (name("boxed"), Value::NewtypeVariant(name("Level"), Box::new(Value::U16(3)))),
        (name("pair"), Value::TupleVariant(name("Pair"), vec![Value::U8(1), Value::U8(2)])),
        (
            name("point"),
            Value::StructVariant(
                name("Point"),
                vec![(name("x"), Value::I32(-5)), (name("y"), Value::I32(6))],
            ),
        ),
    ]);
    let variants = vec![
        (name("Off"), Shape::Unit),
        (name("Level"), Shape::Newtype(Box::new(Shape::Int(IntKind::U16)))),
        (name("Pair"), Shape::Tuple(vec![Shape::Int(IntKind::U8), Shape::Int(IntKind::U8)])),
        (
            name("Point"),
            Shape::Record(vec![
                (name("x"), Shape::Int(IntKind::I32)),
                (name("y"), Shape::Int(IntKind::I32)),
            ]),
        ),
    ];
    let shape = Shape::Record(vec![
        (name("flag"), Shape::Bool),
        (name("count"), Shape::Int(IntKind::I64)),
        (name("letter"), Shape::Char),
        (name("title"), Shape::Text),
        (name("blob"), Shape::Bytes),
        (name("nothing"), Shape::Unit),
        (name("maybe"), Shape::Optional(Box::new(Shape::Text))),
        (name("surely"), Shape::Optional(Box::new(Shape::Int(IntKind::U64)))),
        (name("wrapped"), Shape::Newtype(Box::new(Shape::Int(IntKind::U8)))),
        (
            name("list"),
            Shape::Sequence(Box::new(Shape::Tuple(vec![Shape::Int(IntKind::I8), Shape::Text]))),
        ),
        (name("unit"), Shape::Enum(vec![(name("Off"), Shape::Unit)])),
        (name("boxed"), Shape::Enum(variants_copy(&variants))),
        (name("pair"), Shape::Enum(variants_copy(&variants))),
        (name("point"), Shape::Enum(variants)),
    ]);
    (value, shape)
}

fn variants_copy(variants: &Vec<(String, Shape)>) -> Vec<(String, Shape)> {
    let mut out = Vec::new();
    for (n, s) in variants {
        out.push((n.clone(), shape_copy(s)));
    }
    out
}

fn shape_copy(shape: &Shape) -> Shape {
    match shape {
        Shape::Bool => Shape::Bool,
        Shape::Int(kind) => Shape::Int(*kind),
        Shape::Char => Shape::Char,
        Shape::Text => Shape::Text,
        Shape::Bytes => Shape::Bytes,
        Shape::Unit => Shape::Unit,
        Shape::Optional(inner) => Shape::Optional(Box::new(shape_copy(inner))),
        Shape::Newtype(inner) => Shape::Newtype(Box::new(shape_copy(inner))),
        Shape::Sequence(inner) => Shape::Sequence(Box::new(shape_copy(inner))),
        Shape::Tuple(shapes) => Shape::Tuple(shapes.iter().map(shape_copy).collect()),
        Shape::Mapping(inner) => Shape::Mapping(Box::new(shape_copy(inner))),
        Shape::Record(fields) => Shape::Record(variants_copy(fields)),
        Shape::Enum(variants) => Shape::Enum(variants_copy(variants)),
    }
}

#[test]
fn round_trip_of_every_shape() {
    let mut fs = FileTree::new();
    let root = TreePath::new().join("data");
    let (value, shape) = sample();
    to_fs(&mut fs, root.clone(), &value).unwrap();
    assert_eq!(from_fs(&fs, root.clone(), &shape).unwrap(), value);
}

#[test]
fn round_trip_over_what_was_there() {
    let mut fs = FileTree::new();
    let root = TreePath::new().join("data");
    to_fs(&mut fs, root.join("list").join("7"), &text("stale")).unwrap();
    to_fs(&mut fs, root.join("flag").join("deep"), &text("stale")).unwrap();
    to_fs(&mut fs, root.join("README.md"), &text("Hello!")).unwrap();
    let (value, shape) = sample();
    to_fs(&mut fs, root.clone(), &value).unwrap();
    assert_eq!(from_fs(&fs, root.clone(), &shape).unwrap(), value);
    assert_eq!(file_to_string(&fs, &root.join("README.md")), "Hello!");
    assert!(!fs.contains(&root.join("list").join("7")));
}

#[test]
fn encoding_twice_leaves_the_same_tree() {
    let mut fs = FileTree::new();
    let root = TreePath::new().join("data");
    to_fs(&mut fs, root.join("README.md"), &text("Hello!")).unwrap();
    let (value, shape) = sample();
    to_fs(&mut fs, root.clone(), &value).unwrap();
    let first = snapshot(&fs);
    to_fs(&mut fs, root.clone(), &value).unwrap();
    assert_eq!(snapshot(&fs), first);
    assert_eq!(from_fs(&fs, root.clone(), &shape).unwrap(), value);
}

#[test]
fn struct_ignores_foreign_files() {
    let mut fs = FileTree::new();
    let root = TreePath::new().join("struct");
    fs.create_dir_all(&root).unwrap();
    write_to_file(&mut fs, &root.join("README.md"), b"Hello!".to_vec()).unwrap();
    let value = Value::Record(vec![(name("test"), Value::U8(100))]);
    to_fs(&mut fs, root.clone(), &value).unwrap();
    assert_eq!(file_to_string(&fs, &root.join("README.md")), "Hello!");
    let shape = Shape::Record(vec![(name("test"), Shape::Int(IntKind::U8))]);
    assert_eq!(from_fs(&fs, root.clone(), &shape).unwrap(), value);
}

#[test]
fn tuple_with_too_many_elements() {
    let mut fs = FileTree::new();
    let root = TreePath::new().join("tuple");
    to_fs(&mut fs, root.clone(), &Value::Tuple(vec![Value::U8(1), Value::U8(2), Value::U8(3)]))
        .unwrap();
    let shape = Shape::Tuple(vec![Shape::Int(IntKind::U8), Shape::Int(IntKind::U8)]);
    assert_eq!(
        from_fs(&fs, root.clone(), &shape).unwrap_err(),
        DeError::InvalidLen { expected: 2, got: 3 }
    );
}

#[test]
fn absence_round_trip() {
    let mut fs = FileTree::new();
    let root = TreePath::new().join("option");
    to_fs(&mut fs, root.clone(), &Value::Sequence(vec![Value::U8(1)])).unwrap();
    assert!(fs.is_dir(&root));
    to_fs(&mut fs, root.clone(), &Value::Absent).unwrap();
    assert!(!fs.contains(&root));
    assert!(!fs.contains(&root.join("0")));
    let optional = Shape::Optional(Box::new(Shape::Int(IntKind::U8)));
    assert_eq!(from_fs(&fs, root.clone(), &optional).unwrap(), Value::Absent);
    assert_eq!(
        from_fs(&fs, root.clone(), &Shape::Int(IntKind::U8)).unwrap_err(),
        DeError::FileNotFound
    );
    assert_eq!(from_fs(&fs, root.clone(), &Shape::Text).unwrap_err(), DeError::FileNotFound);
}

#[test]
fn boolean_overwrites_boolean() {
    let mut fs = FileTree::new();
    let p = TreePath::new().join("P");
    to_fs(&mut fs, p.clone(), &Value::Bool(true)).unwrap();
    assert_eq!(fs.read(&p).unwrap(), b"true".to_vec());
    to_fs(&mut fs, p.clone(), &Value::Bool(false)).unwrap();
    assert_eq!(fs.read(&p).unwrap(), b"false".to_vec());
}

#[test]
fn newtype_variant_is_a_directory() {
    let mut fs = FileTree::new();
    let v = TreePath::new().join("V");
    to_fs(&mut fs, v.clone(), &Value::NewtypeVariant(name("C"), Box::new(Value::U8(100)))).unwrap();
    assert!(fs.is_dir(&v));
    assert_eq!(file_to_string(&fs, &v.join("variant")), "C");
    assert_eq!(file_to_string(&fs, &v.join("value")), "100");
}

#[test]
fn map_entries_are_files_named_by_key() {
    let mut fs = FileTree::new();
    let m = TreePath::new().join("M");
    let value = Value::Mapping(vec![
        (text("test"), Value::I32(100)),
        (text("passed"), Value::I32(2100)),
    ]);
    to_fs(&mut fs, m.clone(), &value).unwrap();
    assert_eq!(file_to_string(&fs, &m.join("test")), "100");
    assert_eq!(file_to_string(&fs, &m.join("passed")), "2100");
    let mut names = fs.read_dir(&m).unwrap();
    names.sort();
    assert_eq!(names, vec![name("passed"), name("test")]);
}

#[test]
fn map_keeps_keys_of_an_earlier_map() {
    let mut fs = FileTree::new();
    let m = TreePath::new().join("map");
    to_fs(&mut fs, m.clone(), &Value::Mapping(vec![(text("old"), Value::U8(1))])).unwrap();
    to_fs(&mut fs, m.clone(), &Value::Mapping(vec![(text("new"), Value::U8(2))])).unwrap();
    assert_eq!(file_to_string(&fs, &m.join("old")), "1");
    assert_eq!(file_to_string(&fs, &m.join("new")), "2");
}

#[test]
fn sequence_removes_every_index_named_entry() {
    let mut fs = FileTree::new();
    let s = TreePath::new().join("seq");
    to_fs(&mut fs, s.join("007"), &text("stale")).unwrap();
    to_fs(&mut fs, s.join("+5"), &text("stale")).unwrap();
    to_fs(&mut fs, s.join("3").join("inner"), &text("stale")).unwrap();
    to_fs(&mut fs, s.join("-1"), &text("kept")).unwrap();
    to_fs(&mut fs, s.join("1a"), &text("kept")).unwrap();
    to_fs(&mut fs, s.join("99999999999999999999999999"), &text("kept")).unwrap();
    to_fs(&mut fs, s.clone(), &Value::Sequence(vec![Value::U8(9)])).unwrap();
    assert_eq!(file_to_string(&fs, &s.join("0")), "9");
    assert!(!fs.contains(&s.join("007")));
    assert!(!fs.contains(&s.join("+5")));
    assert!(!fs.contains(&s.join("3")));
    assert!(!fs.contains(&s.join("3").join("inner")));
    assert_eq!(file_to_string(&fs, &s.join("-1")), "kept");
    assert_eq!(file_to_string(&fs, &s.join("1a")), "kept");
    assert_eq!(file_to_string(&fs, &s.join("99999999999999999999999999")), "kept");
}

#[test]
fn shape_replaces_shape() {
    let mut fs = FileTree::new();
    let p = TreePath::new().join("node");
    to_fs(&mut fs, p.clone(), &Value::Record(vec![(name("a"), Value::U8(1))])).unwrap();
    to_fs(&mut fs, p.clone(), &text("leaf")).unwrap();
    assert!(fs.is_file(&p));
    assert!(!fs.contains(&p.join("a")));
    to_fs(&mut fs, p.clone(), &Value::Tuple(vec![Value::U8(1)])).unwrap();
    assert!(fs.is_dir(&p));
    assert_eq!(file_to_string(&fs, &p.join("0")), "1");
    to_fs(&mut fs, p.clone(), &Value::Record(vec![(name("a"), Value::U8(2))])).unwrap();
    assert_eq!(file_to_string(&fs, &p.join("0")), "1");
    assert_eq!(file_to_string(&fs, &p.join("a")), "2");
}

#[test]
fn writing_beneath_a_file_fails() {
    let mut fs = FileTree::new();
    let p = TreePath::new().join("file");
    to_fs(&mut fs, p.clone(), &text("leaf")).unwrap();
    let before = snapshot(&fs);
    assert_eq!(
        to_fs(&mut fs, p.join("a").join("b"), &Value::U8(1)).unwrap_err(),
        SerError::IoError(IoErrorKind::NotADirectory)
    );
    assert_eq!(snapshot(&fs), before);
}

#[test]
fn a_failed_key_keeps_what_was_written() {
    let mut fs = FileTree::new();
    let m = TreePath::new().join("map");
    let value = Value::Mapping(vec![
        (text("good"), Value::U8(1)),
        (Value::Char('c'), Value::U8(2)),
        (text("late"), Value::U8(3)),
    ]);
    assert_eq!(to_fs(&mut fs, m.clone(), &value).unwrap_err(), SerError::KeyMustBeAString);
    assert_eq!(file_to_string(&fs, &m.join("good")), "1");
    assert!(!fs.contains(&m.join("late")));
}

#[test]
fn map_serializer_wants_a_key_before_a_value() {
    let mut fs = FileTree::new();
    let m = TreePath::new().join("map");
    let mut map = FilesystemSerializer::new(m.clone()).serialize_map(&mut fs, None).unwrap();
    assert_eq!(
        map.serialize_value(&mut fs, &Value::U8(1)).unwrap_err(),
        SerError::KeyMustBeAString
    );
    map.serialize_key(&mut fs, &text("k")).unwrap();
    map.serialize_value(&mut fs, &Value::U8(1)).unwrap();
    assert_eq!(map.serialize_key(&mut fs, &Value::U8(1)).unwrap_err(), SerError::KeyMustBeAString);
    map.end().unwrap();
    assert_eq!(file_to_string(&fs, &m.join("k")), "1");
}

#[test]
fn reading_errors() {
    let mut fs = FileTree::new();
    let root = TreePath::new();
    to_fs(&mut fs, root.join("dir").join("x"), &Value::U8(1)).unwrap();
    fs.write(&root.join("bad"), vec![0xff, 0xfe]).unwrap();
    let dir = FilesystemDeserializer::new(root.join("dir"));
    let bad = FilesystemDeserializer::new(root.join("bad"));
    assert_eq!(
        dir.clone().deserialize_string(&fs).unwrap_err(),
        DeError::IoError(IoErrorKind::IsADirectory)
    );
    assert_eq!(
        bad.clone().deserialize_string(&fs).unwrap_err(),
        DeError::IoError(IoErrorKind::InvalidData)
    );
    assert_eq!(bad.clone().deserialize_bytes(&fs).unwrap(), vec![0xff, 0xfe]);
    assert_eq!(dir.clone().deserialize_unit(&fs).unwrap_err(), DeError::FileNotFound);
    assert_eq!(
        from_fs(&fs, root.join("bad"), &Shape::Mapping(Box::new(Shape::Text))).unwrap_err(),
        DeError::IoError(IoErrorKind::NotADirectory)
    );
    assert_eq!(
        from_fs(&fs, root.join("none"), &Shape::Mapping(Box::new(Shape::Text))).unwrap_err(),
        DeError::FileNotFound
    );
}

#[test]
fn text_is_read_in_utf8() {
    let mut fs = FileTree::new();
    let p = TreePath::new().join("text");
    to_fs(&mut fs, p.clone(), &text("héllo wörld ✓")).unwrap();
    assert_eq!(fs.read(&p).unwrap(), "héllo wörld ✓".as_bytes().to_vec());
    assert_eq!(from_fs(&fs, p.clone(), &Shape::Text).unwrap(), text("héllo wörld ✓"));
}

#[test]
fn character_is_read_as_one_byte() {
    let mut fs = FileTree::new();
    let p = TreePath::new().join("c");
    to_fs(&mut fs, p.clone(), &Value::Char('é')).unwrap();
    assert_eq!(fs.read(&p).unwrap(), vec![0xc3, 0xa9]);
    assert_eq!(from_fs(&fs, p.clone(), &Shape::Char).unwrap(), Value::Char('\u{c3}'));
    to_fs(&mut fs, p.clone(), &text("xyz")).unwrap();
    assert_eq!(from_fs(&fs, p.clone(), &Shape::Char).unwrap(), Value::Char('x'));
}

#[test]
fn enum_shapes() {
    let mut fs = FileTree::new();
    let p = TreePath::new().join("e");
    to_fs(&mut fs, p.clone(), &Value::UnitVariant(name("A"))).unwrap();
    let newtype = Shape::Enum(vec![(name("A"), Shape::Newtype(Box::new(Shape::Bool)))]);
    assert_eq!(
        from_fs(&fs, p.clone(), &newtype).unwrap_err(),
        DeError::Custom(name("invalid type: unit variant, expected newtype variant"))
    );
    let tuple = Shape::Enum(vec![(name("A"), Shape::Tuple(vec![Shape::Bool]))]);
    assert_eq!(
        from_fs(&fs, p.clone(), &tuple).unwrap_err(),
        DeError::Custom(name("invalid type: unit variant, expected tuple variant"))
    );
    let record = Shape::Enum(vec![(name("A"), Shape::Record(vec![(name("f"), Shape::Bool)]))]);
    assert_eq!(
        from_fs(&fs, p.clone(), &record).unwrap_err(),
        DeError::Custom(name("invalid type: unit variant, expected struct variant"))
    );
    let odd = Shape::Enum(vec![(name("A"), Shape::Bool)]);
    assert_eq!(from_fs(&fs, p.clone(), &odd).unwrap_err(), DeError::Unsupported);
    let twice = Shape::Enum(vec![(name("B"), Shape::Bool), (name("A"), Shape::Unit), (name("A"), Shape::Bool)]);
    assert_eq!(from_fs(&fs, p.clone(), &twice).unwrap(), Value::UnitVariant(name("A")));
    let other_case = Shape::Enum(vec![(name("a"), Shape::Unit)]);
    assert_eq!(from_fs(&fs, p.clone(), &other_case).unwrap_err(), DeError::InvalidEnum(name("A")));
    to_fs(&mut fs, p.clone(), &Value::NewtypeVariant(name("A"), Box::new(Value::Bool(true))))
        .unwrap();
    let unit = Shape::Enum(vec![(name("A"), Shape::Unit)]);
    assert_eq!(from_fs(&fs, p.clone(), &unit).unwrap(), Value::UnitVariant(name("A")));
    assert_eq!(
        from_fs(&fs, p.clone(), &newtype).unwrap(),
        Value::NewtypeVariant(name("A"), Box::new(Value::Bool(true)))
    );
}

#[test]
fn sequence_ends_at_the_first_gap() {
    let mut fs = FileTree::new();
    let s = TreePath::new().join("seq");
    to_fs(&mut fs, s.join("0"), &Value::U8(1)).unwrap();
    to_fs(&mut fs, s.join("1"), &Value::U8(2)).unwrap();
    to_fs(&mut fs, s.join("3"), &Value::U8(4)).unwrap();
    let shape = Shape::Sequence(Box::new(Shape::Int(IntKind::U8)));
    assert_eq!(
        from_fs(&fs, s.clone(), &shape).unwrap(),
        Value::Sequence(vec![Value::U8(1), Value::U8(2)])
    );
    assert_eq!(
        from_fs(&fs, TreePath::new().join("none"), &shape).unwrap(),
        Value::Sequence(Vec::new())
    );
}

#[test]
fn any_content() {
    let mut fs = FileTree::new();
    let root = TreePath::new();
    to_fs(&mut fs, root.join("dir").join("x"), &Value::U8(1)).unwrap();
    match FilesystemDeserializer::new(root.join("dir")).deserialize_any(&fs).unwrap() {
        AnyContent::Entries(mut access) => {
            assert_eq!(access.next_key_seed().unwrap(), Some(name("x")));
            let value = access.next_value_seed().unwrap();
            assert_eq!(value.deserialize_u8(&fs).unwrap(), 1);
            assert_eq!(access.next_key_seed().unwrap(), None);
            assert_eq!(access.next_value_seed().unwrap_err(), DeError::FileNotFound);
        }
        AnyContent::Text(_) => panic!("a directory is read as a map"),
    }
    match FilesystemDeserializer::new(root.join("dir").join("x")).deserialize_any(&fs).unwrap() {
        AnyContent::Text(text) => assert_eq!(text, "1"),
        AnyContent::Entries(_) => panic!("a file is read as text"),
    }
    assert!(matches!(
        FilesystemDeserializer::new(root.join("none")).deserialize_any(&fs),
        Err(DeError::FileNotFound)
    ));
}

#[test]
fn in_place_keeps_the_value_on_failure() {
    let mut fs = FileTree::new();
    let p = TreePath::new().join("n");
    to_fs(&mut fs, p.clone(), &text("12")).unwrap();
    let mut place = Value::U8(0);
    from_fs_in_place(&fs, p.clone(), &Shape::Int(IntKind::U8), &mut place).unwrap();
    assert_eq!(place, Value::U8(12));
    assert_eq!(
        from_fs_in_place(&fs, p.clone(), &Shape::Bool, &mut place).unwrap_err(),
        DeError::ParseBoolError
    );
    assert_eq!(place, Value::U8(12));
}

#[test]
fn canonical_integer_text() {
    assert_eq!(format_signed(0), "0");
    assert_eq!(format_signed(-1), "-1");
    assert_eq!(format_signed(i64::MIN), "-9223372036854775808");
    assert_eq!(format_signed(i64::MAX), "9223372036854775807");
    assert_eq!(format_unsigned(u64::MAX), "18446744073709551615");
    assert_eq!(format_unsigned(1000), "1000");
    assert_eq!(path_text(&TreePath::new().join_index(10)), "10");
}

#[test]
fn integers_are_parsed_as_the_platform_does() {
    let mut fs = FileTree::new();
    let p = TreePath::new().join("n");
    let de = FilesystemDeserializer::new(p.clone());
    for (input, expected) in [
        ("+7", Ok(7i8)),
        ("-0", Ok(0)),
        ("007", Ok(7)),
        ("-128", Ok(-128)),
        ("127", Ok(127)),
        ("128", Err(IntErrorKind::PosOverflow)),
        ("-129", Err(IntErrorKind::NegOverflow)),
        ("", Err(IntErrorKind::Empty)),
        ("-", Err(IntErrorKind::InvalidDigit)),
        ("+", Err(IntErrorKind::InvalidDigit)),
        ("1_0", Err(IntErrorKind::InvalidDigit)),
        ("1 0", Err(IntErrorKind::InvalidDigit)),
        ("999x", Err(IntErrorKind::PosOverflow)),
        ("9x99", Err(IntErrorKind::InvalidDigit)),
        ("\u{a0}\t5\u{2003}\u{3000}\r\n", Ok(5)),
    ] {
        to_fs(&mut fs, p.clone(), &text(input)).unwrap();
        assert_eq!(input.trim().parse::<i8>().ok(), expected.ok(), "std on {:?}", input);
        assert_eq!(
            de.clone().deserialize_i8(&fs),
            expected.map_err(DeError::ParseIntError),
            "on {:?}",
            input
        );
    }
    to_fs(&mut fs, p.clone(), &text("-1")).unwrap();
    assert_eq!(
        de.clone().deserialize_u8(&fs).unwrap_err(),
        DeError::ParseIntError(IntErrorKind::InvalidDigit)
    );
    to_fs(&mut fs, p.clone(), &text("+255")).unwrap();
    assert_eq!(de.clone().deserialize_u8(&fs).unwrap(), 255);
}

#[test]
fn trimming_is_that_of_the_platform() {
    for input in ["", " ", " a ", "\u{85}a\u{1680}", "a b", "\u{200b}a", "\u{feff}a", " \u{2028}x\u{2029}\u{202f}\u{205f}"] {
        let chars: Vec<char> = input.chars().collect();
        let trimmed: String = trim(&chars).into_iter().collect();
        assert_eq!(trimmed, input.trim(), "on {:?}", input);
    }
}

#[test]
fn journal_records_the_changes_in_order() {
    let mut fs = FileTree::new();
    let p = TreePath::new().join("dir").join("bool");
    assert!(fs.take_journal().is_empty());
    to_fs(&mut fs, p.clone(), &Value::Bool(true)).unwrap();
    assert_eq!(
        fs.take_journal(),
        vec![FsOp::CreateParentDirs(p.clone()), FsOp::Write(p.clone(), b"true".to_vec())]
    );
    to_fs(&mut fs, p.clone(), &Value::Sequence(vec![Value::U8(1)])).unwrap();
    assert_eq!(
        fs.take_journal(),
        vec![
            FsOp::RemoveFile(p.clone()),
            FsOp::CreateDirAll(p.clone()),
            FsOp::CreateParentDirs(p.join("0")),
            FsOp::Write(p.join("0"), b"1".to_vec()),
        ]
    );
    to_fs(&mut fs, p.clone(), &Value::Absent).unwrap();
    assert_eq!(fs.take_journal(), vec![FsOp::RemoveDirAll(p.clone())]);
    assert_eq!(fs.remove_file(&p).unwrap_err(), IoErrorKind::NotFound);
    assert!(fs.take_journal().is_empty());
}

#[test]
fn tree_operations_fail_as_a_disk_does() {
    let mut fs = FileTree::new();
    let root = TreePath::new();
    assert_eq!(fs.write(&root.join("a").join("b"), Vec::new()).unwrap_err(), IoErrorKind::NotFound);
    fs.create_dir_all(&root.join("a")).unwrap();
    fs.write(&root.join("a").join("b"), b"x".to_vec()).unwrap();
    assert_eq!(fs.write(&root.join("a"), Vec::new()).unwrap_err(), IoErrorKind::IsADirectory);
    assert_eq!(
        fs.write(&root.join("a").join("b").join("c"), Vec::new()).unwrap_err(),
        IoErrorKind::NotADirectory
    );
    assert_eq!(fs.read(&root.join("a")).unwrap_err(), IoErrorKind::IsADirectory);
    assert_eq!(fs.read(&root.join("z")).unwrap_err(), IoErrorKind::NotFound);
    assert_eq!(fs.read_dir(&root.join("a").join("b")).unwrap_err(), IoErrorKind::NotADirectory);
    assert_eq!(fs.read_dir(&root.join("z")).unwrap_err(), IoErrorKind::NotFound);
    assert_eq!(fs.remove_file(&root.join("a")).unwrap_err(), IoErrorKind::IsADirectory);
    assert_eq!(fs.remove_dir_all(&root.join("a").join("b")).unwrap_err(), IoErrorKind::NotADirectory);
    assert_eq!(fs.remove_dir_all(&root.join("z")).unwrap_err(), IoErrorKind::NotFound);
    assert_eq!(
        fs.create_dir_all(&root.join("a").join("b").join("c")).unwrap_err(),
        IoErrorKind::NotADirectory
    );
    assert_eq!(fs.size(), 3);
    fs.remove_dir_all(&root).unwrap();
    assert_eq!(fs.size(), 0);
    assert!(!fs.contains(&root));
}

#[test]
fn paths() {
    let root = TreePath::new();
    let p = root.join("a").join("b");
    assert_eq!(p.len(), 2);
    assert_eq!(p.name(1), "b");
    assert!(p.same(&root.join("a").join("b")));
    assert!(!p.same(&root.join("a")));
    assert!(p.starts_with(&root.join("a")));
    assert!(p.starts_with(&root));
    assert!(!p.starts_with(&root.join("b")));
    assert!(!root.join("a").starts_with(&p));
    assert!(p.parent().unwrap().same(&root.join("a")));
    assert!(root.parent().is_none());
    assert!(p.prefix(1).same(&root.join("a")));
    assert_eq!(path_text(&p.join_variant()), "a/b/variant");
    assert_eq!(path_text(&p.join_value()), "a/b/value");
    assert_eq!(path_text(&p.join_index(0)), "a/b/0");
}

#[test]
fn journal_replays_to_the_same_tree() {
    let mut fs = FileTree::new();
    let root = TreePath::new().join("data");
    to_fs(&mut fs, root.join("list").join("7"), &text("stale")).unwrap();
    to_fs(&mut fs, root.join("flag").join("deep"), &text("stale")).unwrap();
    let (value, _) = sample();
    to_fs(&mut fs, root.clone(), &value).unwrap();
    to_fs(&mut fs, root.join("list"), &Value::Absent).unwrap();
    to_fs(&mut fs, root.clone(), &value).unwrap();
    let mut copy = FileTree::new();
    for op in fs.take_journal() {
        copy.apply(&op).unwrap();
    }
    assert_eq!(snapshot(&copy), snapshot(&fs));
}

#[test]
fn a_change_that_cannot_be_made_fails_with_the_reason() {
    let mut fs = FileTree::new();
    let root = TreePath::new();
    let file = root.join("dir").join("file");
    assert_eq!(fs.apply(&FsOp::Write(file.clone(), b"x".to_vec())).unwrap_err(), IoErrorKind::NotFound);
    assert_eq!(fs.apply(&FsOp::RemoveFile(file.clone())).unwrap_err(), IoErrorKind::NotFound);
    assert_eq!(fs.apply(&FsOp::RemoveDirAll(file.clone())).unwrap_err(), IoErrorKind::NotFound);
    assert!(fs.take_journal().is_empty());
    fs.apply(&FsOp::CreateParentDirs(file.clone())).unwrap();
    assert!(fs.is_dir(&root.join("dir")));
    fs.apply(&FsOp::Write(file.clone(), b"x".to_vec())).unwrap();
    assert_eq!(fs.read(&file).unwrap(), b"x".to_vec());
    assert_eq!(
        fs.apply(&FsOp::Write(root.join("dir"), Vec::new())).unwrap_err(),
        IoErrorKind::IsADirectory
    );
    assert_eq!(
        fs.apply(&FsOp::Write(file.join("below"), Vec::new())).unwrap_err(),
        IoErrorKind::NotADirectory
    );
    assert_eq!(
        fs.apply(&FsOp::CreateDirAll(file.join("below"))).unwrap_err(),
        IoErrorKind::NotADirectory
    );
    assert_eq!(
        fs.apply(&FsOp::CreateParentDirs(file.join("a").join("b"))).unwrap_err(),
        IoErrorKind::NotADirectory
    );
    assert_eq!(
        fs.apply(&FsOp::RemoveFile(root.join("dir"))).unwrap_err(),
        IoErrorKind::IsADirectory
    );
    assert_eq!(fs.apply(&FsOp::RemoveDirAll(file.clone())).unwrap_err(), IoErrorKind::NotADirectory);
    assert_eq!(
        fs.take_journal(),
        vec![FsOp::CreateParentDirs(file.clone()), FsOp::Write(file.clone(), b"x".to_vec())]
    );
    fs.apply(&FsOp::RemoveFile(file.clone())).unwrap();
    fs.apply(&FsOp::RemoveDirAll(root.clone())).unwrap();
    assert!(!fs.contains(&root));
}
