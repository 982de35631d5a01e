//! The tree decoder: reads a value of the data model out of a tree.

use crate::path::{index_name, value_name, variant_name, TreePath};
use crate::text::{
    chars_of, parse_bool, parse_bool_text, parse_decimal, parse_int, string_from_utf8, trim,
    trimmed, IntErrorKind, IntKind,
};
use crate::tree::{is_dir, is_file, names_view, FileTree, IoErrorKind, NodeView, TreeView};
use crate::value::{
    entries_view, fields_view, items_view, named_shapes_view, shapes_view, Shape, ShapeView, Value,
    ValueView,
};
use vstd::prelude::*;
use vstd::string::StringExecFns;
use vstd::utf8::{decode_utf8, valid_utf8};

verus! {

/// Why a value could not be read.
#[derive(Debug, PartialEq, Eq)]
pub enum Error {
    /// An operation on the tree failed.
    IoError(IoErrorKind),
    /// The text of a file is no boolean.
    ParseBoolError,
    /// The text of a file is no integer of the type asked for.
    ParseIntError(IntErrorKind),
    /// The text of a file is no floating-point number.
    ParseFloatError,
    /// A character was asked of an empty file.
    Empty,
    /// A file or directory that is needed is missing.
    FileNotFound,
    /// The shape asked for cannot be read.
    Unsupported,
    /// A tuple has another number of elements in the tree than its type.
    InvalidLen { expected: usize, got: usize },
    /// The name found for a variant is none of those that the enum has.
    InvalidEnum(String),
    /// An error that the layer around the codec reports.
    Custom(String),
}

/// An error of the decoder as a mathematical value.
pub enum ErrorView {
    IoError(IoErrorKind),
    ParseBoolError,
    ParseIntError(IntErrorKind),
    ParseFloatError,
    Empty,
    FileNotFound,
    Unsupported,
    InvalidLen { expected: nat, got: nat },
    InvalidEnum(Seq<char>),
    Custom(Seq<char>),
}

impl View for Error {
    type V = ErrorView;

    open spec fn view(&self) -> ErrorView {
        match self {
            Error::IoError(kind) => ErrorView::IoError(*kind),
            Error::ParseBoolError => ErrorView::ParseBoolError,
            Error::ParseIntError(kind) => ErrorView::ParseIntError(*kind),
            Error::ParseFloatError => ErrorView::ParseFloatError,
            Error::Empty => ErrorView::Empty,
            Error::FileNotFound => ErrorView::FileNotFound,
            Error::Unsupported => ErrorView::Unsupported,
            Error::InvalidLen { expected, got } => ErrorView::InvalidLen {
                expected: *expected as nat,
                got: *got as nat,
            },
            Error::InvalidEnum(name) => ErrorView::InvalidEnum(name@),
            Error::Custom(message) => ErrorView::Custom(message@),
        }
    }
}

/// The error of the decoder for a failed read: a missing node is reported as
/// such, every other failure as a failure of the tree.
pub open spec fn read_error(kind: IoErrorKind) -> ErrorView {
    if kind == IoErrorKind::NotFound {
        ErrorView::FileNotFound
    } else {
        ErrorView::IoError(kind)
    }
}

/// The content of the file at `p`.
pub open spec fn read_bytes(t: TreeView, p: Seq<Seq<char>>) -> Result<Seq<u8>, ErrorView> {
    if !t.dom().contains(p) {
        Err(ErrorView::FileNotFound)
    } else {
        match t[p] {
            NodeView::File(content) => Ok(content),
            NodeView::Dir => Err(ErrorView::IoError(IoErrorKind::IsADirectory)),
        }
    }
}

/// The content of the file at `p` as text.
pub open spec fn read_text(t: TreeView, p: Seq<Seq<char>>) -> Result<Seq<char>, ErrorView> {
    match read_bytes(t, p) {
        Ok(content) => if valid_utf8(content) {
            Ok(decode_utf8(content))
        } else {
            Err(ErrorView::IoError(IoErrorKind::InvalidData))
        },
        Err(e) => Err(e),
    }
}

/// The boolean that the file at `p` holds, whitespace around it aside.
pub open spec fn decoded_bool(t: TreeView, p: Seq<Seq<char>>) -> Result<bool, ErrorView> {
    match read_text(t, p) {
        Ok(text) => match parse_bool(trimmed(text)) {
            Some(b) => Ok(b),
            None => Err(ErrorView::ParseBoolError),
        },
        Err(e) => Err(e),
    }
}

/// The integer of type `kind` that the file at `p` holds, whitespace around
/// it aside.
pub open spec fn decoded_int(t: TreeView, p: Seq<Seq<char>>, kind: IntKind) -> Result<
    int,
    ErrorView,
> {
    match read_text(t, p) {
        Ok(text) => match parse_int(trimmed(text), kind.signed(), kind.min(), kind.max()) {
            Ok(v) => Ok(v),
            Err(e) => Err(ErrorView::ParseIntError(e)),
        },
        Err(e) => Err(e),
    }
}

/// The character that the file at `p` holds: its first byte, taken as a
/// code point. The bytes after it are not looked at.
pub open spec fn decoded_char(t: TreeView, p: Seq<Seq<char>>) -> Result<char, ErrorView> {
    match read_bytes(t, p) {
        Ok(content) => if content.len() == 0 {
            Err(ErrorView::Empty)
        } else {
            Ok(content[0] as char)
        },
        Err(e) => Err(e),
    }
}

/// The unit value at `p`: a file, whatever it holds.
pub open spec fn decoded_unit(t: TreeView, p: Seq<Seq<char>>) -> Result<(), ErrorView> {
    if is_file(t, p) {
        Ok(())
    } else {
        Err(ErrorView::FileNotFound)
    }
}

/// The name of the variant stored at `p`: the content of the file `p`, or of
/// the marker file in the directory `p`.
pub open spec fn discriminant(t: TreeView, p: Seq<Seq<char>>) -> Result<Seq<char>, ErrorView> {
    if is_dir(t, p) {
        read_text(t, p.push(variant_name()))
    } else {
        read_text(t, p)
    }
}

/// The error of the decoder for a failed read.
pub fn error_of_read(kind: IoErrorKind) -> (e: Error)
    ensures
        e@ == read_error(kind),
{
    match kind {
        IoErrorKind::NotFound => Error::FileNotFound,
        _ => Error::IoError(kind),
    }
}

/// The content of the file at `path`.
pub fn bytes_from_file(fs: &FileTree, path: &TreePath) -> (r: Result<Vec<u8>, Error>)
    requires
        fs.wf(),
    ensures
        match r {
            Ok(content) => read_bytes(fs@, path@) == Ok::<Seq<u8>, ErrorView>(content@),
            Err(e) => read_bytes(fs@, path@) == Err::<Seq<u8>, ErrorView>(e@),
        },
{
    match fs.read(path) {
        Ok(content) => Ok(content),
        Err(kind) => Err(error_of_read(kind)),
    }
}

/// The content of the file at `path` as text.
pub fn string_from_file(fs: &FileTree, path: &TreePath) -> (r: Result<String, Error>)
    requires
        fs.wf(),
    ensures
        match r {
            Ok(text) => read_text(fs@, path@) == Ok::<Seq<char>, ErrorView>(text@),
            Err(e) => read_text(fs@, path@) == Err::<Seq<char>, ErrorView>(e@),
        },
{
    match bytes_from_file(fs, path) {
        Ok(content) => match string_from_utf8(content) {
            Some(text) => Ok(text),
            None => Err(Error::IoError(IoErrorKind::InvalidData)),
        },
        Err(e) => Err(e),
    }
}

/// Reads a value out of the tree at one path.
#[derive(Debug)]
pub struct FilesystemDeserializer {
    path: TreePath,
}

impl View for FilesystemDeserializer {
    type V = Seq<Seq<char>>;

    closed spec fn view(&self) -> Seq<Seq<char>> {
        self.path@
    }
}

impl Clone for FilesystemDeserializer {
    fn clone(&self) -> (r: FilesystemDeserializer)
        ensures
            r@ == self@,
    {
        FilesystemDeserializer { path: self.path.clone() }
    }
}

/// What a path holds when no shape is asked for: the entries of a
/// directory, or the text of a file.
#[derive(Debug)]
pub enum AnyContent {
    Entries(MapAccess),
    Text(String),
}

impl FilesystemDeserializer {
    /// A deserializer that reads at `path`.
    pub fn new(path: TreePath) -> (r: FilesystemDeserializer)
        ensures
            r@ == path@,
    {
        FilesystemDeserializer { path }
    }

    /// The path that is read.
    pub fn location(&self) -> (r: TreePath)
        ensures
            r@ == self@,
    {
        self.path.clone()
    }

    /// The file as text with the whitespace around it removed.
    pub fn read_trimmed(&self, fs: &FileTree) -> (r: Result<Vec<char>, Error>)
        requires
            fs.wf(),
        ensures
            match r {
                Ok(text) => read_text(fs@, self@) is Ok && text@ == trimmed(
                    read_text(fs@, self@)->Ok_0,
                ),
                Err(e) => read_text(fs@, self@) == Err::<Seq<char>, ErrorView>(e@),
            },
    {
        match string_from_file(fs, &self.path) {
            Ok(text) => {
                let chars = chars_of(text.as_str());
                Ok(trim(&chars))
            },
            Err(e) => Err(e),
        }
    }

    /// Reads the file as text, trims it and parses it as an integer of
    /// type `kind`.
    fn read_int(&self, fs: &FileTree, kind: IntKind) -> (r: Result<i128, Error>)
        requires
            fs.wf(),
        ensures
            match r {
                Ok(v) => decoded_int(fs@, self@, kind) == Ok::<int, ErrorView>(v as int)
                    && kind.min() <= v <= kind.max(),
                Err(e) => decoded_int(fs@, self@, kind) == Err::<int, ErrorView>(e@),
            },
    {
        match self.read_trimmed(fs) {
            Ok(text) => match parse_decimal(&text, kind.min_value(), kind.max_value()) {
                Ok(v) => {
                    proof {
                        lemma_parsed_in_range(text@, kind.signed(), kind.min(), kind.max());
                    }
                    Ok(v)
                },
                Err(e) => Err(Error::ParseIntError(e)),
            },
            Err(e) => Err(e),
        }
    }

    /// Says what the path holds without a shape to go by: a directory is
    /// read as a map, a file as text.
    pub fn deserialize_any(self, fs: &FileTree) -> (r: Result<AnyContent, Error>)
        requires
            fs.wf(),
        ensures
            match r {
                Ok(AnyContent::Entries(access)) => {
                    &&& is_dir(fs@, self@)
                    &&& access.inv()
                    &&& access.path() == self@
                    &&& access.remaining() == fs.listing(self@)
                    &&& access.key() is None
                },
                Ok(AnyContent::Text(text)) => {
                    &&& !is_dir(fs@, self@)
                    &&& read_text(fs@, self@) == Ok::<Seq<char>, ErrorView>(text@)
                },
                Err(e) => !is_dir(fs@, self@) && read_text(fs@, self@) == Err::<
                    Seq<char>,
                    ErrorView,
                >(e@),
            },
    {
        if fs.is_dir(&self.path) {
            match self.deserialize_map(fs) {
                Ok(access) => Ok(AnyContent::Entries(access)),
                Err(e) => Err(e),
            }
        } else if fs.is_file(&self.path) {
            match string_from_file(fs, &self.path) {
                Ok(text) => Ok(AnyContent::Text(text)),
                Err(e) => Err(e),
            }
        } else {
            Err(Error::FileNotFound)
        }
    }

    /// Reads the file as text, trims it and parses it as a boolean.
    pub fn deserialize_bool(self, fs: &FileTree) -> (r: Result<bool, Error>)
        requires
            fs.wf(),
        ensures
            match r {
                Ok(v) => decoded_bool(fs@, self@) == Ok::<bool, ErrorView>(v),
                Err(e) => decoded_bool(fs@, self@) == Err::<bool, ErrorView>(e@),
            },
    {
        match self.read_trimmed(fs) {
            Ok(text) => match parse_bool_text(&text) {
                Some(v) => Ok(v),
                None => Err(Error::ParseBoolError),
            },
            Err(e) => Err(e),
        }
    }

    /// Reads the file as text, trims it and parses it as an `i8`.
    pub fn deserialize_i8(self, fs: &FileTree) -> (r: Result<i8, Error>)
        requires
            fs.wf(),
        ensures
            match r {
                Ok(v) => decoded_int(fs@, self@, IntKind::I8) == Ok::<int, ErrorView>(v as int),
                Err(e) => decoded_int(fs@, self@, IntKind::I8) == Err::<int, ErrorView>(e@),
            },
    {
        match self.read_int(fs, IntKind::I8) {
            Ok(v) => Ok(v as i8),
            Err(e) => Err(e),
        }
    }

    /// Reads the file as text, trims it and parses it as an `i16`.
    pub fn deserialize_i16(self, fs: &FileTree) -> (r: Result<i16, Error>)
        requires
            fs.wf(),
        ensures
            match r {
                Ok(v) => decoded_int(fs@, self@, IntKind::I16) == Ok::<int, ErrorView>(v as int),
                Err(e) => decoded_int(fs@, self@, IntKind::I16) == Err::<int, ErrorView>(e@),
            },
    {
        match self.read_int(fs, IntKind::I16) {
            Ok(v) => Ok(v as i16),
            Err(e) => Err(e),
        }
    }

    /// Reads the file as text, trims it and parses it as an `i32`.
    pub fn deserialize_i32(self, fs: &FileTree) -> (r: Result<i32, Error>)
        requires
            fs.wf(),
        ensures
            match r {
                Ok(v) => decoded_int(fs@, self@, IntKind::I32) == Ok::<int, ErrorView>(v as int),
                Err(e) => decoded_int(fs@, self@, IntKind::I32) == Err::<int, ErrorView>(e@),
            },
    {
        match self.read_int(fs, IntKind::I32) {
            Ok(v) => Ok(v as i32),
            Err(e) => Err(e),
        }
    }

    /// Reads the file as text, trims it and parses it as an `i64`.
    pub fn deserialize_i64(self, fs: &FileTree) -> (r: Result<i64, Error>)
        requires
            fs.wf(),
        ensures
            match r {
                Ok(v) => decoded_int(fs@, self@, IntKind::I64) == Ok::<int, ErrorView>(v as int),
                Err(e) => decoded_int(fs@, self@, IntKind::I64) == Err::<int, ErrorView>(e@),
            },
    {
        match self.read_int(fs, IntKind::I64) {
            Ok(v) => Ok(v as i64),
            Err(e) => Err(e),
        }
    }

    /// Reads the file as text, trims it and parses it as an `u8`.
    pub fn deserialize_u8(self, fs: &FileTree) -> (r: Result<u8, Error>)
        requires
            fs.wf(),
        ensures
            match r {
                Ok(v) => decoded_int(fs@, self@, IntKind::U8) == Ok::<int, ErrorView>(v as int),
                Err(e) => decoded_int(fs@, self@, IntKind::U8) == Err::<int, ErrorView>(e@),
            },
    {
        match self.read_int(fs, IntKind::U8) {
            Ok(v) => Ok(v as u8),
            Err(e) => Err(e),
        }
    }

    /// Reads the file as text, trims it and parses it as an `u16`.
    pub fn deserialize_u16(self, fs: &FileTree) -> (r: Result<u16, Error>)
        requires
            fs.wf(),
        ensures
            match r {
                Ok(v) => decoded_int(fs@, self@, IntKind::U16) == Ok::<int, ErrorView>(v as int),
                Err(e) => decoded_int(fs@, self@, IntKind::U16) == Err::<int, ErrorView>(e@),
            },
    {
        match self.read_int(fs, IntKind::U16) {
            Ok(v) => Ok(v as u16),
            Err(e) => Err(e),
        }
    }

    /// Reads the file as text, trims it and parses it as an `u32`.
    pub fn deserialize_u32(self, fs: &FileTree) -> (r: Result<u32, Error>)
        requires
            fs.wf(),
        ensures
            match r {
                Ok(v) => decoded_int(fs@, self@, IntKind::U32) == Ok::<int, ErrorView>(v as int),
                Err(e) => decoded_int(fs@, self@, IntKind::U32) == Err::<int, ErrorView>(e@),
            },
    {
        match self.read_int(fs, IntKind::U32) {
            Ok(v) => Ok(v as u32),
            Err(e) => Err(e),
        }
    }

    /// Reads the file as text, trims it and parses it as an `u64`.
    pub fn deserialize_u64(self, fs: &FileTree) -> (r: Result<u64, Error>)
        requires
            fs.wf(),
        ensures
            match r {
                Ok(v) => decoded_int(fs@, self@, IntKind::U64) == Ok::<int, ErrorView>(v as int),
                Err(e) => decoded_int(fs@, self@, IntKind::U64) == Err::<int, ErrorView>(e@),
            },
    {
        match self.read_int(fs, IntKind::U64) {
            Ok(v) => Ok(v as u64),
            Err(e) => Err(e),
        }
    }

    /// Reads the first byte of the file as a character.
    pub fn deserialize_char(self, fs: &FileTree) -> (r: Result<char, Error>)
        requires
            fs.wf(),
        ensures
            match r {
                Ok(v) => decoded_char(fs@, self@) == Ok::<char, ErrorView>(v),
                Err(e) => decoded_char(fs@, self@) == Err::<char, ErrorView>(e@),
            },
    {
        match bytes_from_file(fs, &self.path) {
            Ok(content) => {
                if content.len() == 0 {
                    Err(Error::Empty)
                } else {
                    Ok(content[0] as char)
                }
            },
            Err(e) => Err(e),
        }
    }

    /// Reads the whole file as text, untrimmed.
    pub fn deserialize_str(self, fs: &FileTree) -> (r: Result<String, Error>)
        requires
            fs.wf(),
        ensures
            match r {
                Ok(text) => read_text(fs@, self@) == Ok::<Seq<char>, ErrorView>(text@),
                Err(e) => read_text(fs@, self@) == Err::<Seq<char>, ErrorView>(e@),
            },
    {
        string_from_file(fs, &self.path)
    }

    /// Reads the whole file as text, untrimmed.
    pub fn deserialize_string(self, fs: &FileTree) -> (r: Result<String, Error>)
        requires
            fs.wf(),
        ensures
            match r {
                Ok(text) => read_text(fs@, self@) == Ok::<Seq<char>, ErrorView>(text@),
                Err(e) => read_text(fs@, self@) == Err::<Seq<char>, ErrorView>(e@),
            },
    {
        string_from_file(fs, &self.path)
    }

    /// Reads the whole file as raw bytes.
    pub fn deserialize_bytes(self, fs: &FileTree) -> (r: Result<Vec<u8>, Error>)
        requires
            fs.wf(),
        ensures
            match r {
                Ok(content) => read_bytes(fs@, self@) == Ok::<Seq<u8>, ErrorView>(content@),
                Err(e) => read_bytes(fs@, self@) == Err::<Seq<u8>, ErrorView>(e@),
            },
    {
        bytes_from_file(fs, &self.path)
    }

    /// Reads the whole file as raw bytes.
    pub fn deserialize_byte_buf(self, fs: &FileTree) -> (r: Result<Vec<u8>, Error>)
        requires
            fs.wf(),
        ensures
            match r {
                Ok(content) => read_bytes(fs@, self@) == Ok::<Seq<u8>, ErrorView>(content@),
                Err(e) => read_bytes(fs@, self@) == Err::<Seq<u8>, ErrorView>(e@),
            },
    {
        bytes_from_file(fs, &self.path)
    }

    /// Says whether an optional value is there: nothing where the path
    /// holds nothing, else the deserializer for the value at the same path.
    pub fn deserialize_option(self, fs: &FileTree) -> (r: Result<
        Option<FilesystemDeserializer>,
        Error,
    >)
        requires
            fs.wf(),
        ensures
            r is Ok,
            r->Ok_0 is Some <==> fs@.dom().contains(self@),
            r->Ok_0 matches Some(inner) ==> inner@ == self@,
    {
        if !fs.contains(&self.path) {
            Ok(None)
        } else {
            Ok(Some(self))
        }
    }

    /// Reads the unit value: the path must hold a file.
    pub fn deserialize_unit(self, fs: &FileTree) -> (r: Result<(), Error>)
        requires
            fs.wf(),
        ensures
            match r {
                Ok(_) => decoded_unit(fs@, self@) is Ok,
                Err(e) => decoded_unit(fs@, self@) == Err::<(), ErrorView>(e@),
            },
    {
        if fs.is_file(&self.path) {
            Ok(())
        } else {
            Err(Error::FileNotFound)
        }
    }

    /// Reads a struct without fields: the path must hold a file.
    pub fn deserialize_unit_struct(self, fs: &FileTree, _name: &str) -> (r: Result<(), Error>)
        requires
            fs.wf(),
        ensures
            match r {
                Ok(_) => decoded_unit(fs@, self@) is Ok,
                Err(e) => decoded_unit(fs@, self@) == Err::<(), ErrorView>(e@),
            },
    {
        self.deserialize_unit(fs)
    }

    /// A struct that wraps one value is read as that value, at the same path.
    pub fn deserialize_newtype_struct(self, _name: &str) -> (r: Result<
        FilesystemDeserializer,
        Error,
    >)
        ensures
            r matches Ok(inner) && inner@ == self@,
    {
        Ok(self)
    }

    /// Begins the reading of a sequence of any length.
    pub fn deserialize_seq(self) -> (r: Result<SeqAccess, Error>)
        ensures
            r matches Ok(access) && access.path() == self@ && access.counter() == 0
                && access.len() is None,
    {
        Ok(SeqAccess { path: self.path, counter: 0, len: None })
    }

    /// Begins the reading of a tuple of `len` elements.
    pub fn deserialize_tuple(self, len: usize) -> (r: Result<SeqAccess, Error>)
        ensures
            r matches Ok(access) && access.path() == self@ && access.counter() == 0
                && access.len() == Some(len as nat),
    {
        Ok(SeqAccess { path: self.path, counter: 0, len: Some(len) })
    }

    /// Begins the reading of a struct with `len` unnamed fields.
    pub fn deserialize_tuple_struct(self, _name: &str, len: usize) -> (r: Result<SeqAccess, Error>)
        ensures
            r matches Ok(access) && access.path() == self@ && access.counter() == 0
                && access.len() == Some(len as nat),
    {
        self.deserialize_tuple(len)
    }

    /// Begins the reading of a map: its keys are the names of the nodes in
    /// the directory, in the order in which the directory lists them.
    pub fn deserialize_map(self, fs: &FileTree) -> (r: Result<MapAccess, Error>)
        requires
            fs.wf(),
        ensures
            match r {
                Ok(access) => {
                    &&& is_dir(fs@, self@)
                    &&& access.inv()
                    &&& access.path() == self@
                    &&& access.remaining() == fs.listing(self@)
                    &&& access.key() is None
                },
                Err(e) => !is_dir(fs@, self@) && e@ == list_error(fs@, self@),
            },
    {
        MapAccess::new(fs, self.path)
    }

    /// Begins the reading of a struct: its keys are `fields`, in their order.
    /// What else the directory holds is not looked at.
    pub fn deserialize_struct(self, _name: &str, fields: &Vec<String>) -> (r: Result<
        MapAccess,
        Error,
    >)
        ensures
            r matches Ok(access) && access.inv() && access.path() == self@ && access.remaining()
                == names_view(fields@) && access.key() is None,
    {
        let mut names: Vec<String> = Vec::new();
        let mut i: usize = 0;
        while i < fields.len()
            invariant
                i <= fields.len(),
                names@.len() == i,
                forall|k: int| 0 <= k < i ==> names@[k]@ == fields@[k]@,
            decreases fields.len() - i,
        {
            names.push(fields[i].clone());
            i = i + 1;
        }
        proof {
            assert(names_view(names@) =~= names_view(fields@));
        }
        MapAccess::new_for(self.path, names)
    }

    /// Finds the variant stored at the path. Its name is the content of the
    /// file at the path, or of the marker file where the path is a
    /// directory. The name must be one of `variants`, letter for letter.
    pub fn deserialize_enum(self, fs: &FileTree, _name: &str, variants: &Vec<String>) -> (r: Result<
        EnumAccess,
        Error,
    >)
        requires
            fs.wf(),
        ensures
            match discriminant(fs@, self@) {
                Err(e) => r matches Err(err) && err@ == e,
                Ok(name) => if names_view(variants@).contains(name) {
                    if is_dir(fs@, self@) {
                        r matches Ok(EnumAccess::Compound(access)) && access.path() == self@
                            && access.variant() == name
                    } else {
                        r matches Ok(EnumAccess::Unit(found)) && found@ == name
                    }
                } else {
                    r matches Err(err) && err@ == ErrorView::InvalidEnum(name)
                },
            },
    {
        let compound = fs.is_dir(&self.path);
        let read = if compound {
            string_from_file(fs, &self.path.join_variant())
        } else {
            string_from_file(fs, &self.path)
        };
        let variant = match read {
            Ok(variant) => variant,
            Err(e) => {
                return Err(e);
            },
        };
        let mut i: usize = 0;
        while i < variants.len()
            invariant
                i <= variants.len(),
                compound == is_dir(fs@, self@),
                discriminant(fs@, self@) == Ok::<Seq<char>, ErrorView>(variant@),
                forall|k: int| 0 <= k < i ==> names_view(variants@)[k] != variant@,
            decreases variants.len() - i,
        {
            if variants[i] == variant {
                proof {
                    assert(names_view(variants@)[i as int] == variant@);
                }
                if compound {
                    return Ok(EnumAccess::Compound(VariantAccess { path: self.path, variant }));
                } else {
                    return Ok(EnumAccess::Unit(variant));
                }
            }
            i = i + 1;
        }
        Err(Error::InvalidEnum(variant))
    }

    /// Reads the name of a field or variant: the whole file as text.
    pub fn deserialize_identifier(self, fs: &FileTree) -> (r: Result<String, Error>)
        requires
            fs.wf(),
        ensures
            match r {
                Ok(text) => read_text(fs@, self@) == Ok::<Seq<char>, ErrorView>(text@),
                Err(e) => read_text(fs@, self@) == Err::<Seq<char>, ErrorView>(e@),
            },
    {
        string_from_file(fs, &self.path)
    }

    /// Passes over whatever the path holds.
    pub fn deserialize_ignored_any(self) -> (r: Result<(), Error>)
        ensures
            r is Ok,
    {
        Ok(())
    }
}

/// A parsed integer lies in the range it was parsed for.
pub proof fn lemma_parsed_in_range(s: Seq<char>, signed: bool, min: int, max: int)
    requires
        min <= 0 <= max,
    ensures
        parse_int(s, signed, min, max) matches Ok(v) ==> min <= v <= max,
{
    if s.len() > 0 {
        crate::text::lemma_scan_in_range(s.drop_first(), 0, false, min, max);
        crate::text::lemma_scan_in_range(s.drop_first(), 0, true, min, max);
        crate::text::lemma_scan_in_range(s, 0, false, min, max);
    }
}

/// The error for a directory that cannot be listed.
pub open spec fn list_error(t: TreeView, p: Seq<Seq<char>>) -> ErrorView {
    if is_file(t, p) {
        ErrorView::IoError(IoErrorKind::NotADirectory)
    } else {
        ErrorView::FileNotFound
    }
}

/// Walks the elements of a sequence or tuple in a directory.
#[derive(Debug)]
pub struct SeqAccess {
    path: TreePath,
    counter: usize,
    len: Option<usize>,
}

impl SeqAccess {
    /// The directory of the elements.
    pub closed spec fn path(&self) -> Seq<Seq<char>> {
        self.path@
    }

    /// The number of elements handed out so far.
    pub closed spec fn counter(&self) -> nat {
        self.counter as nat
    }

    /// The number of elements that the type has, for a tuple.
    pub closed spec fn len(&self) -> Option<nat> {
        match self.len {
            Some(n) => Some(n as nat),
            None => None,
        }
    }

    /// The number of elements handed out so far.
    pub fn position(&self) -> (r: usize)
        ensures
            r == self.counter(),
    {
        self.counter
    }

    /// The deserializer for the next element, if the tree holds one. Where
    /// it holds none, a sequence ends; a tuple ends if it has handed out
    /// as many elements as its type has, and fails otherwise.
    pub fn next_element_seed(&mut self, fs: &FileTree) -> (r: Result<
        Option<FilesystemDeserializer>,
        Error,
    >)
        requires
            fs.wf(),
            fs@.dom().contains(old(self).path().push(index_name(old(self).counter()))) ==> old(
                self,
            ).counter() < usize::MAX,
        ensures
            final(self).path() == old(self).path(),
            final(self).len() == old(self).len(),
            if fs@.dom().contains(old(self).path().push(index_name(old(self).counter()))) {
                &&& final(self).counter() == old(self).counter() + 1
                &&& r matches Ok(Some(element)) && element@ == old(self).path().push(
                    index_name(old(self).counter()),
                )
            } else {
                &&& final(self).counter() == old(self).counter()
                &&& match old(self).len() {
                    Some(n) if n != old(self).counter() => r matches Err(e) && e@
                        == (ErrorView::InvalidLen { expected: n, got: old(self).counter() }),
                    _ => r matches Ok(None),
                }
            },
    {
        let path = self.path.join_index(self.counter);
        if fs.contains(&path) {
            self.counter = self.counter + 1;
            Ok(Some(FilesystemDeserializer::new(path)))
        } else {
            match self.len {
                Some(n) => {
                    if n != self.counter {
                        Err(Error::InvalidLen { expected: n, got: self.counter })
                    } else {
                        Ok(None)
                    }
                },
                None => Ok(None),
            }
        }
    }
}

/// The stored variant of an enum whose path is a directory.
#[derive(Debug)]
pub struct VariantAccess {
    path: TreePath,
    variant: String,
}

/// What `deserialize_enum` found: a variant stored as a file, which has no
/// payload, or one stored as a directory.
#[derive(Debug)]
pub enum EnumAccess {
    Unit(String),
    Compound(VariantAccess),
}

impl VariantAccess {
    /// The directory of the variant.
    pub closed spec fn path(&self) -> Seq<Seq<char>> {
        self.path@
    }

    /// The name of the variant.
    pub closed spec fn variant(&self) -> Seq<char> {
        self.variant@
    }

    /// The directory of the variant.
    pub fn location(&self) -> (r: TreePath)
        ensures
            r@ == self.path(),
    {
        self.path.clone()
    }

    /// A variant without a payload: nothing is read.
    pub fn unit_variant(self) -> (r: Result<(), Error>)
        ensures
            r is Ok,
    {
        Ok(())
    }

    /// The deserializer for the payload of a newtype variant: the child
    /// `value`.
    pub fn newtype_variant_seed(self) -> (r: FilesystemDeserializer)
        ensures
            r@ == self.path().push(value_name()),
    {
        FilesystemDeserializer::new(self.path.join_value())
    }

    /// The elements of a tuple variant lie in the directory itself.
    pub fn tuple_variant(self, len: usize) -> (r: Result<SeqAccess, Error>)
        ensures
            r matches Ok(access) && access.path() == self.path() && access.counter() == 0
                && access.len() == Some(len as nat),
    {
        FilesystemDeserializer::new(self.path).deserialize_tuple(len)
    }

    /// The fields of a struct variant lie in the directory itself.
    pub fn struct_variant(self, fields: &Vec<String>) -> (r: Result<MapAccess, Error>)
        ensures
            r matches Ok(access) && access.inv() && access.path() == self.path()
                && access.remaining() == names_view(fields@) && access.key() is None,
    {
        FilesystemDeserializer::new(self.path).deserialize_struct("", fields)
    }

    /// The name of the variant, and the access to its payload.
    pub fn variant_seed(self) -> (r: Result<(String, VariantAccess), Error>)
        ensures
            r matches Ok((name, access)) && name@ == self.variant() && access.path() == self.path()
                && access.variant() == self.variant(),
    {
        Ok((self.variant.clone(), self))
    }
}

/// Walks the entries of a map, or the fields of a struct, in a directory.
#[derive(Debug)]
pub struct MapAccess {
    path: TreePath,
    dir: Vec<String>,
    next: usize,
    key: Option<String>,
}

impl MapAccess {
    /// The directory of the entries.
    pub closed spec fn path(&self) -> Seq<Seq<char>> {
        self.path@
    }

    /// The keys that are still to come.
    pub closed spec fn remaining(&self) -> Seq<Seq<char>> {
        names_view(self.dir@).skip(self.next as int)
    }

    /// The key whose value is to be read next.
    pub closed spec fn key(&self) -> Option<Seq<char>> {
        match self.key {
            Some(k) => Some(k@),
            None => None,
        }
    }

    /// The representation is sound: the walk has not run past the keys.
    pub closed spec fn inv(&self) -> bool {
        self.next <= self.dir@.len()
    }

    /// Begins the walk over the nodes of the directory `path`.
    pub fn new(fs: &FileTree, path: TreePath) -> (r: Result<MapAccess, Error>)
        requires
            fs.wf(),
        ensures
            match r {
                Ok(access) => {
                    &&& is_dir(fs@, path@)
                    &&& access.inv()
                    &&& access.path() == path@
                    &&& access.remaining() == fs.listing(path@)
                    &&& access.key() is None
                },
                Err(e) => !is_dir(fs@, path@) && e@ == list_error(fs@, path@),
            },
    {
        match fs.read_dir(&path) {
            Ok(dir) => {
                proof {
                    assert(names_view(dir@).skip(0) =~= names_view(dir@));
                }
                Ok(MapAccess { path, dir, next: 0, key: None })
            },
            Err(kind) => Err(error_of_read(kind)),
        }
    }

    /// Begins the walk over the given keys in the directory `path`.
    pub fn new_for(path: TreePath, keys: Vec<String>) -> (r: Result<MapAccess, Error>)
        ensures
            r matches Ok(access) && access.inv() && access.path() == path@ && access.remaining()
                == names_view(keys@) && access.key() is None,
    {
        proof {
            assert(names_view(keys@).skip(0) =~= names_view(keys@));
        }
        Ok(MapAccess { path, dir: keys, next: 0, key: None })
    }

    /// The next key, if one is left. Its value is to be read next.
    pub fn next_key_seed(&mut self) -> (r: Result<Option<String>, Error>)
        requires
            old(self).inv(),
        ensures
            final(self).inv(),
            final(self).path() == old(self).path(),
            r is Ok,
            if old(self).remaining().len() > 0 {
                &&& r->Ok_0 matches Some(name) && name@ == old(self).remaining()[0]
                &&& final(self).remaining() == old(self).remaining().drop_first()
                &&& final(self).key() == Some(old(self).remaining()[0])
            } else {
                &&& r->Ok_0 is None
                &&& final(self).remaining() == old(self).remaining()
                &&& final(self).key() == old(self).key()
            },
    {
        if self.next < self.dir.len() {
            let name = self.dir[self.next].clone();
            proof {
                assert(old(self).remaining()[0] == name@);
                assert(names_view(self.dir@).skip(self.next + 1) =~= old(
                    self,
                ).remaining().drop_first());
            }
            self.key = Some(name.clone());
            self.next = self.next + 1;
            Ok(Some(name))
        } else {
            Ok(None)
        }
    }

    /// The deserializer for the value of the key that came last: the child
    /// named by the key. Without such a key the call fails.
    pub fn next_value_seed(&mut self) -> (r: Result<FilesystemDeserializer, Error>)
        requires
            old(self).inv(),
        ensures
            final(self).inv(),
            final(self).path() == old(self).path(),
            final(self).remaining() == old(self).remaining(),
            final(self).key() is None,
            match old(self).key() {
                Some(name) => r matches Ok(value) && value@ == old(self).path().push(name),
                None => r matches Err(e) && e@ == ErrorView::FileNotFound,
            },
    {
        match self.key.take() {
            None => Err(Error::FileNotFound),
            Some(key) => Ok(FilesystemDeserializer::new(self.path.join(key.as_str()))),
        }
    }
}

/// Whether the directory `p` holds element `i` of a sequence.
pub open spec fn element_present(t: TreeView, p: Seq<Seq<char>>, i: nat) -> bool {
    t.dom().contains(p.push(index_name(i)))
}

/// Whether the directory `p` holds the first `n` elements of a sequence.
pub open spec fn all_present(t: TreeView, p: Seq<Seq<char>>, n: nat) -> bool {
    forall|m: nat| m < n ==> #[trigger] element_present(t, p, m)
}

/// Whether the elements in `p` are `n`: the first `n` are there, and the
/// next one is not.
pub open spec fn is_extent(t: TreeView, p: Seq<Seq<char>>, n: nat) -> bool {
    all_present(t, p, n) && !element_present(t, p, n)
}

/// The number of elements in the directory `p`, counted from element 0 up to
/// the first that is missing.
pub open spec fn extent(t: TreeView, p: Seq<Seq<char>>) -> nat {
    choose|n: nat| is_extent(t, p, n)
}

/// The elements in a directory have one number only.
pub proof fn lemma_extent(t: TreeView, p: Seq<Seq<char>>, n: nat)
    requires
        is_extent(t, p, n),
    ensures
        extent(t, p) == n,
{
    let e = extent(t, p);
    assert(is_extent(t, p, e));
    if e < n {
        assert(element_present(t, p, e));
    }
    if n < e {
        assert(element_present(t, p, n));
    }
}

/// The names of elements are distinct.
pub proof fn lemma_index_names_differ(a: nat, b: nat)
    requires
        a != b,
    ensures
        index_name(a) != index_name(b),
{
    let top = if a > b {
        a
    } else {
        b
    };
    crate::text::lemma_parse_decimal_text(a as int, false, 0, top as int);
    crate::text::lemma_parse_decimal_text(b as int, false, 0, top as int);
}

/// The elements in a directory are no more than the nodes of the tree.
pub proof fn lemma_elements_bounded(fs: &FileTree, p: Seq<Seq<char>>, n: nat)
    requires
        all_present(fs@, p, n),
    ensures
        n <= fs.node_count(),
{
    let f = |m: nat| p.push(index_name(m));
    assert forall|m: nat| m < n implies fs@.dom().contains(#[trigger] f(m)) by {
        assert(element_present(fs@, p, m));
    }
    assert forall|a: nat, b: nat| a < n && b < n && a != b implies #[trigger] f(a) != #[trigger] f(
        b,
    ) by {
        lemma_index_names_differ(a, b);
        assert(f(a).last() == index_name(a));
        assert(f(b).last() == index_name(b));
    }
    fs.lemma_count(f, n);
}

/// The names of `named`, in their order.
pub open spec fn names_of(named: Seq<(Seq<char>, ShapeView)>) -> Seq<Seq<char>> {
    Seq::new(named.len(), |i: int| named[i].0)
}

/// The place of the first of the first `n` of `names` that is `name`.
pub open spec fn first_among(names: Seq<Seq<char>>, name: Seq<char>, n: nat) -> Option<nat>
    decreases n,
{
    if n == 0 || n > names.len() {
        None
    } else {
        match first_among(names, name, (n - 1) as nat) {
            Some(i) => Some(i),
            None => if names[n - 1] == name {
                Some((n - 1) as nat)
            } else {
                None
            },
        }
    }
}

/// What a variant stored as a file gives where the enum says that the
/// variant holds a payload of the kind `expected`.
pub open spec fn payload_missing(expected: Seq<char>) -> ErrorView {
    ErrorView::Custom("invalid type: unit variant, expected "@ + expected)
}

/// The value of shape `s` stored at `p`, or the first error met on the way.
pub open spec fn decode(fs: FileTree, p: Seq<Seq<char>>, s: ShapeView) -> Result<
    ValueView,
    ErrorView,
>
    decreases s, 0nat,
{
    match s {
        ShapeView::Bool => match decoded_bool(fs@, p) {
            Ok(v) => Ok(ValueView::Bool(v)),
            Err(e) => Err(e),
        },
        ShapeView::Int(kind) => match decoded_int(fs@, p, kind) {
            Ok(v) => Ok(ValueView::Int(kind, v)),
            Err(e) => Err(e),
        },
        ShapeView::Char => match decoded_char(fs@, p) {
            Ok(v) => Ok(ValueView::Char(v)),
            Err(e) => Err(e),
        },
        ShapeView::Text => match read_text(fs@, p) {
            Ok(v) => Ok(ValueView::Text(v)),
            Err(e) => Err(e),
        },
        ShapeView::Bytes => match read_bytes(fs@, p) {
            Ok(v) => Ok(ValueView::Bytes(v)),
            Err(e) => Err(e),
        },
        ShapeView::Unit => match decoded_unit(fs@, p) {
            Ok(_) => Ok(ValueView::Unit),
            Err(e) => Err(e),
        },
        ShapeView::Optional(inner) => if !fs@.dom().contains(p) {
            Ok(ValueView::Absent)
        } else {
            match decode(fs, p, *inner) {
                Ok(v) => Ok(ValueView::Present(Box::new(v))),
                Err(e) => Err(e),
            }
        },
        ShapeView::Newtype(inner) => match decode(fs, p, *inner) {
            Ok(v) => Ok(ValueView::Newtype(Box::new(v))),
            Err(e) => Err(e),
        },
        ShapeView::Sequence(element) => match decode_elements(
            fs,
            p,
            *element,
            extent(fs@, p),
        ) {
            Ok(items) => Ok(ValueView::Sequence(items)),
            Err(e) => Err(e),
        },
        ShapeView::Tuple(shapes) => match decode_tuple(fs, p, shapes) {
            Ok(items) => Ok(ValueView::Tuple(items)),
            Err(e) => Err(e),
        },
        ShapeView::Mapping(value) => if !is_dir(fs@, p) {
            Err(list_error(fs@, p))
        } else {
            match decode_entries(fs, p, fs.listing(p), *value, fs.listing(p).len()) {
                Ok(entries) => Ok(ValueView::Mapping(entries)),
                Err(e) => Err(e),
            }
        },
        ShapeView::Record(fields) => match decode_fields(fs, p, fields, fields.len()) {
            Ok(values) => Ok(ValueView::Record(values)),
            Err(e) => Err(e),
        },
        ShapeView::Enum(variants) => match discriminant(fs@, p) {
            Err(e) => Err(e),
            Ok(name) => match first_among(names_of(variants), name, variants.len()) {
                None => Err(ErrorView::InvalidEnum(name)),
                Some(i) => if i < variants.len() {
                    if is_dir(fs@, p) {
                        match variants[i as int].1 {
                            ShapeView::Unit => Ok(ValueView::UnitVariant(name)),
                            ShapeView::Newtype(inner) => match decode(
                                fs,
                                p.push(value_name()),
                                *inner,
                            ) {
                                Ok(v) => Ok(ValueView::NewtypeVariant(name, Box::new(v))),
                                Err(e) => Err(e),
                            },
                            ShapeView::Tuple(shapes) => match decode_tuple(fs, p, shapes) {
                                Ok(items) => Ok(ValueView::TupleVariant(name, items)),
                                Err(e) => Err(e),
                            },
                            ShapeView::Record(fields) => match decode_fields(
                                fs,
                                p,
                                fields,
                                fields.len(),
                            ) {
                                Ok(values) => Ok(ValueView::StructVariant(name, values)),
                                Err(e) => Err(e),
                            },
                            _ => Err(ErrorView::Unsupported),
                        }
                    } else {
                        match variants[i as int].1 {
                            ShapeView::Unit => Ok(ValueView::UnitVariant(name)),
                            ShapeView::Newtype(_) => Err(payload_missing("newtype variant"@)),
                            ShapeView::Tuple(_) => Err(payload_missing("tuple variant"@)),
                            ShapeView::Record(_) => Err(payload_missing("struct variant"@)),
                            _ => Err(ErrorView::Unsupported),
                        }
                    }
                } else {
                    Err(ErrorView::Unsupported)
                },
            },
        },
    }
}

/// The first `n` elements in the directory `p`, each of shape `element`.
pub open spec fn decode_elements(fs: FileTree, p: Seq<Seq<char>>, element: ShapeView, n: nat)
    -> Result<Seq<ValueView>, ErrorView>
    decreases element, n,
{
    if n == 0 {
        Ok(Seq::empty())
    } else {
        match decode_elements(fs, p, element, (n - 1) as nat) {
            Err(e) => Err(e),
            Ok(items) => match decode(fs, p.push(index_name((n - 1) as nat)), element) {
                Ok(v) => Ok(items.push(v)),
                Err(e) => Err(e),
            },
        }
    }
}

/// The first `n` elements in the directory `p`, element `i` of shape
/// `shapes[i]`.
pub open spec fn decode_tuple_items(
    fs: FileTree,
    p: Seq<Seq<char>>,
    shapes: Seq<ShapeView>,
    n: nat,
) -> Result<Seq<ValueView>, ErrorView>
    decreases shapes, n,
{
    if n == 0 || n > shapes.len() {
        Ok(Seq::empty())
    } else {
        match decode_tuple_items(fs, p, shapes, (n - 1) as nat) {
            Err(e) => Err(e),
            Ok(items) => match decode(fs, p.push(index_name((n - 1) as nat)), shapes[n - 1]) {
                Ok(v) => Ok(items.push(v)),
                Err(e) => Err(e),
            },
        }
    }
}

/// The elements of a tuple in the directory `p`. Those that are there are
/// read first, as far as the tuple has shapes for them; then their number
/// must be that of the shapes.
pub open spec fn decode_tuple(fs: FileTree, p: Seq<Seq<char>>, shapes: Seq<ShapeView>) -> Result<
    Seq<ValueView>,
    ErrorView,
>
    decreases shapes, shapes.len() + 1,
{
    let found = extent(fs@, p);
    let read = if found < shapes.len() {
        found
    } else {
        shapes.len()
    };
    match decode_tuple_items(fs, p, shapes, read) {
        Err(e) => Err(e),
        Ok(items) => if found != shapes.len() {
            Err(ErrorView::InvalidLen { expected: shapes.len(), got: found })
        } else {
            Ok(items)
        },
    }
}

/// The values at the first `n` of `names` in the directory `p`, each of
/// shape `value`, with their names as keys.
pub open spec fn decode_entries(
    fs: FileTree,
    p: Seq<Seq<char>>,
    names: Seq<Seq<char>>,
    value: ShapeView,
    n: nat,
) -> Result<Seq<(ValueView, ValueView)>, ErrorView>
    decreases value, n,
{
    if n == 0 || n > names.len() {
        Ok(Seq::empty())
    } else {
        match decode_entries(fs, p, names, value, (n - 1) as nat) {
            Err(e) => Err(e),
            Ok(entries) => match decode(fs, p.push(names[n - 1]), value) {
                Ok(v) => Ok(entries.push((ValueView::Text(names[n - 1]), v))),
                Err(e) => Err(e),
            },
        }
    }
}

/// The values of the first `n` of `fields` in the directory `p`, each read
/// at the child named by its field.
pub open spec fn decode_fields(
    fs: FileTree,
    p: Seq<Seq<char>>,
    fields: Seq<(Seq<char>, ShapeView)>,
    n: nat,
) -> Result<Seq<(Seq<char>, ValueView)>, ErrorView>
    decreases fields, n,
{
    if n == 0 || n > fields.len() {
        Ok(Seq::empty())
    } else {
        match decode_fields(fs, p, fields, (n - 1) as nat) {
            Err(e) => Err(e),
            Ok(values) => match decode(fs, p.push(fields[n - 1].0), fields[n - 1].1) {
                Ok(v) => Ok(values.push((fields[n - 1].0, v))),
                Err(e) => Err(e),
            },
        }
    }
}

/// Once an element has failed, the elements after it are not read.
pub proof fn lemma_elements_stop(
    fs: FileTree,
    p: Seq<Seq<char>>,
    element: ShapeView,
    n: nat,
    m: nat,
)
    requires
        n <= m,
        decode_elements(fs, p, element, n) is Err,
    ensures
        decode_elements(fs, p, element, m) == decode_elements(fs, p, element, n),
    decreases m,
{
    if m > n {
        lemma_elements_stop(fs, p, element, n, (m - 1) as nat);
    }
}

/// Once an element of a tuple has failed, the elements after it are not
/// read.
pub proof fn lemma_tuple_items_stop(
    fs: FileTree,
    p: Seq<Seq<char>>,
    shapes: Seq<ShapeView>,
    n: nat,
    m: nat,
)
    requires
        n <= m <= shapes.len(),
        decode_tuple_items(fs, p, shapes, n) is Err,
    ensures
        decode_tuple_items(fs, p, shapes, m) == decode_tuple_items(fs, p, shapes, n),
    decreases m,
{
    if m > n {
        lemma_tuple_items_stop(fs, p, shapes, n, (m - 1) as nat);
    }
}

/// Once an entry has failed, the entries after it are not read.
pub proof fn lemma_entries_stop(
    fs: FileTree,
    p: Seq<Seq<char>>,
    names: Seq<Seq<char>>,
    value: ShapeView,
    n: nat,
    m: nat,
)
    requires
        n <= m <= names.len(),
        decode_entries(fs, p, names, value, n) is Err,
    ensures
        decode_entries(fs, p, names, value, m) == decode_entries(fs, p, names, value, n),
    decreases m,
{
    if m > n {
        lemma_entries_stop(fs, p, names, value, n, (m - 1) as nat);
    }
}

/// Once a field has failed, the fields after it are not read.
pub proof fn lemma_fields_stop(
    fs: FileTree,
    p: Seq<Seq<char>>,
    fields: Seq<(Seq<char>, ShapeView)>,
    n: nat,
    m: nat,
)
    requires
        n <= m <= fields.len(),
        decode_fields(fs, p, fields, n) is Err,
    ensures
        decode_fields(fs, p, fields, m) == decode_fields(fs, p, fields, n),
    decreases m,
{
    if m > n {
        lemma_fields_stop(fs, p, fields, n, (m - 1) as nat);
    }
}

/// Where element `n` is there and the elements before it too, the elements
/// are more than `n`.
pub proof fn lemma_extent_above(t: TreeView, p: Seq<Seq<char>>, n: nat, e: nat)
    requires
        all_present(t, p, n + 1),
        is_extent(t, p, e),
    ensures
        e > n,
{
    if e <= n {
        assert(element_present(t, p, e));
    }
}

/// Counts the elements in the directory `path`, of which the first `start`
/// are known to be there.
pub fn count_elements(fs: &FileTree, path: &TreePath, start: usize) -> (n: usize)
    requires
        fs.wf(),
        all_present(fs@, path@, start as nat),
    ensures
        is_extent(fs@, path@, n as nat),
        n >= start,
{
    let size = fs.size();
    let mut i: usize = start;
    loop
        invariant
            fs.wf(),
            size == fs.node_count(),
            i >= start,
            all_present(fs@, path@, i as nat),
        ensures
            is_extent(fs@, path@, i as nat),
            i >= start,
        decreases fs.node_count() - i,
    {
        proof {
            lemma_elements_bounded(fs, path@, i as nat);
        }
        let child = path.join_index(i);
        if !fs.contains(&child) {
            break ;
        }
        proof {
            assert forall|m: nat| m < i + 1 implies #[trigger] element_present(fs@, path@, m) by {
                if m < i {
                    assert(element_present(fs@, path@, m));
                }
            }
            lemma_elements_bounded(fs, path@, (i + 1) as nat);
        }
        i = i + 1;
    }
    i
}

/// The names of `named`, in their order.
pub fn names_in(named: &Vec<(String, Shape)>) -> (r: Vec<String>)
    ensures
        names_view(r@) == names_of(named_shapes_view(*named)),
{
    let mut names: Vec<String> = Vec::new();
    let mut i: usize = 0;
    while i < named.len()
        invariant
            i <= named.len(),
            names@.len() == i,
            forall|k: int| 0 <= k < i ==> names@[k]@ == named@[k].0@,
        decreases named.len() - i,
    {
        names.push(named[i].0.clone());
        i = i + 1;
    }
    proof {
        assert(names_view(names@) =~= names_of(named_shapes_view(*named)));
    }
    names
}

/// The place of the first of `named` that is called `name`.
pub fn position(named: &Vec<(String, Shape)>, name: &String) -> (r: Option<usize>)
    ensures
        match r {
            Some(i) => first_among(names_of(named_shapes_view(*named)), name@, named@.len() as nat)
                == Some(i as nat) && i < named@.len(),
            None => first_among(names_of(named_shapes_view(*named)), name@, named@.len() as nat)
                is None,
        },
{
    let ghost names = names_of(named_shapes_view(*named));
    let mut i: usize = 0;
    while i < named.len()
        invariant
            i <= named.len(),
            names == names_of(named_shapes_view(*named)),
            first_among(names, name@, i as nat) is None,
        decreases named.len() - i,
    {
        proof {
            assert(names[i as int] == named@[i as int].0@);
        }
        if named[i].0 == *name {
            proof {
                lemma_first_found(names, name@, (i + 1) as nat, named@.len() as nat);
            }
            return Some(i);
        }
        i = i + 1;
    }
    None
}

/// The first place found among some names is the first among more names.
pub proof fn lemma_first_found(names: Seq<Seq<char>>, name: Seq<char>, n: nat, m: nat)
    requires
        n <= m <= names.len(),
        first_among(names, name, n) is Some,
    ensures
        first_among(names, name, m) == first_among(names, name, n),
    decreases m,
{
    if m > n {
        lemma_first_found(names, name, n, (m - 1) as nat);
    }
}

/// The error for a payload that a variant stored as a file lacks.
fn payload_missing_error(expected: &str) -> (e: Error)
    ensures
        e@ == payload_missing(expected@),
{
    let mut message = "invalid type: unit variant, expected ".to_owned();
    message.append(expected);
    Error::Custom(message)
}

/// Reads the elements of a sequence, each of shape `element`, until one is
/// missing.
fn read_elements(
    fs: &FileTree,
    deserializer: FilesystemDeserializer,
    element: &Shape,
) -> (r: Result<Vec<Value>, Error>)
    requires
        fs.wf(),
    ensures
        match r {
            Ok(items) => decode_elements(*fs, deserializer@, element@, extent(fs@, deserializer@))
                == Ok::<Seq<ValueView>, ErrorView>(items_view(items)),
            Err(e) => decode_elements(*fs, deserializer@, element@, extent(fs@, deserializer@))
                == Err::<Seq<ValueView>, ErrorView>(e@),
        },
    decreases element, 1nat,
{
    let ghost p = deserializer@;
    let mut access = match deserializer.deserialize_seq() {
        Ok(access) => access,
        Err(e) => {
            return Err(e);
        },
    };
    let size = fs.size();
    let mut items: Vec<Value> = Vec::new();
    proof {
        assert(items_view(items) =~= Seq::<ValueView>::empty());
    }
    loop
        invariant
            fs.wf(),
            p == deserializer@,
            size == fs.node_count(),
            access.path() == p,
            access.counter() == items@.len(),
            access.len() is None,
            all_present(fs@, p, access.counter()),
            decode_elements(*fs, p, element@, access.counter()) == Ok::<Seq<ValueView>, ErrorView>(
                items_view(items),
            ),
        decreases fs.node_count() - access.counter(),
    {
        let ghost n = access.counter();
        let ghost before = items_view(items);
        proof {
            lemma_elements_bounded(fs, p, n);
            if element_present(fs@, p, n) {
                assert forall|m: nat| m < n + 1 implies #[trigger] element_present(fs@, p, m) by {
                    if m < n {
                        assert(element_present(fs@, p, m));
                    }
                }
                lemma_elements_bounded(fs, p, n + 1);
            }
        }
        match access.next_element_seed(fs) {
            Ok(Some(child)) => {
                match element.deserialize(fs, child) {
                    Ok(v) => {
                        items.push(v);
                        proof {
                            assert(items_view(items) =~= before.push(v@));
                        }
                    },
                    Err(e) => {
                        proof {
                            let found = extent(fs@, p);
                            lemma_elements_bounded(fs, p, n + 1);
                            lemma_extent_exists(fs, p);
                            lemma_extent_above(fs@, p, n, found);
                            lemma_elements_stop(*fs, p, element@, n + 1, found);
                        }
                        return Err(e);
                    },
                }
            },
            Ok(None) => {
                proof {
                    lemma_extent(fs@, p, n);
                }
                return Ok(items);
            },
            Err(e) => {
                return Err(e);
            },
        }
    }
}

/// Every directory of a tree in memory has a number of elements.
pub proof fn lemma_extent_exists(fs: &FileTree, p: Seq<Seq<char>>)
    ensures
        is_extent(fs@, p, extent(fs@, p)),
{
    lemma_extent_within(fs, p, 0);
}

/// Counting up from `n` elements that are there ends at the number of the
/// elements.
pub proof fn lemma_extent_within(fs: &FileTree, p: Seq<Seq<char>>, n: nat)
    requires
        all_present(fs@, p, n),
    ensures
        is_extent(fs@, p, extent(fs@, p)),
    decreases fs.node_count() - n,
{
    lemma_elements_bounded(fs, p, n);
    if element_present(fs@, p, n) {
        assert forall|m: nat| m < n + 1 implies #[trigger] element_present(fs@, p, m) by {
            if m < n {
                assert(element_present(fs@, p, m));
            }
        }
        lemma_elements_bounded(fs, p, n + 1);
        lemma_extent_within(fs, p, n + 1);
    } else {
        assert(is_extent(fs@, p, n));
    }
}

/// Reads the elements of a tuple, element `i` of shape `shapes[i]`, and
/// holds their number against that of the shapes.
fn read_tuple(
    fs: &FileTree,
    access: SeqAccess,
    shapes: &Vec<Shape>,
) -> (r: Result<Vec<Value>, Error>)
    requires
        fs.wf(),
        access.counter() == 0,
        access.len() == Some(shapes@.len() as nat),
    ensures
        match r {
            Ok(items) => decode_tuple(*fs, access.path(), shapes_view(*shapes)) == Ok::<
                Seq<ValueView>,
                ErrorView,
            >(items_view(items)),
            Err(e) => decode_tuple(*fs, access.path(), shapes_view(*shapes)) == Err::<
                Seq<ValueView>,
                ErrorView,
            >(e@),
        },
    decreases shapes, 0nat,
{
    let ghost p = access.path();
    let ghost views = shapes_view(*shapes);
    let mut walk = access;
    let mut items: Vec<Value> = Vec::new();
    let len = shapes.len();
    proof {
        assert(items_view(items) =~= Seq::<ValueView>::empty());
        lemma_extent_exists(fs, p);
    }
    let mut i: usize = 0;
    while i < len
        invariant
            fs.wf(),
            i <= len,
            len == shapes@.len(),
            p == access.path(),
            views == shapes_view(*shapes),
            walk.path() == p,
            walk.counter() == i,
            walk.len() == Some(len as nat),
            items@.len() == i,
            all_present(fs@, p, i as nat),
            is_extent(fs@, p, extent(fs@, p)),
            decode_tuple_items(*fs, p, views, i as nat) == Ok::<Seq<ValueView>, ErrorView>(
                items_view(items),
            ),
        decreases len - i,
    {
        let ghost before = items_view(items);
        assert(views[i as int] == shapes@[i as int]@);
        match walk.next_element_seed(fs) {
            Ok(Some(child)) => {
                proof {
                    assert forall|m: nat| m < i + 1 implies #[trigger] element_present(fs@, p, m) by {
                        if m < i {
                            assert(element_present(fs@, p, m));
                        }
                    }
                }
                match shapes[i].deserialize(fs, child) {
                    Ok(v) => {
                        items.push(v);
                        proof {
                            assert(items_view(items) =~= before.push(v@));
                        }
                    },
                    Err(e) => {
                        proof {
                            let found = extent(fs@, p);
                            lemma_extent_above(fs@, p, i as nat, found);
                            let read = if found < len {
                                found
                            } else {
                                len as nat
                            };
                            lemma_tuple_items_stop(*fs, p, views, (i + 1) as nat, read);
                        }
                        return Err(e);
                    },
                }
            },
            Ok(None) => {
                return Ok(items);
            },
            Err(e) => {
                proof {
                    lemma_extent(fs@, p, i as nat);
                }
                return Err(e);
            },
        }
        i = i + 1;
    }
    let found = count_elements(fs, &walk.path, len);
    proof {
        lemma_extent(fs@, p, found as nat);
    }
    if found != len {
        Err(Error::InvalidLen { expected: len, got: found })
    } else {
        Ok(items)
    }
}

/// Reads the values at the keys that `access` has left, each of shape
/// `value`.
fn read_entries(fs: &FileTree, access: MapAccess, value: &Shape) -> (r: Result<
    Vec<(Value, Value)>,
    Error,
>)
    requires
        fs.wf(),
        access.inv(),
    ensures
        match r {
            Ok(entries) => decode_entries(
                *fs,
                access.path(),
                access.remaining(),
                value@,
                access.remaining().len(),
            ) == Ok::<Seq<(ValueView, ValueView)>, ErrorView>(entries_view(entries)),
            Err(e) => decode_entries(
                *fs,
                access.path(),
                access.remaining(),
                value@,
                access.remaining().len(),
            ) == Err::<Seq<(ValueView, ValueView)>, ErrorView>(e@),
        },
    decreases value, 1nat,
{
    let ghost p = access.path();
    let ghost names = access.remaining();
    let mut walk = access;
    let mut entries: Vec<(Value, Value)> = Vec::new();
    proof {
        assert(entries_view(entries) =~= Seq::<(ValueView, ValueView)>::empty());
        assert(names.skip(0) =~= names);
    }
    loop
        invariant
            fs.wf(),
            walk.inv(),
            p == access.path(),
            names == access.remaining(),
            walk.path() == p,
            entries@.len() <= names.len(),
            walk.remaining() == names.skip(entries@.len() as int),
            decode_entries(*fs, p, names, value@, entries@.len() as nat) == Ok::<
                Seq<(ValueView, ValueView)>,
                ErrorView,
            >(entries_view(entries)),
        decreases names.len() - entries@.len(),
    {
        let ghost i = entries@.len();
        let ghost before = entries_view(entries);
        let name = match walk.next_key_seed() {
            Ok(Some(name)) => name,
            Ok(None) => {
                return Ok(entries);
            },
            Err(e) => {
                return Err(e);
            },
        };
        proof {
            assert(names.skip(i as int)[0] == names[i as int]);
            assert(names.skip(i as int).drop_first() =~= names.skip(i as int + 1));
        }
        let child = match walk.next_value_seed() {
            Ok(child) => child,
            Err(e) => {
                return Err(e);
            },
        };
        match value.deserialize(fs, child) {
            Ok(v) => {
                entries.push((Value::Text(name), v));
                proof {
                    assert(entries_view(entries) =~= before.push((ValueView::Text(names[i as int]), v@)));
                }
            },
            Err(e) => {
                proof {
                    lemma_entries_stop(*fs, p, names, value@, (i + 1) as nat, names.len());
                }
                return Err(e);
            },
        }
    }
}

/// Reads the values of `fields`, each at the child named by its field.
fn read_fields(fs: &FileTree, access: MapAccess, fields: &Vec<(String, Shape)>) -> (r: Result<
    Vec<(String, Value)>,
    Error,
>)
    requires
        fs.wf(),
        access.inv(),
        access.key() is None,
        access.remaining() == names_of(named_shapes_view(*fields)),
    ensures
        match r {
            Ok(values) => decode_fields(
                *fs,
                access.path(),
                named_shapes_view(*fields),
                fields@.len() as nat,
            ) == Ok::<Seq<(Seq<char>, ValueView)>, ErrorView>(fields_view(values)),
            Err(e) => decode_fields(
                *fs,
                access.path(),
                named_shapes_view(*fields),
                fields@.len() as nat,
            ) == Err::<Seq<(Seq<char>, ValueView)>, ErrorView>(e@),
        },
    decreases fields, 0nat,
{
    let ghost p = access.path();
    let ghost views = named_shapes_view(*fields);
    let ghost names = names_of(views);
    let mut walk = access;
    let mut values: Vec<(String, Value)> = Vec::new();
    proof {
        assert(fields_view(values) =~= Seq::<(Seq<char>, ValueView)>::empty());
        assert(names.skip(0) =~= names);
    }
    let mut i: usize = 0;
    while i < fields.len()
        invariant
            fs.wf(),
            walk.inv(),
            i <= fields.len(),
            p == access.path(),
            views == named_shapes_view(*fields),
            names == names_of(views),
            walk.path() == p,
            values@.len() == i,
            walk.remaining() == names.skip(i as int),
            decode_fields(*fs, p, views, i as nat) == Ok::<Seq<(Seq<char>, ValueView)>, ErrorView>(
                fields_view(values),
            ),
        decreases fields.len() - i,
    {
        let ghost before = fields_view(values);
        proof {
            assert(views[i as int] == (fields@[i as int].0@, fields@[i as int].1@));
            assert(names.skip(i as int)[0] == names[i as int]);
            assert(names.skip(i as int).drop_first() =~= names.skip(i + 1));
        }
        let name = match walk.next_key_seed() {
            Ok(Some(name)) => name,
            Ok(None) => {
                return Ok(values);
            },
            Err(e) => {
                return Err(e);
            },
        };
        let child = match walk.next_value_seed() {
            Ok(child) => child,
            Err(e) => {
                return Err(e);
            },
        };
        match fields[i].1.deserialize(fs, child) {
            Ok(v) => {
                values.push((name, v));
                proof {
                    assert(fields_view(values) =~= before.push((names[i as int], v@)));
                }
            },
            Err(e) => {
                proof {
                    lemma_fields_stop(*fs, p, views, (i + 1) as nat, fields@.len() as nat);
                }
                return Err(e);
            },
        }
        i = i + 1;
    }
    Ok(values)
}

impl Shape {
    /// Reads a value of this shape out of the tree at the path of
    /// `deserializer`.
    pub fn deserialize(&self, fs: &FileTree, deserializer: FilesystemDeserializer) -> (r: Result<
        Value,
        Error,
    >)
        requires
            fs.wf(),
        ensures
            match r {
                Ok(v) => decode(*fs, deserializer@, self@) == Ok::<ValueView, ErrorView>(v@),
                Err(e) => decode(*fs, deserializer@, self@) == Err::<ValueView, ErrorView>(e@),
            },
        decreases self, 0nat,
    {
        match self {
            Shape::Bool => match deserializer.deserialize_bool(fs) {
                Ok(v) => Ok(Value::Bool(v)),
                Err(e) => Err(e),
            },
            Shape::Int(kind) => match kind {
                IntKind::I8 => match deserializer.deserialize_i8(fs) {
                    Ok(v) => Ok(Value::I8(v)),
                    Err(e) => Err(e),
                },
                IntKind::I16 => match deserializer.deserialize_i16(fs) {
                    Ok(v) => Ok(Value::I16(v)),
                    Err(e) => Err(e),
                },
                IntKind::I32 => match deserializer.deserialize_i32(fs) {
                    Ok(v) => Ok(Value::I32(v)),
                    Err(e) => Err(e),
                },
                IntKind::I64 => match deserializer.deserialize_i64(fs) {
                    Ok(v) => Ok(Value::I64(v)),
                    Err(e) => Err(e),
                },
                IntKind::U8 => match deserializer.deserialize_u8(fs) {
                    Ok(v) => Ok(Value::U8(v)),
                    Err(e) => Err(e),
                },
                IntKind::U16 => match deserializer.deserialize_u16(fs) {
                    Ok(v) => Ok(Value::U16(v)),
                    Err(e) => Err(e),
                },
                IntKind::U32 => match deserializer.deserialize_u32(fs) {
                    Ok(v) => Ok(Value::U32(v)),
                    Err(e) => Err(e),
                },
                IntKind::U64 => match deserializer.deserialize_u64(fs) {
                    Ok(v) => Ok(Value::U64(v)),
                    Err(e) => Err(e),
                },
            },
            Shape::Char => match deserializer.deserialize_char(fs) {
                Ok(v) => Ok(Value::Char(v)),
                Err(e) => Err(e),
            },
            Shape::Text => match deserializer.deserialize_string(fs) {
                Ok(v) => Ok(Value::Text(v)),
                Err(e) => Err(e),
            },
            Shape::Bytes => match deserializer.deserialize_byte_buf(fs) {
                Ok(v) => Ok(Value::Bytes(v)),
                Err(e) => Err(e),
            },
            Shape::Unit => match deserializer.deserialize_unit(fs) {
                Ok(_) => Ok(Value::Unit),
                Err(e) => Err(e),
            },
            Shape::Optional(inner) => match deserializer.deserialize_option(fs) {
                Ok(None) => Ok(Value::Absent),
                Ok(Some(present)) => match inner.deserialize(fs, present) {
                    Ok(v) => Ok(Value::Present(Box::new(v))),
                    Err(e) => Err(e),
                },
                Err(e) => Err(e),
            },
            Shape::Newtype(inner) => match deserializer.deserialize_newtype_struct("") {
                Ok(wrapped) => match inner.deserialize(fs, wrapped) {
                    Ok(v) => Ok(Value::Newtype(Box::new(v))),
                    Err(e) => Err(e),
                },
                Err(e) => Err(e),
            },
            Shape::Sequence(element) => match read_elements(fs, deserializer, element) {
                Ok(items) => Ok(Value::Sequence(items)),
                Err(e) => Err(e),
            },
            Shape::Tuple(shapes) => match deserializer.deserialize_tuple(shapes.len()) {
                Ok(access) => match read_tuple(fs, access, shapes) {
                    Ok(items) => Ok(Value::Tuple(items)),
                    Err(e) => Err(e),
                },
                Err(e) => Err(e),
            },
            Shape::Mapping(value) => match deserializer.deserialize_map(fs) {
                Ok(access) => match read_entries(fs, access, value) {
                    Ok(entries) => Ok(Value::Mapping(entries)),
                    Err(e) => Err(e),
                },
                Err(e) => Err(e),
            },
            Shape::Record(fields) => {
                let names = names_in(fields);
                match deserializer.deserialize_struct("", &names) {
                    Ok(access) => match read_fields(fs, access, fields) {
                        Ok(values) => Ok(Value::Record(values)),
                        Err(e) => Err(e),
                    },
                    Err(e) => Err(e),
                }
            },
            Shape::Enum(variants) => {
                let names = names_in(variants);
                let found = match deserializer.deserialize_enum(fs, "", &names) {
                    Ok(found) => found,
                    Err(e) => {
                        proof {
                            lemma_first_among(names_view(names@), discriminant(fs@, deserializer@));
                        }
                        return Err(e);
                    },
                };
                proof {
                    lemma_first_among(names_view(names@), discriminant(fs@, deserializer@));
                }
                match found {
                    EnumAccess::Unit(name) => {
                        let i = match position(variants, &name) {
                            Some(i) => i,
                            None => {
                                return Err(Error::Unsupported);
                            },
                        };
                        match &variants[i].1 {
                            Shape::Unit => Ok(Value::UnitVariant(name)),
                            Shape::Newtype(_) => Err(payload_missing_error("newtype variant")),
                            Shape::Tuple(_) => Err(payload_missing_error("tuple variant")),
                            Shape::Record(_) => Err(payload_missing_error("struct variant")),
                            _ => Err(Error::Unsupported),
                        }
                    },
                    EnumAccess::Compound(access) => {
                        let (name, access) = match access.variant_seed() {
                            Ok(pair) => pair,
                            Err(e) => {
                                return Err(e);
                            },
                        };
                        let i = match position(variants, &name) {
                            Some(i) => i,
                            None => {
                                return Err(Error::Unsupported);
                            },
                        };
                        match &variants[i].1 {
                            Shape::Unit => match access.unit_variant() {
                                Ok(_) => Ok(Value::UnitVariant(name)),
                                Err(e) => Err(e),
                            },
                            Shape::Newtype(inner) => match inner.deserialize(
                                fs,
                                access.newtype_variant_seed(),
                            ) {
                                Ok(v) => Ok(Value::NewtypeVariant(name, Box::new(v))),
                                Err(e) => Err(e),
                            },
                            Shape::Tuple(shapes) => match access.tuple_variant(shapes.len()) {
                                Ok(elements) => match read_tuple(fs, elements, shapes) {
                                    Ok(items) => Ok(Value::TupleVariant(name, items)),
                                    Err(e) => Err(e),
                                },
                                Err(e) => Err(e),
                            },
                            Shape::Record(fields) => {
                                let field_names = names_in(fields);
                                match access.struct_variant(&field_names) {
                                    Ok(walk) => match read_fields(fs, walk, fields) {
                                        Ok(values) => Ok(Value::StructVariant(name, values)),
                                        Err(e) => Err(e),
                                    },
                                    Err(e) => Err(e),
                                }
                            },
                            _ => Err(Error::Unsupported),
                        }
                    },
                }
            },
        }
    }
}

/// A name is found among names exactly if they contain it.
pub proof fn lemma_first_among(names: Seq<Seq<char>>, found: Result<Seq<char>, ErrorView>)
    ensures
        found matches Ok(name) ==> (first_among(names, name, names.len()) is Some
            <==> names.contains(name)),
{
    if found is Ok {
        lemma_first_among_upto(names, found->Ok_0, names.len());
    }
}

/// A name is found among the first `n` names exactly if one of them is it.
pub proof fn lemma_first_among_upto(names: Seq<Seq<char>>, name: Seq<char>, n: nat)
    requires
        n <= names.len(),
    ensures
        first_among(names, name, n) is Some <==> exists|k: int| 0 <= k < n && names[k] == name,
        first_among(names, name, n) matches Some(i) ==> i < n && names[i as int] == name,
    decreases n,
{
    if n > 0 {
        lemma_first_among_upto(names, name, (n - 1) as nat);
        if first_among(names, name, (n - 1) as nat) is Some {
            let k = choose|k: int| 0 <= k < n - 1 && names[k] == name;
            assert(0 <= k < n && names[k] == name);
        } else if names[n - 1] == name {
            assert(0 <= n - 1 < n && names[n - 1] == name);
        } else {
            if exists|k: int| 0 <= k < n && names[k] == name {
                let k = choose|k: int| 0 <= k < n && names[k] == name;
                assert(0 <= k < n - 1 && names[k] == name);
            }
        }
    }
}

} // verus!
