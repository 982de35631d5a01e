//! A codec between a structured data model and a directory tree.
//!
//! Composite values become directories and scalar leaves become files. The
//! tree itself is held in memory as a [`tree::FileTree`]; every change made to
//! it is also recorded in a journal that a caller can replay on a real disk.
//!
//! The encoder is in [`ser`], the decoder in [`de`], the data model in
//! [`value`], the naming of nodes in [`path`] and the text of scalars in
//! [`text`]. What holds of encoder and decoder together is proved in
//! [`laws`], [`round_trip`], [`map_round_trip`], [`locality`],
//! [`idempotence`] and [`reading`].

pub mod de;
pub mod idempotence;
pub mod laws;
pub mod locality;
pub mod map_round_trip;
pub mod path;
pub mod reading;
pub mod round_trip;
pub mod ser;
pub mod text;
pub mod tree;
pub mod value;

pub use de::Error as DeserializerError;
pub use de::FilesystemDeserializer;
pub use ser::Error as SerializerError;
pub use ser::FilesystemSerializer;

use path::TreePath;
use tree::FileTree;
use value::{Shape, Value};
use vstd::prelude::*;

verus! {

/// Writes `value` into the tree at `path`. The changes that this makes to
/// the tree are added to its journal; where the writing fails, what was
/// written before the failure stays.
pub fn to_fs(fs: &mut FileTree, path: TreePath, value: &Value) -> (r: Result<(), SerializerError>)
    requires
        old(fs).wf(),
    ensures
        final(fs).wf(),
        final(fs).base() == old(fs).base(),
        final(fs)@ == ser::encode(old(fs)@, path@, value@).tree,
        ser::failure_of(r) == ser::encode(old(fs)@, path@, value@).failure,
{
    let serializer = FilesystemSerializer::new(path);
    value.serialize(fs, serializer)
}

/// Reads a value of the shape `shape` out of the tree at `path`.
pub fn from_fs(
    fs: &FileTree,
    path: TreePath,
    shape: &Shape,
) -> (r: Result<Value, DeserializerError>)
    requires
        fs.wf(),
    ensures
        match r {
            Ok(v) => de::decode(*fs, path@, shape@) == Ok::<value::ValueView, de::ErrorView>(v@),
            Err(e) => de::decode(*fs, path@, shape@) == Err::<value::ValueView, de::ErrorView>(
                e@,
            ),
        },
{
    let deserializer = FilesystemDeserializer::new(path);
    shape.deserialize(fs, deserializer)
}

/// Reads a value of the shape `shape` out of the tree at `path` into
/// `place`. Where the reading fails, `place` keeps what it held.
pub fn from_fs_in_place(fs: &FileTree, path: TreePath, shape: &Shape, place: &mut Value) -> (r:
    Result<(), DeserializerError>)
    requires
        fs.wf(),
    ensures
        match r {
            Ok(_) => de::decode(*fs, path@, shape@) == Ok::<value::ValueView, de::ErrorView>(
                final(place)@,
            ),
            Err(e) => de::decode(*fs, path@, shape@) == Err::<value::ValueView, de::ErrorView>(
                e@,
            ) && *final(place) == *old(place),
        },
{
    match from_fs(fs, path, shape) {
        Ok(v) => {
            *place = v;
            Ok(())
        },
        Err(e) => Err(e),
    }
}

} // verus!
