//! Pure-Rust HDF5 reader and writer with verified byte-level logic.
//!
//! IEEE values are integer bit patterns (`u64` / `u32`). Opaque datasets are
//! raw records. Hardware IEEE arithmetic is not used.
use vstd::prelude::*;

pub mod btree;
pub mod buf;
pub mod checksum;
pub mod consts;
pub mod decode;
pub mod encodable;
pub mod encode;
pub mod error;
pub mod file;
pub mod formats;
pub mod image;
pub mod lanes;
pub mod laws;
pub mod messages;
pub mod model;
pub mod ohdr;
pub mod paths;
pub mod roundtrip;
pub mod superblock;
pub mod table;
pub mod shape;
pub mod text;
pub mod tree;

pub use consts::{
    HDF5_ATTR_VERSION, HDF5_BTREE_CHUNK, HDF5_BTREE_GROUP, HDF5_CLASS_FLOAT, HDF5_CLASS_INTEGER,
    HDF5_CLASS_OPAQUE, HDF5_CLASS_STRING, HDF5_CLASS_VLEN, HDF5_CREATED_ATTR,
    HDF5_DATASPACE_VERSION, HDF5_DTYPE_VERSION, HDF5_FILL_VERSION, HDF5_GCOL_SIGNATURE,
    HDF5_HEAP_SIGNATURE, HDF5_LAYOUT_CHUNKED, HDF5_LAYOUT_COMPACT, HDF5_LAYOUT_CONTIGUOUS,
    HDF5_LAYOUT_VERSION, HDF5_LENGTH_SIZE, HDF5_LINK_VERSION, HDF5_MAX_DIMS, HDF5_MAX_NAME_LEN,
    HDF5_MAX_WALK_DEPTH, HDF5_MSG_ATTRIBUTE, HDF5_MSG_CONTINUATION, HDF5_MSG_DATASPACE,
    HDF5_MSG_DATATYPE, HDF5_MSG_FILL, HDF5_MSG_FILTER, HDF5_MSG_FLAG_CONSTANT,
    HDF5_MSG_GROUP_INFO, HDF5_MSG_LAYOUT, HDF5_MSG_LINK, HDF5_MSG_LINK_INFO, HDF5_MSG_NIL,
    HDF5_MSG_SYMBOL_TABLE, HDF5_OCHK_SIGNATURE, HDF5_OFFSET_SIZE, HDF5_OHDR_FLAGS_CHUNK4,
    HDF5_OHDR_SIGNATURE, HDF5_OHDR_VERSION, HDF5_OPAQUE_TAG, HDF5_SIGNATURE, HDF5_SNOD_SIGNATURE,
    HDF5_SPACE_SCALAR, HDF5_SPACE_SIMPLE, HDF5_SUPERBLOCK_SEARCH_START, HDF5_SUPERBLOCK_V2,
    HDF5_SUPERBLOCK_V2_SIZE, HDF5_TREE_SIGNATURE, HDF5_UNDEF_ADDR_8, HDF5_UNLIMITED,
    HDF5_WRITER_VERSION, HDF5_WRITER_VERSION_ATTR,
};
pub use error::{HDF5Error, Result};
pub use file::{dataset_dtype, dataset_shape, list_datasets, list_groups, Hdf5File};

verus! {

/// Dataset datatype as reported by `Hdf5File::dataset_dtype`.
#[derive(Clone, Copy, Debug, PartialEq, Eq, Structural)]
pub enum HDF5DType {
    /// IEEE 754 binary64, little-endian.
    Float64,
    /// IEEE 754 binary32, little-endian.
    Float32,
    /// Opaque element of `size` bytes.
    Opaque(usize),
    /// Signed 8-bit integer.
    Int8,
    /// Signed 16-bit little-endian integer.
    Int16,
    /// Signed 32-bit little-endian integer.
    Int32,
    /// Signed 64-bit little-endian integer.
    Int64,
    /// Unsigned 8-bit integer.
    UInt8,
    /// Unsigned 16-bit little-endian integer.
    UInt16,
    /// Unsigned 32-bit little-endian integer.
    UInt32,
    /// Unsigned 64-bit little-endian integer.
    UInt64,
    /// Any other HDF5 datatype this crate does not specialize.
    Other,
}

/// Well-formed file whose dataset `data` is chunked (a fixture for the
/// chunked-storage error).
pub fn fixture_chunked_dataset() -> (res: Result<Vec<u8>>)
    ensures
        match encode::spec_chunked_stub() {
            Ok(b) => res matches Ok(v) && v@ == b,
            Err(e) => res == Err::<Vec<u8>, HDF5Error>(e),
        },
{
    encode::encode_chunked_stub()
}

} // verus!
