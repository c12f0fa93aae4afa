//! A verified decoder and encoder for a tagged, named, tree-structured binary
//! format: a one-byte type identifier selects a scalar, array, string, list or
//! compound value; compounds map names to nested values and end with a sentinel
//! byte on the wire.
//!
//! The wire format, the string codec (a JVM-style modified UTF-8) and the
//! recursive tag-body decoder are specified by spec functions over `Seq<u8>`,
//! and the executable readers and writers are proved to implement them.

pub mod mutf8;
pub mod read;
pub mod repr;
pub mod wire;
pub mod write;
pub mod tag;

pub use read::read_nbt_gz_compressed;
pub use read::read_nbt_uncompressed;
pub use read::read_nbt_zlib_compressed;
pub use tag::NbtCompound;
pub use tag::NbtList;
pub use tag::NbtTag;
pub use tag::SpecTag;
pub use repr::NbtRepr;
pub use repr::NbtReprError;
pub use repr::NbtStructureError;
pub use wire::NbtDecodeError;
pub use write::write_nbt_uncompressed;
