//! Building blocks for a voxel world: packed block positions, a registry of
//! block identifiers, cursors over block storage, an in-memory world with
//! the text of its signs, named binary tags, and the names of the files of
//! a world on disk.

pub mod block;
pub mod chunk;
pub mod endian;
pub mod id;
pub mod nbt;
pub mod pos;
pub mod sign;
pub mod storage;
pub mod text;
pub mod time;
pub mod world;

pub use crate::nbt::Data as NbtData;
pub use crate::nbt::NbtError;
pub use crate::nbt::NbtResult;
pub use crate::nbt::Read as NbtRead;
pub use crate::nbt::Tag as NbtTag;
