//! Reading of WAD archives: a 12-byte header, a directory of 16-byte entries,
//! and named lumps that are borrowed views into the archive's own buffer.

pub mod cursor;
pub mod error;
pub mod laws;
pub mod name;
pub mod wad;

pub use crate::cursor::Cursor;
pub use crate::error::WadError;
pub use crate::wad::{Kind, Lump, Wad};
