use vstd::prelude::*;

verus! {

/// Why an archive could not be opened, or why a query was refused.
#[derive(Debug, PartialEq, Eq)]
pub enum WadError {
    /// The header tag is neither `IWAD` nor `PWAD`; holds the four bytes found.
    InvalidKind([u8; 4]),
    /// The buffer is shorter than the 12-byte header.
    MissingHeader,
    /// The header declares a negative entry count or directory offset.
    InvalidDirectory,
    /// The directory table would run past the end of the buffer.
    DirectoryOutOfBounds,
    /// The directory entry at this index points past the end of the buffer.
    LumpOutOfBounds(usize),
    /// A primitive read ran past the available bytes.
    UnexpectedEnd,
    /// A lump index at or past the number of lumps.
    IndexOutOfRange,
}

} // verus!
