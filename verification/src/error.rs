use vstd::prelude::*;

verus! {

/// Everything an operation on a disk image can report.
#[derive(Debug, Clone, Copy, PartialEq, Eq, Structural)]
pub enum D64Error {
    /// A buffer whose length is that of neither supported geometry.
    InvalidFileSize,
    /// An address outside the image, or a text that does not fit its field.
    InvalidTrackSector,
    /// No directory entry carries the name that was asked for.
    FileNotFound,
    /// No free sector, or no empty directory slot, is left.
    DiskFull,
    /// A sector chain that loops or leaves its track, or a free-sector
    /// counter that contradicts its bitmap.
    Corrupt,
}

} // verus!
