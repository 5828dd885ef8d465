//! An engine for 1541 floppy-disk images: sector geometry, the block
//! availability map, the chained directory, chained file data and the PETSCII
//! text codec. Every operation has a contract over the bytes of the image,
//! and Verus proves the code against it.

pub mod bam;
pub mod directory;
pub mod error;
pub mod files;
pub mod geometry;
pub mod hexcode;
pub mod image;
pub mod petscii;
pub mod volume;

pub use bam::BAM;
pub use error::D64Error;
pub use geometry::{
    sector_offset, sectors_per_track, D64_35_TRACKS_SIZE, D64_40_TRACKS_SIZE, MAX_TRACKS,
    SECTORS_PER_TRACK, SECTOR_SIZE,
};
pub use hexcode::bytes_from_hex;
pub use image::D64;
pub use petscii::{ascii_to_petscii, petscii_to_ascii};
