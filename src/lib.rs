//! Decoder for tiled, multi-dimensional spectrum files (the Sparky "UCSF NMR"
//! layout), with the tile geometry and coordinate arithmetic proved correct.
//!
//! Samples are kept as their raw IEEE-754 bit patterns (`u32`); converting
//! them to `f32` is left to the caller.
pub mod axis;
pub mod coords;
pub mod file;
pub mod header;

pub use axis::AxisHeader;
pub use file::{
    AbsolutePosValIter, AbsolutePosValIter2D, AbsolutePosValIter3D, AbsolutePosValIter4D, Tile,
    Tiles, UcsfFile,
};
pub use coords::{multi_dim_index, multi_dim_position};
pub use header::{Header, UcsfError};
