//! Converts indexed-colour raster images into packed binaries for a fixed-size
//! video memory and plans where each binary is loaded in that memory.
//!
//! The library is split by stage: colour quantisation, palette allocation,
//! pixel encoding, placement of the encoded assets and the splitting of an
//! asset that straddles the bank boundary.

pub mod color;
pub mod convert;
pub mod encode;
pub mod layout;
pub mod names;
pub mod options;
pub mod palette;
pub mod params;
pub mod source;
pub mod split;
