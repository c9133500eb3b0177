//! Decoder for S25 tiled-image archives: the container's entry table, the
//! per-image header, and the row-token decompressor that rebuilds an RGBA raster.
use vstd::prelude::*;

pub mod decode;
pub mod s25;
pub mod utils;

verus! {

} // verus!
