//! Verified core of the house-puzzle asset pipeline: the integer and byte
//! level logic behind brick layers, puzzle pieces, PSD encoding, PNG row
//! reconstruction, PDF content-stream analysis and OCG rewriting.
use vstd::prelude::*;

pub mod types;
pub mod raster;
pub mod psd;
pub mod export;
pub mod pixels;
pub mod version;
pub mod text;
pub mod ai_data;
pub mod puzzle;
pub mod ocg;
pub mod marker_balance;
pub mod render;
pub mod edges;
pub mod image_decode;

verus! {

} // verus!
