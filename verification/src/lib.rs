//! Sparse generalized tile coding.
//!
//! A point in a continuous (and optionally discrete) space is mapped to one
//! integer coordinate vector per tiling; each vector is then assigned a
//! bounded integer index, either by a capacity-bounded first-seen-order
//! dictionary ([`IHT`]) or by a stateless content hash.
//!
//! Quantization of floating-point inputs (`floor(x * num_tilings)`) is left
//! to the caller; every function here works on the quantized integers.

pub mod coords;
pub mod hash;
pub mod table;
pub mod tiles;

pub use coords::{calculate_coords, calculate_coords_wrap};
pub use hash::base_hash;
pub use table::IHT;
pub use tiles::{tiles_quantized, tiles_wrap_quantized};
