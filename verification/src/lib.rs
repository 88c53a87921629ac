//! Geohash encoding over exact fixed-point coordinates.
//!
//! A coordinate is given in units of `2^-48` degree, or as the bit patterns
//! of two double-precision numbers, which are first rounded down to such
//! units. It is quantized by interval halving on each axis, the two bit
//! sequences are interleaved (longitude first), and the merged bits are
//! written out five at a time in the geohash base-32 alphabet.

pub mod bits;
pub mod error;
pub mod bisect;
pub mod interleave;
pub mod base32;
pub mod double;
pub mod geohash;

pub use crate::base32::base32encode;
pub use crate::bisect::trace_binary_search;
pub use crate::double::units_from_double;
pub use crate::geohash::{encode, encode_double, LATITUDE_LIMIT, LONGITUDE_LIMIT, UNITS_PER_DEGREE};
pub use crate::error::EncodeError;
pub use crate::interleave::interleave;
