//! Descriptors of strided N-dimensional array views.
//!
//! An [`ArrayLayout`] records the offset, shape and strides that locate the
//! elements of an array in memory. Every transform (index, slice, broadcast,
//! merge, tile, transpose, split) works on this metadata alone and returns a
//! new layout, leaving the element data untouched.
pub mod arith;
pub mod laws;
pub mod layout;
pub mod transform;

pub use arith::{fits_isize, product, sum};
pub use laws::{law_clone_equals, law_inline_size_round_trip, law_new_reports_inputs};
pub use layout::{ArrayLayout, Endian, LayoutView};
pub use transform::{BroadcastArg, IndexArg, MergeArg, SliceArg, Split, SplitView, TileArg};
