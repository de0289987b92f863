//! Transforms of a layout: each returns a new layout and leaves its receiver
//! as it was.
pub mod broadcast;
pub mod index;
pub mod merge;
pub mod slice;
pub mod split;
pub mod tile;
pub mod transpose;

pub use broadcast::BroadcastArg;
pub use index::IndexArg;
pub use merge::MergeArg;
pub use slice::SliceArg;
pub use split::{Split, SplitView};
pub use tile::TileArg;
