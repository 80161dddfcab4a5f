//! Structural differences between JSON documents: compute a delta, apply it,
//! and revert it.
pub mod delta;
pub mod diff;
pub mod laws;
pub mod patch;
pub mod path;
pub mod value;

pub use delta::{Change, Delta};
pub use diff::diff;
pub use patch::{apply, revert};
pub use value::{Number, Value};
