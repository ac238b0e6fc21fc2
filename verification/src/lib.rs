//! A growable container with stable indices.
//!
//! [`OptVec`] hands out a slot index on insertion. The index keeps naming the
//! same value until that value is removed, whatever happens to the other
//! slots: a removal empties its slot and registers the index for reuse, and
//! nothing is ever moved.

pub mod model;
pub mod store;
pub mod laws;

pub use crate::model::Slots;
pub use crate::store::OptVec;
