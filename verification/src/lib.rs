//! A segmented hash map with open addressing and linear probing.
//!
//! The map is organised as a fixed, power-of-two number of independent
//! segments. A 64-bit hash is computed for every key; the high bits of the
//! hash select the segment and the low bits select the starting slot of a
//! linear probe inside the segment's bucket array. Deleted keys leave
//! tombstones behind so that probe chains stay intact; once more than half
//! of an array's slots are in use, the array is rebuilt at twice the size
//! and the tombstones are dropped.
//!
//! Every operation is specified against a mathematical map from key views
//! to values, and the implementation is verified against that model.

pub mod hasher;
pub mod bucket;
pub mod map;

pub use crate::hasher::HashBuilder;
pub use crate::hasher::MapKey;
pub use crate::map::HashMap;
