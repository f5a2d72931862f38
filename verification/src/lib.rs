//! A Robin Hood open-addressing hash table.
//!
//! The table resolves collisions by linear probing while keeping every
//! entry's probe sequence length (psl) equal to its true distance from its
//! ideal bucket, displacing richer entries on insert and repairing the
//! invariant on remove by backward shifting instead of tombstones.

pub mod arith;
pub mod table;

pub use table::Elem;
pub use table::HashMap;
