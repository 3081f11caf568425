//! A routing information base: a per-node store that maps global names to
//! routing facts, with add-wins merge, same-origin update and tombstone
//! delete, so that replicas converge whatever the delivery order.

pub mod record;
mod table_map;
pub mod rib;
pub mod actor;
pub mod laws;
