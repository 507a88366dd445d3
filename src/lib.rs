//! Block ordering, difficulty adjustment and DAG traversal for a GHOSTDAG-style
//! proof-of-work block DAG, with the consensus parameters they read and the
//! per-listener subscription state of the node's notifications.

pub mod compact;
pub mod difficulty;
pub mod hash;
pub mod listener;
pub mod memory;
pub mod params;
pub mod sortable;
pub mod stores;
pub mod subscription;
pub mod traversal;
pub mod wide;
pub mod window;
