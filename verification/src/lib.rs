//! Saving, loading, checkpointing and migrating application state.

pub mod version;
pub mod apply_schedule;
pub mod reflect;
pub mod rollbacks;
pub mod entity_map;
pub mod registry;
pub mod utils;
pub mod saver;
pub mod scene;
pub mod snapshot_apply;
pub mod typed;
pub mod sorted_map;
