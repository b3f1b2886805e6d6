//! Reflection-based snapshots: format versions, migrations, checkpoints and
//! relationship type data.

pub mod applier;
pub mod backcompat;
pub mod checkpoint;
pub mod fields;
pub mod migration;
pub mod relationship;
pub mod serde;
pub mod snapshot;
