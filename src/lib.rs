//! Inventory of reclaimable disk space: allowlist filtering, scan assembly,
//! container-image listing, deletion planning and the interactive session
//! state machine.

pub mod text;
pub mod allowlist;
pub mod model;
pub mod docker;
pub mod scan;
pub mod scanners;
pub mod cleaner;
pub mod session;
