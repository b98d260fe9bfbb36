//! Staleness tracking for pinned software components.
//!
//! The crate models dotted numeric version strings, the ledger of versions
//! already observed for each component, and the decision rule that flags a
//! component as outdated the run in which a newer version first appears.

pub mod component;
pub mod email;
pub mod outdated;
pub mod store;
pub mod tags;
pub mod version;
