//! An in-memory registry of people and the departments they belong to.
//!
//! The registry keeps a roster of all known employees together with two
//! mirrored indices (department to members, employee to departments), all of
//! them sorted, and guarantees their mutual consistency under insertion and
//! cascading removal.  A small command parser turns free-text lines into the
//! structured commands that drive the registry.

pub mod order;
pub mod parser;
pub mod registry;
