//! Core engine of a time-tracking application: validation of user-supplied
//! timestamps and tags, derivation of task groups, and safe batch mutations
//! over an entry store.

pub mod entry;
pub mod group;
pub mod store;
pub mod tags;
pub mod time;
pub mod transfer;
pub mod validate;
