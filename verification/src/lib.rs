//! A verified "stash" store: named, numbered byte entries with
//! push/pop/get/list/delete semantics, plus the identifier scheme that
//! maps a user-facing or on-disk name to an `(name, index)` pair.

pub mod id;
pub mod store;
