//! A verified core for a small task-tracking tool.
//!
//! Tasks are kept in insertion order in a `Vec<Task>`. The store operations
//! (add, mark done, edit, delete) are verified against contracts over the
//! mathematical view of the collection, and the persistence format (a
//! pretty-printed JSON array of task records) is written and read by verified
//! functions with a proved round trip.

pub mod decode;
pub mod digits;
pub mod encode;
pub mod format;
pub mod roundtrip;
pub mod store;
pub mod task;
pub mod text;
