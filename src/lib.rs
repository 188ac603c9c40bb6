//! Per-session conversational memory: the line codec of messages, the
//! registry that admits at most one compaction per session, and the
//! decisions of the memory service over a newest-first list store.

pub mod codec;
pub mod registry;
pub mod store;
pub mod memory;
