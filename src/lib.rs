//! Keyed, namespaced operator state over pluggable byte stores, with a tiered cache in front
//! of a local engine and a remote store.
pub mod codec;
pub mod error;
pub mod store;
pub mod lru_map;
pub mod tiered;
pub mod state;
pub mod policy;
pub mod lfu_map;
pub mod merge;
pub mod remote;
