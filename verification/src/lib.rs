//! Verified core of a study-card tool: a card-markup parser, a hierarchical
//! tag/card store with incremental reconciliation, sync planning against a
//! remote content fingerprint, and a virtual file resolver that feeds a
//! document compiler.

pub mod bytes;
pub mod cards;
pub mod errors;
pub mod fuzzy;
pub mod parse;
pub mod resolver;
pub mod scheduler;
pub mod source;
pub mod storage;
pub mod store;
pub mod studies;
pub mod sync;
pub mod tracking;
