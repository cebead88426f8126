//! Outbound federation sender: a durable, per-destination transaction
//! dispatcher. The store, the network and the clock stay with the caller;
//! this crate decides what is kept, what is sent and when.

pub mod key;
pub mod backoff;
pub mod txn;
pub mod lane;
pub mod scheduler;
pub mod laws;
pub mod store;
