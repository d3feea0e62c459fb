//! Verified core of a small publish/subscribe broker: the coordinator's
//! topic-to-broker registry, the broker's event log layout, the producer's
//! ring buffer and retry policy, and the text the services reply with.

pub mod brokermap;
pub mod coordinator;
pub mod eventlog;
pub mod producer;
pub mod timestamp;
