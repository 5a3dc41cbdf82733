//! Verified core of a distributed process monitor: the Pulse transport's
//! sender and receiver state machines, the snapshot data model, and the
//! parsers for the `/proc` text formats the agent reads.

pub mod address;
pub mod process;
pub mod packet;
pub mod receiver;
pub mod sender;
pub mod protocol;
pub mod text;
pub mod procfs;
pub mod dashboard;
