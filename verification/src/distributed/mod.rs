//! Remote packets of a split run in their strict wire format, the exchange of batches of them, and
//! the control protocol that keeps the shards in step.

pub mod batch;
pub mod control;
pub mod error;
pub mod event;
pub mod exchange;
pub mod packet;
pub mod partition;
pub mod wire;
