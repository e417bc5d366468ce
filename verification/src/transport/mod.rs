//! Transport-neutral types and formats for shards that run on one or several machines: the
//! partition of hosts, packets, batches of packet events, and the exchange and synchronization
//! backends that carry them.

pub mod error;
pub mod event;
pub mod exchange;
pub mod mpi_backend;
pub mod packet;
pub mod partition;
pub mod synchronizer;
