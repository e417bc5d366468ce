//! The verified core of a distributed network simulator: how hosts are split over shards, how
//! shards exchange packets and agree on execution windows, and how a run is configured.

pub mod assoc;
pub mod bytes;
pub mod children;
pub mod config_file;
pub mod controller;
pub mod counter;
pub mod distributed;
pub mod ids;
pub mod launch;
pub mod net;
pub mod packet;
pub mod retry;
pub mod sim_config;
pub mod sim_stats;
pub mod sorting;
pub mod startup;
pub mod status;
pub mod system;
pub mod text;
pub mod time;
pub mod transport;
