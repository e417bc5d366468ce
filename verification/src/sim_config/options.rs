//! Configuration options as plain values.

use vstd::prelude::*;

use crate::net::Ipv4Addr;
use crate::time::SimulationTime;

verus! {

/// A span of simulated time with the text that it was configured with.
#[derive(Clone, Debug)]
pub struct TimeOption {
    pub span: SimulationTime,
    pub text: String,
}

/// The verbosity of the log.
#[derive(Clone, Copy, Debug, PartialEq, Eq, Structural)]
pub enum LogLevel {
    Error,
    Warn,
    Info,
    Debug,
    Trace,
}

/// How a network interface picks the next packet.
#[derive(Clone, Copy, Debug, PartialEq, Eq, Structural)]
pub enum QDiscMode {
    Fifo,
    RoundRobin,
}

/// The state in which a process is expected to be at the end.
#[derive(Clone, Copy, Debug, PartialEq, Eq, Structural)]
pub enum ProcessFinalState {
    Exited(i32),
    Signaled(i32),
    Running,
}

/// The configured arguments of a process: a list, or a text with what splitting it into words gave.
#[derive(Debug)]
pub enum ProcessArgs {
    List(Vec<String>),
    Str { text: String, words: Result<Vec<String>, String> },
}

/// A configured process.
#[derive(Clone, Debug)]
pub struct ProcessOptions {
    pub path: String,
    pub start_time: TimeOption,
    pub shutdown_time: Option<TimeOption>,
    pub shutdown_signal: i32,
    pub environment: Vec<(String, String)>,
    pub expected_final_state: ProcessFinalState,
}

/// A configured host. Bandwidths are in bits per second.
#[derive(Clone, Debug)]
pub struct HostOptions {
    pub network_node_id: u32,
    pub bandwidth_down: Option<u64>,
    pub bandwidth_up: Option<u64>,
    pub ip_addr: Option<Ipv4Addr>,
    pub log_level: Option<LogLevel>,
    pub pcap_enabled: bool,
    pub pcap_capture_size: u64,
}

/// Options that hold for all hosts.
#[derive(Clone, Copy, Debug, PartialEq, Eq, Structural)]
pub struct ExperimentalOptions {
    pub socket_send_buffer: u64,
    pub socket_recv_buffer: u64,
    pub socket_send_autotune: bool,
    pub socket_recv_autotune: bool,
    pub interface_qdisc: QDiscMode,
    pub use_new_tcp: bool,
    pub distributed_shard_id: u32,
    pub distributed_shard_count: u32,
}

/// A node of the network graph. Bandwidths are in bits per second.
#[derive(Clone, Copy, Debug, PartialEq, Eq, Structural)]
pub struct GraphNode {
    pub id: u32,
    pub bandwidth_down: Option<u64>,
    pub bandwidth_up: Option<u64>,
}

} // verus!
