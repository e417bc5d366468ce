//! The hosts of a simulation and their processes.

use vstd::prelude::*;
use vstd::string::*;

use crate::counter::texts;
use crate::ids::HostId;
use crate::net::Ipv4Addr;
use crate::sim_config::error::ConfigError;
use crate::sim_config::options::{
    ExperimentalOptions, GraphNode, HostOptions, LogLevel, ProcessArgs, ProcessFinalState,
    ProcessOptions, QDiscMode, TimeOption,
};
use crate::sim_config::seed::{hash_hostname, host_seed, hostname_hash};
use crate::text::{decimal, push_decimal, same_text};
use crate::time::SimulationTime;

verus! {

/// A process of a host.
#[derive(Debug)]
pub struct ProcessInfo {
    pub plugin: String,
    pub start_time: SimulationTime,
    pub shutdown_time: Option<SimulationTime>,
    pub shutdown_signal: i32,
    pub args: Vec<String>,
    pub env: Vec<(String, String)>,
    pub expected_final_state: ProcessFinalState,
}

/// How much of each packet is recorded.
#[derive(Clone, Copy, Debug, PartialEq, Eq, Structural)]
pub struct PcapConfig {
    pub capture_size: u64,
}

/// Bandwidths in bytes per second.
#[derive(Clone, Copy, Debug, PartialEq, Eq, Structural)]
pub struct Bandwidth {
    pub up_bytes: u64,
    pub down_bytes: u64,
}

/// A host of the simulation.
#[derive(Debug)]
pub struct HostInfo {
    pub id: HostId,
    pub name: String,
    pub processes: Vec<ProcessInfo>,
    pub seed: u64,
    pub network_node_id: u32,
    pub pause_for_debugging: bool,
    pub cpu_threshold: Option<SimulationTime>,
    pub cpu_precision: Option<SimulationTime>,
    pub bandwidth_down_bits: Option<u64>,
    pub bandwidth_up_bits: Option<u64>,
    pub ip_addr: Option<Ipv4Addr>,
    pub log_level: Option<LogLevel>,
    pub pcap_config: Option<PcapConfig>,
    pub send_buf_size: u64,
    pub recv_buf_size: u64,
    pub autotune_send_buf: bool,
    pub autotune_recv_buf: bool,
    pub qdisc: QDiscMode,
}

/// The name under which a host is found.
#[derive(Debug)]
pub struct HostDnsInfo {
    pub id: HostId,
    pub name: String,
    pub ip_addr: Ipv4Addr,
}

/// What is said to the times of a process, if they do not fit each other and the simulation.
pub open spec fn process_time_fault(
    start: TimeOption,
    shutdown: Option<TimeOption>,
    stop: TimeOption,
) -> Option<Seq<char>> {
    if start.span.0 >= stop.span.0 {
        Some(
            "Process start time '"@ + start.text@
                + "' must be earlier than the simulation stop time '"@ + stop.text@ + "'"@,
        )
    } else {
        match shutdown {
            None => None,
            Some(end) => if start.span.0 >= end.span.0 {
                Some(
                    "Process start time '"@ + start.text@
                        + "' must be earlier than its shutdown_time time '"@ + end.text@ + "'"@,
                )
            } else if end.span.0 >= stop.span.0 {
                Some(
                    "Process shutdown_time '"@ + end.text@
                        + "' must be earlier than the simulation stop time '"@ + stop.text@ + "'"@,
                )
            } else {
                None
            },
        }
    }
}

/// A text that ends with a name in quotes; the opening quote is part of `front`.
pub(crate) fn quoted_name(front: &str, name: &str) -> (text: String)
    ensures
        text@ == front@ + name@ + "'"@,
{
    let mut text = String::new();
    text.append(front);
    text.append(name);
    text.append("'");
    assert(text@ =~= front@ + name@ + "'"@);
    text
}

fn quoted(front: &str, first: &str, middle: &str, second: &str) -> (text: String)
    ensures
        text@ == front@ + first@ + middle@ + second@ + "'"@,
{
    let mut text = String::new();
    text.append(front);
    text.append(first);
    text.append(middle);
    text.append(second);
    text.append("'");
    assert(text@ =~= front@ + first@ + middle@ + second@ + "'"@);
    text
}

/// Checks the times of a process.
pub fn check_process_times(start: &TimeOption, shutdown: &Option<TimeOption>, stop: &TimeOption) -> (
checked: Result<(), ConfigError>)
    ensures
        match (checked, process_time_fault(*start, *shutdown, *stop)) {
            (Ok(()), None) => true,
            (Err(e), Some(text)) => e@ == seq![text],
            _ => false,
        },
{
    if start.span.0 >= stop.span.0 {
        return Err(
            ConfigError::new(
                quoted(
                    "Process start time '",
                    start.text.as_str(),
                    "' must be earlier than the simulation stop time '",
                    stop.text.as_str(),
                ),
            ),
        );
    }
    if let Some(end) = shutdown {
        if start.span.0 >= end.span.0 {
            return Err(
                ConfigError::new(
                    quoted(
                        "Process start time '",
                        start.text.as_str(),
                        "' must be earlier than its shutdown_time time '",
                        end.text.as_str(),
                    ),
                ),
            );
        }
        if end.span.0 >= stop.span.0 {
            return Err(
                ConfigError::new(
                    quoted(
                        "Process shutdown_time '",
                        end.text.as_str(),
                        "' must be earlier than the simulation stop time '",
                        stop.text.as_str(),
                    ),
                ),
            );
        }
    }
    Ok(())
}

/// The texts of a list of pairs.
pub open spec fn pair_texts(pairs: Seq<(String, String)>) -> Seq<(Seq<char>, Seq<char>)> {
    Seq::new(pairs.len(), |i: int| (pairs[i].0@, pairs[i].1@))
}

fn copy_pair_texts(pairs: &Vec<(String, String)>) -> (copy: Vec<(String, String)>)
    ensures
        pair_texts(copy@) == pair_texts(pairs@),
        copy@.len() == pairs@.len(),
        forall|i: int|
            0 <= i < copy@.len() ==> (#[trigger] copy@[i]).0@ == pairs@[i].0@ && copy@[i].1@
                == pairs@[i].1@,
{
    let mut copy: Vec<(String, String)> = Vec::new();
    let mut i: usize = 0;
    while i < pairs.len()
        invariant
            i <= pairs@.len(),
            pair_texts(copy@) == pair_texts(pairs@).take(i as int),
        decreases pairs@.len() - i,
    {
        let ghost before = copy@;
        copy.push((pairs[i].0.as_str().to_owned(), pairs[i].1.as_str().to_owned()));
        assert(pair_texts(copy@) =~= pair_texts(before).push(pair_texts(pairs@)[i as int]));
        assert(pair_texts(pairs@).take(i + 1) =~= pair_texts(pairs@).take(i as int).push(
            pair_texts(pairs@)[i as int],
        ));
        i += 1;
    }
    assert(pair_texts(pairs@).take(i as int) =~= pair_texts(pairs@));
    proof {
        assert(pair_texts(copy@).len() == pair_texts(pairs@).len());
        assert forall|k: int| 0 <= k < copy@.len() implies (#[trigger] copy@[k]).0@ == pairs@[k].0@
            && copy@[k].1@ == pairs@[k].1@ by {
            assert(pair_texts(copy@)[k] == pair_texts(pairs@)[k]);
        }
    }
    copy
}

/// The arguments of a process, or what is said to a text that could not be split into words.
pub open spec fn argument_words(args: ProcessArgs) -> Result<Seq<String>, Seq<Seq<char>>> {
    match args {
        ProcessArgs::List(list) => Ok(list@),
        ProcessArgs::Str { text, words } => match words {
            Ok(list) => Ok(list@),
            Err(cause) => Err(seq!["Failed to parse arguments: "@ + text@, cause@]),
        },
    }
}

/// The arguments of a process.
pub fn process_arguments(args: ProcessArgs) -> (words: Result<Vec<String>, ConfigError>)
    ensures
        match (words, argument_words(args)) {
            (Ok(list), Ok(expected)) => list@ == expected,
            (Err(e), Err(expected)) => e@ == expected,
            _ => false,
        },
{
    match args {
        ProcessArgs::List(list) => Ok(list),
        ProcessArgs::Str { text, words } => match words {
            Ok(list) => Ok(list),
            Err(cause) => {
                let mut message = String::new();
                message.append("Failed to parse arguments: ");
                message.append(text.as_str());
                let ghost said = cause@;
                let error = ConfigError::new(cause).context(message);
                assert("Failed to parse arguments: "@ + text@ =~= message@);
                assert(error@ =~= seq!["Failed to parse arguments: "@ + text@, said]);
                Err(error)
            },
        },
    }
}

/// The process for a configured one.
///
/// `expanded_path` is the configured path with the home directory filled in, and `plugin` is the
/// file that the path stands for, if it was found. The expanded path becomes the first argument.
pub fn build_process(
    options: &ProcessOptions,
    stop_time: &TimeOption,
    args: ProcessArgs,
    expanded_path: String,
    plugin: Result<String, ConfigError>,
) -> (process: Result<ProcessInfo, ConfigError>)
    ensures
        match process_time_fault(options.start_time, options.shutdown_time, *stop_time) {
            Some(text) => process matches Err(e) && e@ == seq![text],
            None => match (argument_words(args), plugin) {
                (Err(failure), _) => process matches Err(e) && e@ == failure,
                (Ok(_), Err(failure)) => process matches Err(e) && e == failure,
                (Ok(words), Ok(file)) => process matches Ok(p) && {
                    &&& p.plugin == file
                    &&& p.start_time == options.start_time.span
                    &&& p.shutdown_time == (match options.shutdown_time {
                        Some(end) => Some(end.span),
                        None => None,
                    })
                    &&& p.shutdown_signal == options.shutdown_signal
                    &&& p.args@ == seq![expanded_path] + words
                    &&& pair_texts(p.env@) == pair_texts(options.environment@)
                    &&& p.expected_final_state == options.expected_final_state
                },
            },
        },
        process matches Ok(p) ==> p.env@.len() == options.environment@.len() && forall|i: int|
            0 <= i < p.env@.len() ==> (#[trigger] p.env@[i]).0@ == options.environment@[i].0@
                && p.env@[i].1@ == options.environment@[i].1@,
{
    match check_process_times(&options.start_time, &options.shutdown_time, stop_time) {
        Ok(()) => {},
        Err(e) => {
            return Err(e);
        },
    }
    let mut list = match process_arguments(args) {
        Ok(list) => list,
        Err(e) => {
            return Err(e);
        },
    };
    let file = match plugin {
        Ok(file) => file,
        Err(e) => {
            return Err(e);
        },
    };
    let ghost configured = list@;
    let ghost first = expanded_path;
    list.insert(0, expanded_path);
    assert(list@ =~= seq![first] + configured);
    Ok(
        ProcessInfo {
            plugin: file,
            start_time: options.start_time.span,
            shutdown_time: match &options.shutdown_time {
                Some(end) => Some(end.span),
                None => None,
            },
            shutdown_signal: options.shutdown_signal,
            args: list,
            env: copy_pair_texts(&options.environment),
            expected_final_state: options.expected_final_state,
        },
    )
}

/// A configured process by its path, with what building it gave.
#[derive(Debug)]
pub struct BuiltProcess {
    pub path: String,
    pub process: Result<ProcessInfo, ConfigError>,
}

/// Whether a process is the first that could not be built.
pub open spec fn process_fails_first(built: Seq<BuiltProcess>, i: int) -> bool {
    &&& 0 <= i < built.len()
    &&& built[i].process is Err
    &&& forall|j: int| 0 <= j < i ==> (#[trigger] built[j]).process is Ok
}

/// The processes of a host, or the failure of the first that could not be built.
pub fn collect_processes(built: Vec<BuiltProcess>) -> (processes: Result<
    Vec<ProcessInfo>,
    ConfigError,
>)
    ensures
        match processes {
            Ok(list) => {
                &&& list@.len() == built@.len()
                &&& forall|i: int|
                    0 <= i < built@.len() ==> (#[trigger] built@[i]).process == Ok::<
                        ProcessInfo,
                        ConfigError,
                    >(list@[i])
            },
            Err(e) => exists|i: int| #[trigger]
                process_fails_first(built@, i) && e@ == seq![
                    "Failed to configure process '"@ + built@[i].path@ + "'"@,
                ] + built@[i].process->Err_0@,
        },
{
    let ghost whole = built@;
    let mut processes: Vec<ProcessInfo> = Vec::new();
    let ghost mut done: int = 0;
    for next in it: built
        invariant
            it.seq() == whole,
            it.index() == done,
            processes@.len() == done,
            forall|i: int|
                0 <= i < done ==> (#[trigger] whole[i]).process == Ok::<ProcessInfo, ConfigError>(
                    processes@[i],
                ),
    {
        assert(next == whole[done]);
        match next.process {
            Ok(process) => {
                processes.push(process);
            },
            Err(e) => {
                let text = quoted_name("Failed to configure process '", next.path.as_str());
                assert(process_fails_first(whole, done));
                return Err(e.context(text));
            },
        }
        proof {
            done = done + 1;
        }
    }
    Ok(processes)
}

/// Whether a text is among the names.
pub fn is_listed(names: &[String], name: &str) -> (listed: bool)
    ensures
        listed == texts(names@).contains(name@),
{
    let mut i: usize = 0;
    while i < names.len()
        invariant
            i <= names@.len(),
            forall|j: int| 0 <= j < i ==> #[trigger] texts(names@)[j] != name@,
        decreases names@.len() - i,
    {
        if same_text(names[i].as_str(), name) {
            assert(texts(names@)[i as int] == name@);
            return true;
        }
        i += 1;
    }
    false
}

/// Whether a host is the one that a configured host stands for.
pub open spec fn is_built_from(
    host: HostInfo,
    id: u32,
    name: Seq<char>,
    options: HostOptions,
    experimental: ExperimentalOptions,
    randomness: u64,
    hosts_to_debug: Seq<Seq<char>>,
    processes: Seq<ProcessInfo>,
) -> bool {
    &&& host.id == HostId(id)
    &&& host.name@ == name
    &&& host.processes@ == processes
    &&& host.seed == host_seed(randomness, hostname_hash(name))
    &&& host.network_node_id == options.network_node_id
    &&& host.pause_for_debugging == hosts_to_debug.contains(name)
    &&& host.cpu_threshold is None
    &&& host.cpu_precision == Some(SimulationTime(200))
    &&& host.bandwidth_down_bits == options.bandwidth_down
    &&& host.bandwidth_up_bits == options.bandwidth_up
    &&& host.ip_addr == options.ip_addr
    &&& host.log_level == options.log_level
    &&& host.pcap_config == (if options.pcap_enabled {
        Some(PcapConfig { capture_size: options.pcap_capture_size })
    } else {
        None
    })
    &&& host.send_buf_size == experimental.socket_send_buffer
    &&& host.recv_buf_size == experimental.socket_recv_buffer
    &&& host.autotune_send_buf == experimental.socket_send_autotune
    &&& host.autotune_recv_buf == experimental.socket_recv_autotune
    &&& host.qdisc == experimental.interface_qdisc
}

/// The host for a configured one.
pub fn build_host(
    id: HostId,
    name: String,
    options: &HostOptions,
    experimental: &ExperimentalOptions,
    randomness: u64,
    hosts_to_debug: &[String],
    processes: Vec<ProcessInfo>,
) -> (host: HostInfo)
    ensures
        is_built_from(
            host,
            id.0,
            name@,
            *options,
            *experimental,
            randomness,
            texts(hosts_to_debug@),
            processes@,
        ),
        host.id == id,
        host.name == name,
        host.processes == processes,
        host.network_node_id == options.network_node_id,
        host.bandwidth_down_bits == options.bandwidth_down,
        host.bandwidth_up_bits == options.bandwidth_up,
        host.ip_addr == options.ip_addr,
        host.send_buf_size == experimental.socket_send_buffer,
        host.recv_buf_size == experimental.socket_recv_buffer,
        host.autotune_send_buf == experimental.socket_send_autotune,
        host.autotune_recv_buf == experimental.socket_recv_autotune,
{
    let name_hash: u64 = hash_hostname(name.as_str());
    let pause_for_debugging = is_listed(hosts_to_debug, name.as_str());
    HostInfo {
        id,
        name,
        processes,
        seed: randomness ^ name_hash,
        network_node_id: options.network_node_id,
        pause_for_debugging,
        cpu_threshold: None,
        cpu_precision: Some(SimulationTime::from_nanos(200)),
        bandwidth_down_bits: options.bandwidth_down,
        bandwidth_up_bits: options.bandwidth_up,
        ip_addr: options.ip_addr,
        log_level: options.log_level,
        pcap_config: if options.pcap_enabled {
            Some(PcapConfig { capture_size: options.pcap_capture_size })
        } else {
            None
        },
        send_buf_size: experimental.socket_send_buffer,
        recv_buf_size: experimental.socket_recv_buffer,
        autotune_send_buf: experimental.socket_send_autotune,
        autotune_recv_buf: experimental.socket_recv_autotune,
        qdisc: experimental.interface_qdisc,
    }
}

/// A configured host with the processes that were built for it, or the failure to build them.
#[derive(Debug)]
pub struct ConfiguredHost {
    pub name: String,
    pub options: HostOptions,
    pub processes: Result<Vec<ProcessInfo>, ConfigError>,
}

/// What is said to the failure to build the processes of a host.
pub open spec fn host_failure_text(name: Seq<char>) -> Seq<char> {
    "Failed to configure host '"@ + name + "'"@
}

/// Whether a host is the first whose processes could not be built.
pub open spec fn fails_first(configured: Seq<ConfiguredHost>, i: int) -> bool {
    &&& 0 <= i < configured.len()
    &&& configured[i].processes is Err
    &&& forall|j: int| 0 <= j < i ==> (#[trigger] configured[j]).processes is Ok
}

/// Whether a host is the one that a configured host stands for, whose processes were built.
pub open spec fn is_built(
    host: HostInfo,
    id: u32,
    configured: ConfiguredHost,
    experimental: ExperimentalOptions,
    randomness: u64,
    hosts_to_debug: Seq<Seq<char>>,
) -> bool {
    match configured.processes {
        Ok(processes) => is_built_from(
            host,
            id,
            configured.name@,
            configured.options,
            experimental,
            randomness,
            hosts_to_debug,
            processes@,
        ),
        Err(_) => false,
    }
}

/// Whether hosts are those that configured hosts stand for, numbered in their order.
pub open spec fn all_built_from(
    hosts: Seq<HostInfo>,
    configured: Seq<ConfiguredHost>,
    experimental: ExperimentalOptions,
    randomness: u64,
    hosts_to_debug: Seq<Seq<char>>,
) -> bool {
    &&& hosts.len() == configured.len()
    &&& forall|i: int|
        0 <= i < hosts.len() ==> is_built(
            hosts[i],
            i as u32,
            #[trigger] configured[i],
            experimental,
            randomness,
            hosts_to_debug,
        )
}

/// Every shard numbers, names and seeds the hosts in the same way and puts them on the same nodes,
/// whatever its own options are.
pub proof fn law_hosts_are_the_same_on_every_shard(
    here: Seq<HostInfo>,
    there: Seq<HostInfo>,
    configured: Seq<ConfiguredHost>,
    options_here: ExperimentalOptions,
    options_there: ExperimentalOptions,
    randomness: u64,
    debugged_here: Seq<Seq<char>>,
    debugged_there: Seq<Seq<char>>,
    i: int,
)
    requires
        all_built_from(here, configured, options_here, randomness, debugged_here),
        all_built_from(there, configured, options_there, randomness, debugged_there),
        0 <= i < configured.len() <= 0x1_0000_0000,
    ensures
        here.len() == there.len() == configured.len(),
        here[i].id.0 == i,
        there[i].id.0 == i,
        here[i].name@ == configured[i].name@,
        there[i].name@ == configured[i].name@,
        here[i].seed == there[i].seed,
        here[i].network_node_id == there[i].network_node_id,
        here[i].ip_addr == there[i].ip_addr,
        here[i].bandwidth_down_bits == there[i].bandwidth_down_bits,
        here[i].bandwidth_up_bits == there[i].bandwidth_up_bits,
{
    let host = configured[i];
    assert(is_built(here[i], i as u32, host, options_here, randomness, debugged_here));
    assert(is_built(there[i], i as u32, host, options_there, randomness, debugged_there));
}

/// Whether hosts, or a failure, are what configured hosts come to.
pub open spec fn are_built(
    hosts: Result<Vec<HostInfo>, ConfigError>,
    configured: Seq<ConfiguredHost>,
    experimental: ExperimentalOptions,
    randomness: u64,
    hosts_to_debug: Seq<Seq<char>>,
) -> bool {
    match hosts {
        Ok(list) => configured.len() > 0 && all_built_from(
            list@,
            configured,
            experimental,
            randomness,
            hosts_to_debug,
        ),
        Err(e) => {
            ||| configured.len() == 0 && e@ == seq!["The configuration did not contain any hosts"@]
            ||| exists|i: int| #[trigger]
                fails_first(configured, i) && e@ == seq![host_failure_text(configured[i].name@)]
                    + configured[i].processes->Err_0@
        },
    }
}

/// The hosts for a list of configured ones. Hosts are numbered in the order of the list, which is
/// the order of their names.
pub fn build_hosts(
    configured: Vec<ConfiguredHost>,
    experimental: &ExperimentalOptions,
    randomness: u64,
    hosts_to_debug: &[String],
) -> (hosts: Result<Vec<HostInfo>, ConfigError>)
    requires
        configured@.len() <= 0x1_0000_0000,
    ensures
        are_built(hosts, configured@, *experimental, randomness, texts(hosts_to_debug@)),
        hosts matches Ok(list) ==> list@.len() == configured@.len() && forall|i: int|
            0 <= i < list@.len() ==> {
                &&& (#[trigger] list@[i]).id.0 == i
                &&& list@[i].name@ == configured@[i].name@
                &&& list@[i].network_node_id == configured@[i].options.network_node_id
                &&& list@[i].bandwidth_down_bits == configured@[i].options.bandwidth_down
                &&& list@[i].bandwidth_up_bits == configured@[i].options.bandwidth_up
                &&& list@[i].ip_addr == configured@[i].options.ip_addr
                &&& list@[i].send_buf_size == experimental.socket_send_buffer
                &&& list@[i].recv_buf_size == experimental.socket_recv_buffer
                &&& list@[i].autotune_send_buf == experimental.socket_send_autotune
                &&& list@[i].autotune_recv_buf == experimental.socket_recv_autotune
                &&& list@[i].qdisc == experimental.interface_qdisc
            },
{
    let ghost whole = configured@;
    let mut hosts: Vec<HostInfo> = Vec::new();
    let mut next: u64 = 0;
    for host in it: configured
        invariant
            it.seq() == whole,
            it.index() == next,
            hosts@.len() == next,
            whole.len() <= 0x1_0000_0000,
            forall|j: int| 0 <= j < next ==> (#[trigger] whole[j]).processes is Ok,
            forall|j: int|
                0 <= j < next ==> is_built(
                    hosts@[j],
                    j as u32,
                    #[trigger] whole[j],
                    *experimental,
                    randomness,
                    texts(hosts_to_debug@),
                ),
    {
        assert(host == whole[next as int]);
        match host.processes {
            Ok(processes) => {
                let ghost before = hosts@;
                hosts.push(
                    build_host(
                        HostId(next as u32),
                        host.name,
                        &host.options,
                        experimental,
                        randomness,
                        hosts_to_debug,
                        processes,
                    ),
                );
                assert(forall|j: int| 0 <= j < next ==> hosts@[j] == before[j]);
            },
            Err(e) => {
                let text = quoted_name("Failed to configure host '", host.name.as_str());
                assert(fails_first(whole, next as int));
                return Err(e.context(text));
            },
        }
        next += 1;
    }
    if hosts.len() == 0 {
        return Err(
            ConfigError::new("The configuration did not contain any hosts".to_owned()),
        );
    }
    proof {
        assert(all_built_from(
            hosts@,
            whole,
            *experimental,
            randomness,
            texts(hosts_to_debug@),
        ));
        assert forall|i: int| 0 <= i < hosts@.len() implies {
            &&& (#[trigger] hosts@[i]).id.0 == i
            &&& hosts@[i].name@ == whole[i].name@
            &&& hosts@[i].network_node_id == whole[i].options.network_node_id
            &&& hosts@[i].bandwidth_down_bits == whole[i].options.bandwidth_down
            &&& hosts@[i].bandwidth_up_bits == whole[i].options.bandwidth_up
            &&& hosts@[i].ip_addr == whole[i].options.ip_addr
            &&& hosts@[i].send_buf_size == experimental.socket_send_buffer
            &&& hosts@[i].recv_buf_size == experimental.socket_recv_buffer
            &&& hosts@[i].autotune_send_buf == experimental.socket_send_autotune
            &&& hosts@[i].autotune_recv_buf == experimental.socket_recv_autotune
            &&& hosts@[i].qdisc == experimental.interface_qdisc
        } by {
            law_built_hosts_follow_their_options(
                hosts@,
                whole,
                *experimental,
                randomness,
                texts(hosts_to_debug@),
                i,
            );
        }
    }
    Ok(hosts)
}

/// The first node with a number.
pub open spec fn node_with_id(nodes: Seq<GraphNode>, id: u32) -> Option<GraphNode>
    decreases nodes.len(),
{
    if nodes.len() == 0 {
        None
    } else if nodes[0].id == id {
        Some(nodes[0])
    } else {
        node_with_id(nodes.skip(1), id)
    }
}

fn find_node(nodes: &[GraphNode], id: u32) -> (node: Option<GraphNode>)
    ensures
        node == node_with_id(nodes@, id),
{
    let mut i: usize = 0;
    assert(nodes@.skip(0) =~= nodes@);
    while i < nodes.len()
        invariant
            i <= nodes@.len(),
            node_with_id(nodes@, id) == node_with_id(nodes@.skip(i as int), id),
        decreases nodes@.len() - i,
    {
        if nodes[i].id == id {
            return Some(nodes[i]);
        }
        assert(nodes@.skip(i as int).skip(1) =~= nodes@.skip(i + 1));
        i += 1;
    }
    None
}

/// What is said to a host whose node is not in the network graph.
pub open spec fn missing_node_text(host: HostInfo) -> Seq<char> {
    "The network node id "@ + decimal(host.network_node_id as nat) + " for host '"@ + host.name@
        + "' does not exist"@
}

/// Whether a host is the first whose node is not in the network graph.
pub open spec fn lacks_node_first(hosts: Seq<HostInfo>, nodes: Seq<GraphNode>, i: int) -> bool {
    &&& 0 <= i < hosts.len()
    &&& node_with_id(nodes, hosts[i].network_node_id) is None
    &&& forall|j: int|
        0 <= j < i ==> node_with_id(nodes, (#[trigger] hosts[j]).network_node_id) is Some
}

/// Whether a check, or a failure, is what the nodes of the hosts come to.
pub open spec fn nodes_are_checked(
    checked: Result<(), ConfigError>,
    hosts: Seq<HostInfo>,
    nodes: Seq<GraphNode>,
) -> bool {
    match checked {
        Ok(()) => forall|i: int|
            0 <= i < hosts.len() ==> node_with_id(
                nodes,
                (#[trigger] hosts[i]).network_node_id,
            ) is Some,
        Err(e) => exists|i: int| #[trigger]
            lacks_node_first(hosts, nodes, i) && e@ == seq![missing_node_text(hosts[i])],
    }
}

/// Checks that the node of each host is in the network graph.
pub fn check_nodes(hosts: &Vec<HostInfo>, nodes: &[GraphNode]) -> (checked: Result<(), ConfigError>)
    ensures
        nodes_are_checked(checked, hosts@, nodes@),
{
    let mut i: usize = 0;
    while i < hosts.len()
        invariant
            i <= hosts@.len(),
            forall|j: int|
                0 <= j < i ==> node_with_id(
                    nodes@,
                    (#[trigger] hosts@[j]).network_node_id,
                ) is Some,
        decreases hosts@.len() - i,
    {
        if find_node(nodes, hosts[i].network_node_id).is_none() {
            let mut text = String::new();
            text.append("The network node id ");
            push_decimal(&mut text, hosts[i].network_node_id as u64);
            text.append(" for host '");
            text.append(hosts[i].name.as_str());
            text.append("' does not exist");
            assert(text@ =~= missing_node_text(hosts@[i as int]));
            assert(lacks_node_first(hosts@, nodes@, i as int));
            return Err(ConfigError::new(text));
        }
        i += 1;
    }
    Ok(())
}

/// One option, or another where it is absent.
pub open spec fn either(first: Option<u64>, second: Option<u64>) -> Option<u64> {
    match first {
        Some(v) => Some(v),
        None => second,
    }
}

/// A host with the bandwidths of its node where it has none of its own.
pub open spec fn with_bandwidths(host: HostInfo, node: GraphNode) -> HostInfo {
    HostInfo {
        bandwidth_down_bits: either(host.bandwidth_down_bits, node.bandwidth_down),
        bandwidth_up_bits: either(host.bandwidth_up_bits, node.bandwidth_up),
        ..host
    }
}

/// What is said to a host for which a bandwidth is given nowhere, if one is not.
pub open spec fn bandwidth_fault(host: HostInfo, node: GraphNode) -> Option<Seq<char>> {
    let filled = with_bandwidths(host, node);
    if filled.bandwidth_down_bits is None {
        Some("No downstream bandwidth provided for host '"@ + host.name@ + "'"@)
    } else if filled.bandwidth_up_bits is None {
        Some("No upstream bandwidth provided for host '"@ + host.name@ + "'"@)
    } else {
        None
    }
}

/// The node of a host.
pub open spec fn node_of(host: HostInfo, nodes: Seq<GraphNode>) -> GraphNode {
    node_with_id(nodes, host.network_node_id)->0
}

/// Whether a host is the first for which a bandwidth is given nowhere.
pub open spec fn lacks_bandwidth_first(
    hosts: Seq<HostInfo>,
    nodes: Seq<GraphNode>,
    i: int,
) -> bool {
    &&& 0 <= i < hosts.len()
    &&& bandwidth_fault(hosts[i], node_of(hosts[i], nodes)) is Some
    &&& forall|j: int|
        0 <= j < i ==> bandwidth_fault(#[trigger] hosts[j], node_of(hosts[j], nodes)) is None
}

/// Whether hosts, or a failure, are what the bandwidths of hosts and nodes come to.
pub open spec fn bandwidths_are_assigned(
    filled: Result<Vec<HostInfo>, ConfigError>,
    hosts: Seq<HostInfo>,
    nodes: Seq<GraphNode>,
) -> bool {
    match filled {
        Ok(list) => {
            &&& list@.len() == hosts.len()
            &&& forall|i: int|
                0 <= i < list@.len() ==> #[trigger] list@[i] == with_bandwidths(
                    hosts[i],
                    node_of(hosts[i], nodes),
                ) && bandwidth_fault(hosts[i], node_of(hosts[i], nodes)) is None
        },
        Err(e) => exists|i: int| #[trigger]
            lacks_bandwidth_first(hosts, nodes, i) && e@ == seq![
                bandwidth_fault(hosts[i], node_of(hosts[i], nodes))->0,
            ],
    }
}

/// Gives each host the bandwidths of its node where it has none of its own.
pub fn assign_bandwidths(hosts: Vec<HostInfo>, nodes: &[GraphNode]) -> (filled: Result<
    Vec<HostInfo>,
    ConfigError,
>)
    requires
        forall|i: int|
            0 <= i < hosts@.len() ==> node_with_id(
                nodes@,
                (#[trigger] hosts@[i]).network_node_id,
            ) is Some,
    ensures
        bandwidths_are_assigned(filled, hosts@, nodes@),
{
    let ghost whole = hosts@;
    let mut filled: Vec<HostInfo> = Vec::new();
    let ghost mut done: int = 0;
    for host in it: hosts
        invariant
            it.seq() == whole,
            it.index() == done,
            filled@.len() == done,
            forall|i: int|
                0 <= i < whole.len() ==> node_with_id(
                    nodes@,
                    (#[trigger] whole[i]).network_node_id,
                ) is Some,
            forall|i: int|
                0 <= i < done ==> #[trigger] filled@[i] == with_bandwidths(
                    whole[i],
                    node_of(whole[i], nodes@),
                ),
            forall|i: int|
                0 <= i < done ==> bandwidth_fault(
                    #[trigger] whole[i],
                    node_of(whole[i], nodes@),
                ) is None,
    {
        assert(host == whole[done]);
        let node = find_node(nodes, host.network_node_id).unwrap();
        let mut host = host;
        if host.bandwidth_down_bits.is_none() {
            host.bandwidth_down_bits = node.bandwidth_down;
        }
        if host.bandwidth_up_bits.is_none() {
            host.bandwidth_up_bits = node.bandwidth_up;
        }
        if host.bandwidth_down_bits.is_none() {
            assert(lacks_bandwidth_first(whole, nodes@, done));
            return Err(
                ConfigError::new(
                    quoted_name(
                        "No downstream bandwidth provided for host '",
                        host.name.as_str(),
                    ),
                ),
            );
        }
        if host.bandwidth_up_bits.is_none() {
            assert(lacks_bandwidth_first(whole, nodes@, done));
            return Err(
                ConfigError::new(
                    quoted_name(
                        "No upstream bandwidth provided for host '",
                        host.name.as_str(),
                    ),
                ),
            );
        }
        filled.push(host);
        proof {
            done = done + 1;
        }
    }
    Ok(filled)
}

/// The names of hosts.
pub open spec fn host_names(hosts: Seq<HostInfo>) -> Seq<Seq<char>> {
    Seq::new(hosts.len(), |i: int| hosts[i].name@)
}

/// The last place of a name in a list.
pub open spec fn last_place(names: Seq<Seq<char>>, name: Seq<char>) -> Option<int>
    decreases names.len(),
{
    if names.len() == 0 {
        None
    } else if names.last() == name {
        Some(names.len() - 1)
    } else {
        last_place(names.drop_last(), name)
    }
}

/// A listed name has a place, and the name stands there.
pub proof fn lemma_last_place(names: Seq<Seq<char>>, name: Seq<char>)
    ensures
        match last_place(names, name) {
            Some(i) => 0 <= i < names.len() && names[i] == name,
            None => !names.contains(name),
        },
    decreases names.len(),
{
    if names.len() > 0 {
        lemma_last_place(names.drop_last(), name);
        if last_place(names, name) is None && names.contains(name) {
            let k = choose|k: int| 0 <= k < names.len() && names[k] == name;
            assert(names.drop_last()[k] == name);
        }
    }
}

/// Where the last host with a name stands.
pub fn find_host(hosts: &[HostInfo], name: &str) -> (place: Option<usize>)
    ensures
        match (place, last_place(host_names(hosts@), name@)) {
            (Some(i), Some(k)) => i == k && i < hosts@.len(),
            (None, None) => true,
            _ => false,
        },
{
    let ghost names = host_names(hosts@);
    let mut i: usize = hosts.len();
    assert(names.take(i as int) =~= names);
    while i > 0
        invariant
            i <= hosts@.len(),
            names == host_names(hosts@),
            last_place(names, name@) == last_place(names.take(i as int), name@),
        decreases i,
    {
        assert(names.take(i as int).drop_last() =~= names.take(i - 1));
        assert(names.take(i as int).last() == hosts@[i - 1].name@);
        i -= 1;
        if same_text(hosts[i].name.as_str(), name) {
            return Some(i);
        }
    }
    None
}

/// Whether a name to debug is the first that no host has.
pub open spec fn is_first_unknown(names: Seq<Seq<char>>, known: Seq<Seq<char>>, i: int) -> bool {
    &&& 0 <= i < names.len()
    &&& !known.contains(names[i])
    &&& forall|j: int| 0 <= j < i ==> known.contains(#[trigger] names[j])
}

/// Whether a check, or a failure, is what the names of the hosts to debug come to.
pub open spec fn debug_hosts_are_checked(
    checked: Result<(), ConfigError>,
    known: Seq<Seq<char>>,
    hosts_to_debug: Seq<Seq<char>>,
) -> bool {
    match checked {
        Ok(()) => forall|i: int|
            0 <= i < hosts_to_debug.len() ==> known.contains(#[trigger] hosts_to_debug[i]),
        Err(e) => exists|i: int| #[trigger]
            is_first_unknown(hosts_to_debug, known, i) && e@ == seq![
                "The host to debug '"@ + hosts_to_debug[i] + "' doesn't exist"@,
            ],
    }
}

/// Checks that each host that is to be debugged exists.
pub fn check_debug_hosts(hosts: &[HostInfo], hosts_to_debug: &[String]) -> (checked: Result<
    (),
    ConfigError,
>)
    ensures
        debug_hosts_are_checked(checked, host_names(hosts@), texts(hosts_to_debug@)),
{
    let mut i: usize = 0;
    while i < hosts_to_debug.len()
        invariant
            i <= hosts_to_debug@.len(),
            forall|j: int|
                0 <= j < i ==> host_names(hosts@).contains(#[trigger] texts(hosts_to_debug@)[j]),
        decreases hosts_to_debug@.len() - i,
    {
        let name = hosts_to_debug[i].as_str();
        proof {
            assert(texts(hosts_to_debug@)[i as int] == name@);
            lemma_last_place(host_names(hosts@), name@);
        }
        if find_host(hosts, name).is_none() {
            let mut text = String::new();
            text.append("The host to debug '");
            text.append(name);
            text.append("' doesn't exist");
            proof {
                assert(text@ =~= "The host to debug '"@ + name@ + "' doesn't exist"@);
                assert(is_first_unknown(texts(hosts_to_debug@), host_names(hosts@), i as int));
            }
            return Err(ConfigError::new(text));
        }
        i += 1;
    }
    Ok(())
}

/// The times of a process fit if and only if it starts before the simulation stops and, where it is
/// shut down, starts before that and is shut down before the simulation stops.
pub proof fn law_process_times_fit(start: TimeOption, shutdown: Option<TimeOption>, stop: TimeOption)
    ensures
        process_time_fault(start, shutdown, stop) is None <==> {
            &&& start.span.0 < stop.span.0
            &&& shutdown matches Some(end) ==> start.span.0 < end.span.0 && end.span.0
                < stop.span.0
        },
{
}

/// Listed arguments are taken as they are, and those of a text are the words that it was split
/// into; a text that could not be split gives no arguments.
pub proof fn law_arguments_are_the_configured_words(args: ProcessArgs)
    ensures
        args matches ProcessArgs::List(list) ==> (argument_words(args) matches Ok(words) && words
            == list@),
        args matches ProcessArgs::Str { words: Ok(list), .. } ==> (argument_words(args) matches Ok(
            words,
        ) && words == list@),
        args matches ProcessArgs::Str { words: Err(cause), .. } ==> (argument_words(
            args,
        ) matches Err(failure) && failure.last() == cause@),
{
}

/// Every built host has the number of its place, the name, the node and the address that are
/// configured for it, the processes that were built for it, and the settings that hold for all
/// hosts: it sends with the send buffer and receives with the receive buffer.
pub proof fn law_built_hosts_follow_their_options(
    hosts: Seq<HostInfo>,
    configured: Seq<ConfiguredHost>,
    experimental: ExperimentalOptions,
    randomness: u64,
    hosts_to_debug: Seq<Seq<char>>,
    i: int,
)
    requires
        all_built_from(hosts, configured, experimental, randomness, hosts_to_debug),
        0 <= i < configured.len() <= 0x1_0000_0000,
    ensures
        hosts.len() == configured.len(),
        hosts[i].id.0 == i,
        hosts[i].name@ == configured[i].name@,
        configured[i].processes matches Ok(list) && hosts[i].processes@ == list@,
        hosts[i].network_node_id == configured[i].options.network_node_id,
        hosts[i].ip_addr == configured[i].options.ip_addr,
        hosts[i].log_level == configured[i].options.log_level,
        hosts[i].bandwidth_down_bits == configured[i].options.bandwidth_down,
        hosts[i].bandwidth_up_bits == configured[i].options.bandwidth_up,
        hosts[i].seed == randomness ^ hostname_hash(configured[i].name@),
        hosts[i].send_buf_size == experimental.socket_send_buffer,
        hosts[i].recv_buf_size == experimental.socket_recv_buffer,
        hosts[i].autotune_send_buf == experimental.socket_send_autotune,
        hosts[i].autotune_recv_buf == experimental.socket_recv_autotune,
        hosts[i].qdisc == experimental.interface_qdisc,
        hosts[i].cpu_threshold is None,
        hosts[i].cpu_precision matches Some(span) && span.0 == 200,
        hosts[i].pause_for_debugging <==> exists|k: int|
            0 <= k < hosts_to_debug.len() && #[trigger] hosts_to_debug[k] == configured[i].name@,
        configured[i].options.pcap_enabled <==> hosts[i].pcap_config is Some,
        hosts[i].pcap_config matches Some(pcap) ==> pcap.capture_size
            == configured[i].options.pcap_capture_size,
{
    let host = configured[i];
    assert(is_built(hosts[i], i as u32, host, experimental, randomness, hosts_to_debug));
    if hosts_to_debug.contains(host.name@) {
        let k = choose|k: int| 0 <= k < hosts_to_debug.len() && hosts_to_debug[k] == host.name@;
        assert(hosts_to_debug[k] == host.name@);
    }
}

/// A node that is found is in the graph and has the number that it was looked for by, and no node
/// in front of it has that number; where none is found, no node has it.
pub proof fn law_node_is_found_by_its_number(nodes: Seq<GraphNode>, id: u32)
    ensures
        match node_with_id(nodes, id) {
            Some(node) => node.id == id && exists|k: int|
                0 <= k < nodes.len() && #[trigger] nodes[k] == node && forall|j: int|
                    0 <= j < k ==> (#[trigger] nodes[j]).id != id,
            None => forall|k: int| 0 <= k < nodes.len() ==> (#[trigger] nodes[k]).id != id,
        },
    decreases nodes.len(),
{
    if nodes.len() > 0 {
        if nodes[0].id == id {
            assert(nodes[0] == node_with_id(nodes, id)->0);
        } else {
            let rest = nodes.skip(1);
            law_node_is_found_by_its_number(rest, id);
            match node_with_id(nodes, id) {
                Some(node) => {
                    let k = choose|k: int|
                        0 <= k < rest.len() && #[trigger] rest[k] == node && forall|j: int|
                            0 <= j < k ==> (#[trigger] rest[j]).id != id;
                    assert(nodes[k + 1] == node);
                    assert forall|j: int| 0 <= j < k + 1 implies (#[trigger] nodes[j]).id != id by {
                        if j > 0 {
                            assert(rest[j - 1] == nodes[j]);
                        }
                    }
                },
                None => {
                    assert forall|k: int| 0 <= k < nodes.len() implies (#[trigger] nodes[k]).id
                        != id by {
                        if k > 0 {
                            assert(rest[k - 1] == nodes[k]);
                        }
                    }
                },
            }
        }
    }
}

/// A host keeps the bandwidths of its own and takes those of its node where it has none, each in its
/// own direction; nothing else of the host changes.
pub proof fn law_bandwidths_come_from_host_or_node(host: HostInfo, node: GraphNode)
    ensures
        ({
            let filled = with_bandwidths(host, node);
            &&& host.bandwidth_down_bits is Some ==> filled.bandwidth_down_bits
                == host.bandwidth_down_bits
            &&& host.bandwidth_down_bits is None ==> filled.bandwidth_down_bits
                == node.bandwidth_down
            &&& host.bandwidth_up_bits is Some ==> filled.bandwidth_up_bits
                == host.bandwidth_up_bits
            &&& host.bandwidth_up_bits is None ==> filled.bandwidth_up_bits == node.bandwidth_up
            &&& filled == (HostInfo {
                bandwidth_down_bits: filled.bandwidth_down_bits,
                bandwidth_up_bits: filled.bandwidth_up_bits,
                ..host
            })
        }),
        bandwidth_fault(host, node) is None <==> (host.bandwidth_down_bits is Some
            || node.bandwidth_down is Some) && (host.bandwidth_up_bits is Some
            || node.bandwidth_up is Some),
{
}

/// A name is found at the last place at which it stands.
pub proof fn law_last_place_is_the_last(names: Seq<Seq<char>>, name: Seq<char>)
    ensures
        last_place(names, name) matches Some(i) ==> 0 <= i < names.len() && names[i] == name
            && forall|j: int| i < j < names.len() ==> #[trigger] names[j] != name,
        last_place(names, name) is None <==> forall|j: int|
            0 <= j < names.len() ==> #[trigger] names[j] != name,
    decreases names.len(),
{
    if names.len() > 0 {
        let shorter = names.drop_last();
        law_last_place_is_the_last(shorter, name);
        assert forall|j: int| 0 <= j < shorter.len() implies #[trigger] names[j] == shorter[j] by {}
        assert(names[names.len() - 1] == names.last());
        if last_place(names, name) is None {
            assert forall|j: int| 0 <= j < names.len() implies #[trigger] names[j] != name by {
                if j < shorter.len() {
                    assert(shorter[j] != name);
                }
            }
        } else if names.last() != name {
            let i = last_place(names, name)->0;
            assert forall|j: int| i < j < names.len() implies #[trigger] names[j] != name by {
                if j < shorter.len() {
                    assert(shorter[j] != name);
                }
            }
            assert(names[i] == name);
        }
    }
}

/// Hosts are built exactly where there are some and the processes of all were built.
pub proof fn law_hosts_are_built_with_their_processes(
    hosts: Result<Vec<HostInfo>, ConfigError>,
    configured: Seq<ConfiguredHost>,
    experimental: ExperimentalOptions,
    randomness: u64,
    hosts_to_debug: Seq<Seq<char>>,
)
    requires
        are_built(hosts, configured, experimental, randomness, hosts_to_debug),
    ensures
        hosts is Ok <==> configured.len() > 0 && (forall|i: int|
            0 <= i < configured.len() ==> (#[trigger] configured[i]).processes is Ok),
{
    if let Ok(list) = hosts {
        assert forall|i: int| 0 <= i < configured.len() implies (
        #[trigger] configured[i]).processes is Ok by {
            assert(is_built(
                list@[i],
                i as u32,
                configured[i],
                experimental,
                randomness,
                hosts_to_debug,
            ));
        }
    }
}

/// The nodes of hosts are accepted exactly where the number of each is that of a node of the graph.
pub proof fn law_hosts_are_on_nodes_of_the_graph(
    checked: Result<(), ConfigError>,
    hosts: Seq<HostInfo>,
    nodes: Seq<GraphNode>,
)
    requires
        nodes_are_checked(checked, hosts, nodes),
    ensures
        checked is Ok <==> (forall|i: int|
            0 <= i < hosts.len() ==> exists|k: int|
                0 <= k < nodes.len() && (#[trigger] nodes[k]).id == (
                #[trigger] hosts[i]).network_node_id),
{
    assert forall|i: int| 0 <= i < hosts.len() implies (node_with_id(
        nodes,
        (#[trigger] hosts[i]).network_node_id,
    ) is Some <==> exists|k: int|
        0 <= k < nodes.len() && (#[trigger] nodes[k]).id == hosts[i].network_node_id) by {
        law_node_is_found_by_its_number(nodes, hosts[i].network_node_id);
    }
    if checked is Err {
        let i = choose|i: int| #[trigger] lacks_node_first(hosts, nodes, i);
        assert(!exists|k: int|
            0 <= k < nodes.len() && (#[trigger] nodes[k]).id == hosts[i].network_node_id);
    }
}

/// The hosts to debug are accepted exactly where each is the name of a host.
pub proof fn law_hosts_to_debug_exist(
    checked: Result<(), ConfigError>,
    known: Seq<Seq<char>>,
    hosts_to_debug: Seq<Seq<char>>,
)
    requires
        debug_hosts_are_checked(checked, known, hosts_to_debug),
    ensures
        checked is Ok <==> (forall|i: int|
            0 <= i < hosts_to_debug.len() ==> known.contains(#[trigger] hosts_to_debug[i])),
{
    if checked is Err {
        let i = choose|i: int| #[trigger] is_first_unknown(hosts_to_debug, known, i);
        assert(!known.contains(hosts_to_debug[i]));
    }
}

/// Hosts on nodes of the graph get their bandwidths exactly where each direction is given for the
/// host or for its node.
pub proof fn law_bandwidths_are_given_somewhere(
    filled: Result<Vec<HostInfo>, ConfigError>,
    hosts: Seq<HostInfo>,
    nodes: Seq<GraphNode>,
)
    requires
        bandwidths_are_assigned(filled, hosts, nodes),
    ensures
        filled is Ok <==> (forall|i: int|
            #![trigger hosts[i]]
            0 <= i < hosts.len() ==> (hosts[i].bandwidth_down_bits is Some || node_with_id(
                nodes,
                hosts[i].network_node_id,
            )->0.bandwidth_down is Some) && (hosts[i].bandwidth_up_bits is Some || node_with_id(
                nodes,
                hosts[i].network_node_id,
            )->0.bandwidth_up is Some)),
{
    match filled {
        Ok(list) => {
            assert forall|i: int|
                #![trigger hosts[i]]
                0 <= i < hosts.len() implies (hosts[i].bandwidth_down_bits is Some || node_with_id(
                nodes,
                hosts[i].network_node_id,
            )->0.bandwidth_down is Some) && (hosts[i].bandwidth_up_bits is Some || node_with_id(
                nodes,
                hosts[i].network_node_id,
            )->0.bandwidth_up is Some) by {
                assert(list@[i] == with_bandwidths(hosts[i], node_of(hosts[i], nodes)));
            }
        },
        Err(_) => {
            let i = choose|i: int| #[trigger] lacks_bandwidth_first(hosts, nodes, i);
            assert(bandwidth_fault(hosts[i], node_of(hosts[i], nodes)) is Some);
        },
    }
}

/// The names of hosts, and the texts of pairs, stand in the order of the list.
pub proof fn law_names_stand_in_the_order_of_hosts(
    hosts: Seq<HostInfo>,
    i: int,
    pairs: Seq<(String, String)>,
    k: int,
)
    requires
        0 <= i < hosts.len(),
        0 <= k < pairs.len(),
    ensures
        host_names(hosts).len() == hosts.len(),
        host_names(hosts)[i] == hosts[i].name@,
        pair_texts(pairs).len() == pairs.len(),
        pair_texts(pairs)[k].0 == pairs[k].0@,
        pair_texts(pairs)[k].1 == pairs[k].1@,
{
}

/// What is said to a process whose times do not fit: its start against the end of the simulation
/// first, then against its shutdown, then the shutdown against the end of the simulation.
pub proof fn law_what_is_said_of_times(
    start: TimeOption,
    shutdown: Option<TimeOption>,
    stop: TimeOption,
)
    ensures
        start.span.0 >= stop.span.0 ==> process_time_fault(start, shutdown, stop) == Some(
            "Process start time '"@ + start.text@
                + "' must be earlier than the simulation stop time '"@ + stop.text@ + "'"@,
        ),
        start.span.0 < stop.span.0 && shutdown is Some && start.span.0 >= shutdown->0.span.0
            ==> process_time_fault(start, shutdown, stop) == Some(
            "Process start time '"@ + start.text@
                + "' must be earlier than its shutdown_time time '"@ + shutdown->0.text@ + "'"@,
        ),
        start.span.0 < stop.span.0 && shutdown is Some && start.span.0 < shutdown->0.span.0
            && shutdown->0.span.0 >= stop.span.0 ==> process_time_fault(start, shutdown, stop)
            == Some(
            "Process shutdown_time '"@ + shutdown->0.text@
                + "' must be earlier than the simulation stop time '"@ + stop.text@ + "'"@,
        ),
{
}

/// What is said to hosts whose processes, node or bandwidths are missing.
pub proof fn law_what_is_said_of_hosts(host: HostInfo, node: GraphNode)
    ensures
        host_failure_text(host.name@) == "Failed to configure host '"@ + host.name@ + "'"@,
        missing_node_text(host) == "The network node id "@ + decimal(host.network_node_id as nat)
            + " for host '"@ + host.name@ + "' does not exist"@,
        host.bandwidth_down_bits is None && node.bandwidth_down is None ==> bandwidth_fault(
            host,
            node,
        ) == Some("No downstream bandwidth provided for host '"@ + host.name@ + "'"@),
        (host.bandwidth_down_bits is Some || node.bandwidth_down is Some)
            && host.bandwidth_up_bits is None && node.bandwidth_up is None ==> bandwidth_fault(
            host,
            node,
        ) == Some("No upstream bandwidth provided for host '"@ + host.name@ + "'"@),
{
}

} // verus!
