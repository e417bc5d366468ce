//! From configuration options to the hosts, addresses and shards of a simulation.

pub mod error;
pub mod hosts;
pub mod ips;
pub mod options;
pub mod partition;
pub mod paths;
pub mod routing;
pub mod seed;

use std::collections::HashMap;

use rand_xoshiro::Xoshiro256PlusPlus;
use vstd::prelude::*;
use vstd::std_specs::hash::group_hash_axioms;
use vstd::string::*;

use crate::counter::texts;
use crate::distributed::partition::PartitionMap;
use crate::net::Ipv4Addr;
use crate::sim_config::error::ConfigError;
use crate::sim_config::hosts::{
    Bandwidth, ConfiguredHost, HostDnsInfo, HostInfo, are_built, assign_bandwidths,
    bandwidths_are_assigned, build_hosts, check_debug_hosts, check_nodes, debug_hosts_are_checked,
    host_names, law_bandwidths_come_from_host_or_node, law_built_hosts_follow_their_options,
    law_node_is_found_by_its_number, node_of, node_with_id, nodes_are_checked, with_bandwidths,
};
use crate::sim_config::ips::{
    IpAssignment, USABLE_ADDRESSES, assign_ips, configured_ips, filled_ips, has_its_address,
    ips_are_assigned, law_addresses_are_all_that_changes, law_hosts_have_distinct_addresses,
};
use crate::sim_config::options::{ExperimentalOptions, GraphNode};
use crate::sim_config::partition::{
    PartitionFile, build_partition, is_partition_of, law_hosts_are_dealt_out_without_a_file,
};
use crate::sim_config::routing::{
    RoutingInfo, generate_routing_info, is_routed, paths_are_in_graph,
};
use crate::sim_config::seed::{
    first_random_u64, hostname_hash, seed_generator, seeded_generator,
};

verus! {

/// The network graph, or why there is none.
#[derive(Debug)]
pub enum LoadedGraph {
    Nodes(Vec<GraphNode>),
    NotLoaded(String),
    NotParsed(String),
}

/// The hosts of a simulation with their addresses, before paths between them are known.
pub struct PreparedConfig {
    pub random: Xoshiro256PlusPlus,
    pub ip_assignment: IpAssignment,
    pub graph: Vec<GraphNode>,
    pub hosts: Vec<HostInfo>,
}

/// Whether no two hosts have the same address.
pub open spec fn addresses_differ(hosts: Seq<HostInfo>) -> bool {
    forall|i: int, j: int|
        0 <= i < j < hosts.len() ==> (#[trigger] hosts[i]).ip_addr != (#[trigger] hosts[j]).ip_addr
}

impl PreparedConfig {
    /// No two hosts share a name or an address, and every host has both bandwidths and an address
    /// that belongs to its node.
    pub open spec fn wf(&self) -> bool {
        &&& self.ip_assignment.wf()
        &&& host_names(self.hosts@).no_duplicates()
        &&& addresses_differ(self.hosts@)
        &&& forall|i: int|
            0 <= i < self.hosts@.len() ==> {
                &&& has_its_address(#[trigger] self.hosts@[i], self.ip_assignment@)
                &&& self.hosts@[i].bandwidth_down_bits is Some
                &&& self.hosts@[i].bandwidth_up_bits is Some
            }
    }
}

/// The names of configured hosts.
pub open spec fn configured_names(configured: Seq<ConfiguredHost>) -> Seq<Seq<char>> {
    Seq::new(configured.len(), |i: int| configured[i].name@)
}

/// Whether a prepared configuration, or a failure, is what hosts with a network graph come to: each
/// step of the preparation fails, or hands its hosts to the next.
pub open spec fn is_prepared(
    prepared: Result<PreparedConfig, ConfigError>,
    seed: u32,
    configured: Seq<ConfiguredHost>,
    experimental: ExperimentalOptions,
    hosts_to_debug: Seq<Seq<char>>,
    graph: LoadedGraph,
) -> bool {
    exists|built: Result<Vec<HostInfo>, ConfigError>| #[trigger]
        are_built(
            built,
            configured,
            experimental,
            first_random_u64(seed as u64),
            hosts_to_debug,
        ) && match built {
            Err(failure) => prepared matches Err(e) && e@ == failure@,
            Ok(hosts) => match graph {
                LoadedGraph::NotLoaded(cause) => prepared matches Err(e) && e@ == seq![
                    "Failed to load the network graph"@,
                    cause@,
                ],
                LoadedGraph::NotParsed(cause) => prepared matches Err(e) && e@ == seq![
                    "Failed to parse the network graph"@,
                    cause@,
                ],
                LoadedGraph::Nodes(nodes) => is_placed(prepared, hosts@, hosts_to_debug, nodes),
            },
        }
}

/// Whether a prepared configuration, or a failure, is what hosts in a network graph come to.
pub open spec fn is_placed(
    prepared: Result<PreparedConfig, ConfigError>,
    hosts: Seq<HostInfo>,
    hosts_to_debug: Seq<Seq<char>>,
    nodes: Vec<GraphNode>,
) -> bool {
    exists|checked: Result<(), ConfigError>| #[trigger]
        nodes_are_checked(checked, hosts, nodes@) && match checked {
            Err(failure) => prepared matches Err(e) && e@ == failure@,
            Ok(()) => exists|filled: Result<Vec<HostInfo>, ConfigError>| #[trigger]
                bandwidths_are_assigned(filled, hosts, nodes@) && match filled {
                    Err(failure) => prepared matches Err(e) && e@ == failure@,
                    Ok(list) => is_addressed(prepared, list@, hosts_to_debug, nodes),
                },
        }
}

/// Whether a prepared configuration, or a failure, is what hosts with bandwidths come to.
pub open spec fn is_addressed(
    prepared: Result<PreparedConfig, ConfigError>,
    hosts: Seq<HostInfo>,
    hosts_to_debug: Seq<Seq<char>>,
    nodes: Vec<GraphNode>,
) -> bool {
    exists|checked: Result<(), ConfigError>| #[trigger]
        debug_hosts_are_checked(checked, host_names(hosts), hosts_to_debug) && match checked {
            Err(failure) => prepared matches Err(e) && e@ == failure@,
            Ok(()) => exists|assigned: Result<(IpAssignment, Vec<HostInfo>), ConfigError>| #[trigger]
                ips_are_assigned(assigned, hosts) && match assigned {
                    Err(failure) => prepared matches Err(e) && e@ == failure@,
                    Ok((ip_assignment, list)) => prepared matches Ok(p) && p.ip_assignment
                        == ip_assignment && p.hosts == list && p.graph == nodes,
                },
        }
}

/// The hosts of a simulation with their addresses.
pub fn prepare(
    seed: u32,
    configured: Vec<ConfiguredHost>,
    experimental: &ExperimentalOptions,
    hosts_to_debug: &[String],
    graph: LoadedGraph,
) -> (prepared: Result<PreparedConfig, ConfigError>)
    requires
        configured@.len() <= USABLE_ADDRESSES,
        configured_names(configured@).no_duplicates(),
    ensures
        is_prepared(
            prepared,
            seed,
            configured@,
            *experimental,
            texts(hosts_to_debug@),
            graph,
        ),
        prepared matches Ok(p) ==> p.wf() && host_names(p.hosts@) == configured_names(configured@),
        prepared matches Ok(p) ==> p.random == seeded_generator(seed as u64),
        prepared matches Ok(p) ==> forall|i: int|
            0 <= i < p.hosts@.len() ==> {
                &&& (#[trigger] p.hosts@[i]).id.0 == i
                &&& p.hosts@[i].network_node_id == configured@[i].options.network_node_id
                &&& p.hosts@[i].send_buf_size == experimental.socket_send_buffer
                &&& p.hosts@[i].recv_buf_size == experimental.socket_recv_buffer
                &&& p.hosts@[i].autotune_send_buf == experimental.socket_send_autotune
                &&& p.hosts@[i].autotune_recv_buf == experimental.socket_recv_autotune
            },
{
    let ghost names = configured_names(configured@);
    let ghost configured_model = configured@;
    let ghost debugged = texts(hosts_to_debug@);
    let ghost given_graph = graph;
    let (random, randomness) = seed_generator(seed as u64);
    let built = build_hosts(configured, experimental, randomness, hosts_to_debug);
    let ghost built_model = built;
    assert(are_built(
        built_model,
        configured_model,
        *experimental,
        first_random_u64(seed as u64),
        debugged,
    ));
    let hosts = match built {
        Ok(hosts) => hosts,
        Err(e) => {
            return Err(e);
        },
    };
    let ghost first_hosts = hosts@;
    proof {
        assert forall|i: int| 0 <= i < hosts@.len() implies #[trigger] host_names(hosts@)[i]
            == names[i] by {
            let _ = configured_model[i];
        }
        assert(host_names(hosts@) =~= names);
    }
    let nodes = match graph {
        LoadedGraph::Nodes(nodes) => nodes,
        LoadedGraph::NotLoaded(cause) => {
            let ghost said = cause@;
            let error = ConfigError::new(cause).context(
                "Failed to load the network graph".to_owned(),
            );
            assert(error@ =~= seq!["Failed to load the network graph"@, said]);
            return Err(error);
        },
        LoadedGraph::NotParsed(cause) => {
            let ghost said = cause@;
            let error = ConfigError::new(cause).context(
                "Failed to parse the network graph".to_owned(),
            );
            assert(error@ =~= seq!["Failed to parse the network graph"@, said]);
            return Err(error);
        },
    };
    let placed = place_hosts(random, hosts, hosts_to_debug, nodes);
    proof {
        assert(is_placed(placed, first_hosts, debugged, nodes));
        if let Ok(p) = &placed {
            assert forall|i: int| 0 <= i < p.hosts@.len() implies {
                &&& (#[trigger] p.hosts@[i]).id.0 == i
                &&& p.hosts@[i].network_node_id == configured_model[i].options.network_node_id
                &&& p.hosts@[i].send_buf_size == experimental.socket_send_buffer
                &&& p.hosts@[i].recv_buf_size == experimental.socket_recv_buffer
                &&& p.hosts@[i].autotune_send_buf == experimental.socket_send_autotune
                &&& p.hosts@[i].autotune_recv_buf == experimental.socket_recv_autotune
            } by {
                assert(host_names(p.hosts@).len() == names.len());
                law_prepared_hosts_follow_their_options(
                    *p,
                    seed,
                    configured_model,
                    *experimental,
                    debugged,
                    given_graph,
                    i,
                );
            }
        }
    }
    placed
}

/// The hosts of a simulation with their bandwidths and addresses.
fn place_hosts(
    random: Xoshiro256PlusPlus,
    hosts: Vec<HostInfo>,
    hosts_to_debug: &[String],
    nodes: Vec<GraphNode>,
) -> (prepared: Result<PreparedConfig, ConfigError>)
    requires
        hosts@.len() <= USABLE_ADDRESSES,
        host_names(hosts@).no_duplicates(),
    ensures
        is_placed(prepared, hosts@, texts(hosts_to_debug@), nodes),
        prepared matches Ok(p) ==> p.wf() && host_names(p.hosts@) == host_names(hosts@),
        prepared matches Ok(p) ==> p.random == random,
{
    let ghost whole = hosts@;
    let ghost debugged = texts(hosts_to_debug@);
    let checked = check_nodes(&hosts, nodes.as_slice());
    let ghost checked_model = checked;
    assert(nodes_are_checked(checked_model, whole, nodes@));
    if let Err(e) = checked {
        return Err(e);
    }
    let filled = assign_bandwidths(hosts, nodes.as_slice());
    let ghost filled_model = filled;
    assert(bandwidths_are_assigned(filled_model, whole, nodes@));
    let list = match filled {
        Ok(list) => list,
        Err(e) => {
            return Err(e);
        },
    };
    let ghost listed = list@;
    assert(host_names(listed) =~= host_names(whole));
    let known = check_debug_hosts(list.as_slice(), hosts_to_debug);
    let ghost known_model = known;
    assert(debug_hosts_are_checked(known_model, host_names(listed), debugged));
    if let Err(e) = known {
        let failed = Err(e);
        assert(is_addressed(failed, listed, debugged, nodes));
        return failed;
    }
    let assigned = assign_ips(list);
    let ghost assigned_model = assigned;
    assert(ips_are_assigned(assigned_model, listed));
    match assigned {
        Ok((ip_assignment, placed)) => {
            proof {
                law_hosts_have_distinct_addresses(listed, ip_assignment@, placed@);
                assert(host_names(placed@) =~= host_names(whole));
            }
            let prepared = PreparedConfig { random, ip_assignment, graph: nodes, hosts: placed };
            assert(is_addressed(Ok(prepared), listed, debugged, nodes));
            Ok(prepared)
        },
        Err(e) => {
            let failed = Err(e);
            assert(is_addressed(failed, listed, debugged, nodes));
            failed
        },
    }
}

/// The bandwidths of a host in bytes per second.
pub open spec fn host_bandwidth(host: HostInfo) -> Bandwidth {
    Bandwidth {
        up_bytes: host.bandwidth_up_bits->0 / 8,
        down_bytes: host.bandwidth_down_bits->0 / 8,
    }
}

/// The number of a host's address.
pub open spec fn address_of(host: HostInfo) -> u32 {
    match host.ip_addr {
        Some(ip) => ip.0,
        None => 0,
    }
}

/// The bandwidths of the first `n` hosts by their addresses.
pub open spec fn bandwidths_by_address(hosts: Seq<HostInfo>, n: int) -> Map<u32, Bandwidth>
    decreases n,
{
    if n <= 0 {
        Map::empty()
    } else {
        bandwidths_by_address(hosts, n - 1).insert(
            address_of(hosts[n - 1]),
            host_bandwidth(hosts[n - 1]),
        )
    }
}

proof fn lemma_bandwidth_kept(hosts: Seq<HostInfo>, i: int, n: int)
    requires
        0 <= i < n <= hosts.len(),
        addresses_differ(hosts),
        forall|k: int| 0 <= k < hosts.len() ==> (#[trigger] hosts[k]).ip_addr is Some,
    ensures
        bandwidths_by_address(hosts, n).contains_key(address_of(hosts[i])),
        bandwidths_by_address(hosts, n)[address_of(hosts[i])] == host_bandwidth(hosts[i]),
    decreases n,
{
    if i < n - 1 {
        lemma_bandwidth_kept(hosts, i, n - 1);
        assert(hosts[i].ip_addr != hosts[n - 1].ip_addr);
    }
}

/// Where no two hosts have the same address, the bandwidths found at a host's address are the
/// host's own.
pub proof fn law_bandwidth_of_each_host_is_found(hosts: Seq<HostInfo>, i: int)
    requires
        0 <= i < hosts.len(),
        addresses_differ(hosts),
        forall|k: int| 0 <= k < hosts.len() ==> (#[trigger] hosts[k]).ip_addr is Some,
    ensures
        bandwidths_by_address(hosts, hosts.len() as int).contains_key(address_of(hosts[i])),
        bandwidths_by_address(hosts, hosts.len() as int)[address_of(hosts[i])] == host_bandwidth(
            hosts[i],
        ),
{
    lemma_bandwidth_kept(hosts, i, hosts.len() as int);
}

/// The simulation configuration after the configuration options and the network graph were
/// processed.
pub struct SimConfig<P> {
    /// The deterministic source of randomness for the simulation.
    pub random: Xoshiro256PlusPlus,
    /// The nodes of addresses.
    pub ip_assignment: IpAssignment,
    /// The paths between nodes.
    pub routing_info: RoutingInfo<P>,
    /// The bandwidths of hosts by the numbers of their addresses.
    pub host_bandwidths: HashMap<u32, Bandwidth>,
    /// The shards of hosts.
    pub partition_map: PartitionMap,
    /// The names of all hosts, also of those on other shards.
    pub dns_hosts: Vec<HostDnsInfo>,
    /// The hosts and their processes.
    pub hosts: Vec<HostInfo>,
}

/// Whether a record is that of a host.
pub open spec fn names_host(record: HostDnsInfo, host: HostInfo) -> bool {
    record.id == host.id && record.name@ == host.name@ && Some(record.ip_addr) == host.ip_addr
}

/// Whether records are those of hosts, in their order.
pub open spec fn names_hosts(records: Seq<HostDnsInfo>, hosts: Seq<HostInfo>) -> bool {
    &&& records.len() == hosts.len()
    &&& forall|i: int| 0 <= i < records.len() ==> names_host(#[trigger] records[i], hosts[i])
}

/// Whether a configuration, or a failure, is what prepared hosts with paths between them and with
/// shard settings come to.
pub open spec fn is_configured<P>(
    config: Result<SimConfig<P>, ConfigError>,
    prepared: PreparedConfig,
    paths: Result<Vec<((usize, usize), P)>, String>,
    use_shortest_paths: bool,
    experimental: ExperimentalOptions,
    partition_file: Option<PartitionFile>,
) -> bool {
    exists|routing: Result<RoutingInfo<P>, ConfigError>| #[trigger]
        is_routed(routing, prepared.graph@, paths, use_shortest_paths) && match routing {
            Err(failure) => config matches Err(e) && e@ == failure@,
            Ok(routing_info) => exists|map: Result<PartitionMap, ConfigError>| #[trigger]
                is_partition_of(map, experimental, partition_file, prepared.hosts@) && match map {
                    Err(failure) => config matches Err(e) && e@ == failure@,
                    Ok(partition_map) => config matches Ok(c) && {
                        &&& c.random == prepared.random
                        &&& c.ip_assignment == prepared.ip_assignment
                        &&& c.routing_info == routing_info
                        &&& c.host_bandwidths@ == bandwidths_by_address(
                            prepared.hosts@,
                            prepared.hosts@.len() as int,
                        )
                        &&& c.partition_map@ == partition_map@
                        &&& names_hosts(c.dns_hosts@, prepared.hosts@)
                        &&& c.hosts == prepared.hosts
                    },
                },
        }
}

fn collect_bandwidths(hosts: &[HostInfo]) -> (bandwidths: HashMap<u32, Bandwidth>)
    requires
        forall|i: int|
            0 <= i < hosts@.len() ==> {
                &&& (#[trigger] hosts@[i]).ip_addr is Some
                &&& hosts@[i].bandwidth_down_bits is Some
                &&& hosts@[i].bandwidth_up_bits is Some
            },
    ensures
        bandwidths@ == bandwidths_by_address(hosts@, hosts@.len() as int),
{
    broadcast use group_hash_axioms;

    let mut bandwidths: HashMap<u32, Bandwidth> = HashMap::new();
    let mut i: usize = 0;
    while i < hosts.len()
        invariant
            i <= hosts@.len(),
            forall|k: int|
                0 <= k < hosts@.len() ==> {
                    &&& (#[trigger] hosts@[k]).ip_addr is Some
                    &&& hosts@[k].bandwidth_down_bits is Some
                    &&& hosts@[k].bandwidth_up_bits is Some
                },
            bandwidths@ == bandwidths_by_address(hosts@, i as int),
        decreases hosts@.len() - i,
    {
        let host = &hosts[i];
        let bandwidth = Bandwidth {
            up_bytes: host.bandwidth_up_bits.unwrap() / 8,
            down_bytes: host.bandwidth_down_bits.unwrap() / 8,
        };
        bandwidths.insert(host.ip_addr.unwrap().0, bandwidth);
        i += 1;
    }
    bandwidths
}

fn collect_dns_hosts(hosts: &[HostInfo]) -> (records: Vec<HostDnsInfo>)
    requires
        forall|i: int| 0 <= i < hosts@.len() ==> (#[trigger] hosts@[i]).ip_addr is Some,
    ensures
        names_hosts(records@, hosts@),
{
    let mut records: Vec<HostDnsInfo> = Vec::new();
    let mut i: usize = 0;
    while i < hosts.len()
        invariant
            i <= hosts@.len(),
            forall|k: int| 0 <= k < hosts@.len() ==> (#[trigger] hosts@[k]).ip_addr is Some,
            records@.len() == i,
            forall|k: int| 0 <= k < i ==> names_host(#[trigger] records@[k], hosts@[k]),
        decreases hosts@.len() - i,
    {
        records.push(
            HostDnsInfo {
                id: hosts[i].id,
                name: hosts[i].name.as_str().to_owned(),
                ip_addr: hosts[i].ip_addr.unwrap(),
            },
        );
        i += 1;
    }
    records
}

impl<P> SimConfig<P> {
    /// The configuration of prepared hosts, with what the search for paths between their nodes
    /// gave and with the partition file, if one is configured.
    pub fn new(
        prepared: PreparedConfig,
        paths: Result<Vec<((usize, usize), P)>, String>,
        use_shortest_paths: bool,
        experimental: &ExperimentalOptions,
        partition_file: &Option<PartitionFile>,
    ) -> (config: Result<Self, ConfigError>)
        requires
            prepared.wf(),
            paths matches Ok(found) ==> paths_are_in_graph(prepared.graph@, found@),
        ensures
            is_configured(
                config,
                prepared,
                paths,
                use_shortest_paths,
                *experimental,
                *partition_file,
            ),
            config matches Ok(c) ==> c.hosts == prepared.hosts && forall|i: int|
                0 <= i < c.hosts@.len() ==> {
                    &&& (#[trigger] c.hosts@[i]).ip_addr matches Some(ip)
                    &&& c.hosts@[i].bandwidth_up_bits matches Some(up)
                    &&& c.hosts@[i].bandwidth_down_bits matches Some(down)
                    &&& c.host_bandwidths@.contains_key(ip.0)
                    &&& c.host_bandwidths@[ip.0].up_bytes == up / 8
                    &&& c.host_bandwidths@[ip.0].down_bytes == down / 8
                    &&& c.dns_hosts@[i].id == c.hosts@[i].id
                    &&& c.dns_hosts@[i].name@ == c.hosts@[i].name@
                    &&& c.dns_hosts@[i].ip_addr == ip
                },
    {
        let ghost given_paths = paths;
        let routing = generate_routing_info(prepared.graph.as_slice(), paths, use_shortest_paths);
        let ghost routing_model = routing;
        assert(is_routed(routing_model, prepared.graph@, given_paths, use_shortest_paths));
        let routing_info = match routing {
            Ok(routing_info) => routing_info,
            Err(e) => {
                return Err(e);
            },
        };
        let host_bandwidths = collect_bandwidths(prepared.hosts.as_slice());
        let map = build_partition(*experimental, partition_file, prepared.hosts.as_slice());
        let ghost map_model = map;
        assert(is_partition_of(map_model, *experimental, *partition_file, prepared.hosts@));
        let partition_map = match map {
            Ok(partition_map) => partition_map,
            Err(e) => {
                return Err(e);
            },
        };
        let dns_hosts = collect_dns_hosts(prepared.hosts.as_slice());
        let ghost given = prepared;
        let config = SimConfig {
            random: prepared.random,
            ip_assignment: prepared.ip_assignment,
            routing_info,
            host_bandwidths,
            partition_map,
            dns_hosts,
            hosts: prepared.hosts,
        };
        proof {
            assert(is_configured(
                Ok(config),
                given,
                given_paths,
                use_shortest_paths,
                *experimental,
                *partition_file,
            ));
            assert forall|i: int| 0 <= i < config.hosts@.len() implies {
                &&& (#[trigger] config.hosts@[i]).ip_addr matches Some(ip)
                &&& config.hosts@[i].bandwidth_up_bits matches Some(up)
                &&& config.hosts@[i].bandwidth_down_bits matches Some(down)
                &&& config.host_bandwidths@.contains_key(ip.0)
                &&& config.host_bandwidths@[ip.0].up_bytes == up / 8
                &&& config.host_bandwidths@[ip.0].down_bytes == down / 8
                &&& config.dns_hosts@[i].id == config.hosts@[i].id
                &&& config.dns_hosts@[i].name@ == config.hosts@[i].name@
                &&& config.dns_hosts@[i].ip_addr == ip
            } by {
                law_configured_hosts_are_known(
                    config,
                    given,
                    given_paths,
                    use_shortest_paths,
                    *experimental,
                    *partition_file,
                    i,
                );
            }
        }
        Ok(config)
    }
}

/// The bandwidths that are found at a host's address are its own, in bytes: upstream what it may send
/// in a second, downstream what it may receive.
pub proof fn law_bandwidths_are_in_bytes(hosts: Seq<HostInfo>, i: int)
    requires
        0 <= i < hosts.len(),
        addresses_differ(hosts),
        forall|k: int| 0 <= k < hosts.len() ==> (#[trigger] hosts[k]).ip_addr is Some,
    ensures
        hosts[i].ip_addr matches Some(ip) ==> hosts[i].bandwidth_up_bits matches Some(up)
            ==> hosts[i].bandwidth_down_bits matches Some(down) ==> {
            let found = bandwidths_by_address(hosts, hosts.len() as int);
            &&& found.contains_key(ip.0)
            &&& found[ip.0].up_bytes == up / 8
            &&& found[ip.0].down_bytes == down / 8
        },
{
    lemma_bandwidth_kept(hosts, i, hosts.len() as int);
}

/// Bandwidths are found at the addresses of hosts and nowhere else.
pub proof fn law_bandwidths_are_those_of_hosts(hosts: Seq<HostInfo>, address: u32, n: int)
    requires
        0 <= n <= hosts.len(),
        forall|k: int| 0 <= k < hosts.len() ==> (#[trigger] hosts[k]).ip_addr is Some,
    ensures
        bandwidths_by_address(hosts, n).contains_key(address) <==> exists|i: int|
            0 <= i < n && (#[trigger] hosts[i]).ip_addr == Some(Ipv4Addr(address)),
    decreases n,
{
    if n > 0 {
        law_bandwidths_are_those_of_hosts(hosts, address, n - 1);
        assert(hosts[n - 1].ip_addr is Some);
        if exists|i: int|
            0 <= i < n && (#[trigger] hosts[i]).ip_addr == Some(Ipv4Addr(address)) {
            let i = choose|i: int|
                0 <= i < n && (#[trigger] hosts[i]).ip_addr == Some(Ipv4Addr(address));
            if i < n - 1 {
                assert(hosts[i].ip_addr is Some);
            }
        }
    }
}

/// Every prepared host is the configured host in its place: it has that host's number, name, node,
/// processes and settings, its configured address and bandwidths where they are configured, and the
/// bandwidths of its node where they are not.
pub proof fn law_prepared_hosts_follow_their_options(
    prepared: PreparedConfig,
    seed: u32,
    configured: Seq<ConfiguredHost>,
    experimental: ExperimentalOptions,
    hosts_to_debug: Seq<Seq<char>>,
    graph: LoadedGraph,
    i: int,
)
    requires
        is_prepared(Ok(prepared), seed, configured, experimental, hosts_to_debug, graph),
        0 <= i < configured.len() <= USABLE_ADDRESSES,
    ensures
        prepared.hosts@.len() == configured.len(),
        ({
            let host = prepared.hosts@[i];
            let options = configured[i].options;
            &&& host.id.0 == i
            &&& host.name@ == configured[i].name@
            &&& configured[i].processes matches Ok(list) && host.processes@ == list@
            &&& host.network_node_id == options.network_node_id
            &&& host.log_level == options.log_level
            &&& host.seed == first_random_u64(seed as u64) ^ hostname_hash(configured[i].name@)
            &&& host.send_buf_size == experimental.socket_send_buffer
            &&& host.recv_buf_size == experimental.socket_recv_buffer
            &&& host.autotune_send_buf == experimental.socket_send_autotune
            &&& host.autotune_recv_buf == experimental.socket_recv_autotune
            &&& host.qdisc == experimental.interface_qdisc
            &&& host.pause_for_debugging <==> exists|k: int|
                0 <= k < hosts_to_debug.len() && #[trigger] hosts_to_debug[k]
                    == configured[i].name@
            &&& host.pcap_config is Some <==> options.pcap_enabled
            &&& host.pcap_config matches Some(pcap) ==> pcap.capture_size
                == options.pcap_capture_size
            &&& options.ip_addr is Some ==> host.ip_addr == options.ip_addr
            &&& options.bandwidth_up is Some ==> host.bandwidth_up_bits == options.bandwidth_up
            &&& options.bandwidth_down is Some ==> host.bandwidth_down_bits
                == options.bandwidth_down
        }),
        graph matches LoadedGraph::Nodes(nodes) && exists|k: int|
            0 <= k < nodes@.len() && (#[trigger] nodes@[k]).id
                == configured[i].options.network_node_id && (
            configured[i].options.bandwidth_up is None ==> prepared.hosts@[i].bandwidth_up_bits
                == nodes@[k].bandwidth_up) && (configured[i].options.bandwidth_down is None
                ==> prepared.hosts@[i].bandwidth_down_bits == nodes@[k].bandwidth_down),
{
    let built = choose|built: Result<Vec<HostInfo>, ConfigError>| #[trigger]
        are_built(
            built,
            configured,
            experimental,
            first_random_u64(seed as u64),
            hosts_to_debug,
        ) && match built {
            Err(failure) => false,
            Ok(hosts) => match graph {
                LoadedGraph::Nodes(nodes) => is_placed(Ok(prepared), hosts@, hosts_to_debug, nodes),
                _ => false,
            },
        };
    let hosts = built->Ok_0@;
    let nodes = graph->Nodes_0;
    law_built_hosts_follow_their_options(
        hosts,
        configured,
        experimental,
        first_random_u64(seed as u64),
        hosts_to_debug,
        i,
    );
    let checked = choose|checked: Result<(), ConfigError>| #[trigger]
        nodes_are_checked(checked, hosts, nodes@) && match checked {
            Err(failure) => false,
            Ok(()) => exists|filled: Result<Vec<HostInfo>, ConfigError>| #[trigger]
                bandwidths_are_assigned(filled, hosts, nodes@) && match filled {
                    Err(failure) => false,
                    Ok(list) => is_addressed(Ok(prepared), list@, hosts_to_debug, nodes),
                },
        };
    let filled = choose|filled: Result<Vec<HostInfo>, ConfigError>| #[trigger]
        bandwidths_are_assigned(filled, hosts, nodes@) && match filled {
            Err(failure) => false,
            Ok(list) => is_addressed(Ok(prepared), list@, hosts_to_debug, nodes),
        };
    let list = filled->Ok_0@;
    law_addresses_are_all_that_changes(list, configured_ips(list, list.len() as int), i);
    assert(prepared.hosts@ == filled_ips(
        list,
        configured_ips(list, list.len() as int),
        list.len() as int,
    ).1);
    assert(node_with_id(nodes@, hosts[i].network_node_id) is Some);
    assert(list[i] == with_bandwidths(hosts[i], node_of(hosts[i], nodes@)));
    law_bandwidths_come_from_host_or_node(hosts[i], node_of(hosts[i], nodes@));
    law_node_is_found_by_its_number(nodes@, hosts[i].network_node_id);
}

/// A configuration keeps the prepared hosts, and has a record, an owner and the bandwidths of each
/// of them.
pub proof fn law_configured_hosts_are_known<P>(
    config: SimConfig<P>,
    prepared: PreparedConfig,
    paths: Result<Vec<((usize, usize), P)>, String>,
    use_shortest_paths: bool,
    experimental: ExperimentalOptions,
    partition_file: Option<PartitionFile>,
    i: int,
)
    requires
        prepared.wf(),
        is_configured(
            Ok(config),
            prepared,
            paths,
            use_shortest_paths,
            experimental,
            partition_file,
        ),
        0 <= i < prepared.hosts@.len(),
    ensures
        config.hosts == prepared.hosts,
        config.random == prepared.random,
        config.ip_assignment == prepared.ip_assignment,
        config.dns_hosts@.len() == prepared.hosts@.len(),
        config.dns_hosts@[i].id == prepared.hosts@[i].id,
        config.dns_hosts@[i].name@ == prepared.hosts@[i].name@,
        Some(config.dns_hosts@[i].ip_addr) == prepared.hosts@[i].ip_addr,
        prepared.hosts@[i].ip_addr matches Some(ip) && prepared.hosts@[i].bandwidth_up_bits matches
            Some(up) && prepared.hosts@[i].bandwidth_down_bits matches Some(down)
            && config.host_bandwidths@.contains_key(ip.0) && config.host_bandwidths@[ip.0].up_bytes
            == up / 8 && config.host_bandwidths@[ip.0].down_bytes == down / 8,
        partition_file is None ==> config.partition_map@.contains_key(prepared.hosts@[i].id.0)
            && config.partition_map@[prepared.hosts@[i].id.0].0 == prepared.hosts@[i].id.0
            % experimental.distributed_shard_count,
{
    let hosts = prepared.hosts@;
    assert forall|k: int| 0 <= k < hosts.len() implies (#[trigger] hosts[k]).ip_addr is Some by {
        assert(has_its_address(hosts[k], prepared.ip_assignment@));
    }
    assert(hosts[i].bandwidth_up_bits is Some && hosts[i].bandwidth_down_bits is Some) by {
        assert(has_its_address(hosts[i], prepared.ip_assignment@));
    }
    law_bandwidths_are_in_bytes(hosts, i);
    let routing = choose|routing: Result<RoutingInfo<P>, ConfigError>| #[trigger]
        is_routed(routing, prepared.graph@, paths, use_shortest_paths) && match routing {
            Err(failure) => false,
            Ok(routing_info) => exists|map: Result<PartitionMap, ConfigError>| #[trigger]
                is_partition_of(map, experimental, partition_file, hosts) && match map {
                    Err(failure) => false,
                    Ok(partition_map) => config.partition_map@ == partition_map@ && names_hosts(
                        config.dns_hosts@,
                        hosts,
                    ),
                },
        };
    let map = choose|map: Result<PartitionMap, ConfigError>| #[trigger]
        is_partition_of(map, experimental, partition_file, hosts) && match map {
            Err(failure) => false,
            Ok(partition_map) => config.partition_map@ == partition_map@ && names_hosts(
                config.dns_hosts@,
                hosts,
            ),
        };
    assert(names_host(config.dns_hosts@[i], hosts[i]));
    if partition_file is None {
        law_hosts_are_dealt_out_without_a_file(map, experimental, hosts, i);
    }
}

} // verus!
