use rand::{Rng, SeedableRng};
use rand_xoshiro::Xoshiro256PlusPlus;
use shadow_rs::counter::Counter;
use shadow_rs::ids::{HostId, ShardId};
use shadow_rs::net::Ipv4Addr;
use shadow_rs::sim_config::error::ConfigError;
use shadow_rs::sim_config::hosts::{
    BuiltProcess, ConfiguredHost, ProcessInfo, build_process, collect_processes,
};
use shadow_rs::sim_config::ips::IpAssignment;
use shadow_rs::sim_config::options::{
    ExperimentalOptions, GraphNode, HostOptions, ProcessArgs, ProcessFinalState, ProcessOptions,
    QDiscMode, TimeOption,
};
use shadow_rs::sim_config::partition::PartitionFile;
use shadow_rs::sim_config::paths::ResolvedPaths;
use shadow_rs::sim_config::routing::node_places;
use shadow_rs::sim_config::seed::hash_hostname;
use shadow_rs::sim_config::{LoadedGraph, PreparedConfig, SimConfig, prepare};
use shadow_rs::time::SimulationTime;

const GBIT: u64 = 1_000_000_000;

fn experimental(shard_id: u32, shard_count: u32, use_new_tcp: bool) -> ExperimentalOptions {
    ExperimentalOptions {
        socket_send_buffer: 131_072,
        socket_recv_buffer: 174_760,
        socket_send_autotune: true,
        socket_recv_autotune: false,
        interface_qdisc: QDiscMode::Fifo,
        use_new_tcp,
        distributed_shard_id: shard_id,
        distributed_shard_count: shard_count,
    }
}

fn host(name: &str, node: u32) -> ConfiguredHost {
    ConfiguredHost {
        name: name.to_string(),
        options: HostOptions {
            network_node_id: node,
            bandwidth_down: None,
            bandwidth_up: None,
            ip_addr: None,
            log_level: None,
            pcap_enabled: false,
            pcap_capture_size: 65535,
        },
        processes: Ok(Vec::new()),
    }
}

fn switch() -> LoadedGraph {
    LoadedGraph::Nodes(vec![GraphNode {
        id: 0,
        bandwidth_down: Some(GBIT),
        bandwidth_up: Some(GBIT),
    }])
}

fn prepare_hosts(hosts: Vec<ConfiguredHost>) -> Result<PreparedConfig, ConfigError> {
    prepare(1, hosts, &experimental(0, 1, false), &[], switch())
}

fn two_hosts(
    options: ExperimentalOptions,
    partition: Option<&str>,
) -> Result<SimConfig<u32>, ConfigError> {
    let hosts = vec![host("hosta", 0), host("hostb", 0)];
    let prepared = prepare(1, hosts, &options, &[], switch())?;
    let file = partition.map(|text| PartitionFile {
        path: "/tmp/partition.yaml".to_string(),
        content: Ok(text.as_bytes().to_vec()),
    });
    SimConfig::new(prepared, Ok(vec![((0, 0), 7)]), true, &options, &file)
}

fn failure<T>(result: Result<T, ConfigError>) -> ConfigError {
    match result {
        Ok(_) => panic!("expected a failure"),
        Err(e) => e,
    }
}

#[test]
fn distributed_shard_config_builds_modulo_partition() {
    let config = two_hosts(experimental(1, 2, true), None).unwrap();

    assert_eq!(config.partition_map.shard_for_host(HostId::from(0)), Some(ShardId(0)));
    assert_eq!(config.partition_map.shard_for_host(HostId::from(1)), Some(ShardId(1)));
}

#[test]
fn distributed_shard_config_loads_partition_file() {
    let config = two_hosts(experimental(1, 2, true), Some("hosta: 1\nhostb: 0\n")).unwrap();

    assert_eq!(config.partition_map.shard_for_host(HostId::from(0)), Some(ShardId(1)));
    assert_eq!(config.partition_map.shard_for_host(HostId::from(1)), Some(ShardId(0)));
}

#[test]
fn distributed_shard_config_rejects_partition_file_missing_host() {
    let err = failure(two_hosts(experimental(0, 2, true), Some("hosta: 0\n")));

    assert!(err.to_string().contains("Invalid distributed shard configuration"));
    assert!(err.root_cause().contains("does not assign host 'hostb'"));
}

#[test]
fn distributed_shard_config_rejects_partition_file_unknown_host() {
    let err =
        failure(two_hosts(experimental(0, 2, true), Some("hosta: 0\nhostb: 1\nhostc: 0\n")));

    assert!(err.root_cause().contains("assigns unknown host 'hostc'"));
}

#[test]
fn distributed_shard_config_rejects_partition_file_shard_past_count() {
    let err = failure(two_hosts(experimental(0, 2, true), Some("hosta: 0\nhostb: 2\n")));

    assert!(err.root_cause().contains("shard 2, but shard count is 2"));
}

#[test]
fn distributed_shard_config_rejects_partition_file_that_is_no_map() {
    let err = failure(two_hosts(experimental(0, 2, true), Some("- hosta\n- hostb\n")));

    assert_eq!(err.to_string(), "Invalid distributed shard configuration");
    assert!(!err.root_cause().is_empty());
}

#[test]
fn distributed_shard_config_rejects_partition_file_that_cannot_be_read() {
    let options = experimental(0, 2, true);
    let prepared = prepare_hosts(vec![host("hosta", 0), host("hostb", 0)]).unwrap();
    let file = Some(PartitionFile {
        path: "missing.yaml".to_string(),
        content: Err("No such file or directory".to_string()),
    });
    let err = failure(SimConfig::<u32>::new(prepared, Ok(vec![]), true, &options, &file));

    assert_eq!(err.to_string(), "Invalid distributed shard configuration");
    assert_eq!(err.root_cause(), "No such file or directory");
}

#[test]
fn distributed_shard_config_rejects_shard_id_past_count() {
    let err = failure(two_hosts(experimental(2, 2, false), None));

    assert!(err.to_string().contains("must be less than"));
}

#[test]
fn distributed_shard_config_rejects_empty_selected_shard() {
    let err = failure(two_hosts(experimental(2, 3, false), None));

    assert!(err.to_string().contains("has no assigned hosts"));
}

#[test]
fn distributed_shard_config_requires_new_tcp() {
    let err = failure(two_hosts(experimental(0, 2, false), None));

    assert!(err.to_string().contains("experimental.use_new_tcp=true"));
    assert_eq!(
        err.to_string(),
        "Distributed multi-shard mode (shard_count=2) requires experimental.use_new_tcp=true."
    );
}

#[test]
fn hosts_are_numbered_in_the_order_of_their_names() {
    let options = experimental(0, 2, true);
    let hosts = vec![host("client", 0), host("server", 0)];
    let prepared = prepare(1, hosts, &options, &[], switch()).unwrap();
    let config =
        SimConfig::<u32>::new(prepared, Ok(vec![]), true, &options, &None).unwrap();

    assert_eq!(config.hosts[0].name, "client");
    assert_eq!(config.hosts[0].id, HostId::from(0));
    assert_eq!(config.partition_map.shard_for_host(HostId::from(0)), Some(ShardId(0)));
    assert_eq!(config.hosts[1].name, "server");
    assert_eq!(config.hosts[1].id, HostId::from(1));
    assert_eq!(config.partition_map.shard_for_host(HostId::from(1)), Some(ShardId(1)));
}

#[test]
fn config_holds_bandwidths_names_and_paths() {
    let config = two_hosts(experimental(0, 1, false), None).unwrap();

    let first = config.hosts[0].ip_addr.unwrap();
    let second = config.hosts[1].ip_addr.unwrap();
    assert_eq!(first.to_string(), "11.0.0.1");
    assert_eq!(second.to_string(), "11.0.0.2");
    assert_eq!(config.host_bandwidths[&first.0].up_bytes, GBIT / 8);
    assert_eq!(config.host_bandwidths[&second.0].down_bytes, GBIT / 8);
    assert_eq!(config.dns_hosts[1].name, "hostb");
    assert_eq!(config.dns_hosts[1].ip_addr, second);
    assert_eq!(config.routing_info.paths, [((0, 0), 7)]);
}

#[test]
fn paths_that_are_not_found_fail_the_configuration() {
    for (shortest, text) in [
        (true, "Failed to compute shortest paths between graph nodes"),
        (false, "Failed to get the direct paths between graph nodes"),
    ] {
        let options = experimental(0, 1, false);
        let prepared = prepare_hosts(vec![host("hosta", 0)]).unwrap();
        let result =
            SimConfig::<u32>::new(prepared, Err("no path".to_string()), shortest, &options, &None);
        let err = failure(result);
        assert_eq!(err.to_string(), text);
        assert_eq!(err.root_cause(), "no path");
    }
}

#[test]
fn configuration_needs_hosts_and_a_graph() {
    let err = failure(prepare_hosts(vec![]));
    assert_eq!(err.to_string(), "The configuration did not contain any hosts");

    let options = experimental(0, 1, false);
    let graph = LoadedGraph::NotLoaded("gone".to_string());
    let err = failure(prepare(1, vec![host("hosta", 0)], &options, &[], graph));
    assert_eq!(err.to_string(), "Failed to load the network graph");
    assert_eq!(err.root_cause(), "gone");

    let graph = LoadedGraph::NotParsed("bad".to_string());
    let err = failure(prepare(1, vec![host("hosta", 0)], &options, &[], graph));
    assert_eq!(err.to_string(), "Failed to parse the network graph");
}

#[test]
fn configuration_rejects_unknown_nodes_and_hosts() {
    let err = failure(prepare_hosts(vec![host("hosta", 4)]));
    assert_eq!(err.to_string(), "The network node id 4 for host 'hosta' does not exist");

    let options = experimental(0, 1, false);
    let debug = ["ghost".to_string()];
    let err = failure(prepare(1, vec![host("hosta", 0)], &options, &debug, switch()));
    assert_eq!(err.to_string(), "The host to debug 'ghost' doesn't exist");
}

#[test]
fn configuration_needs_bandwidths() {
    let options = experimental(0, 1, false);
    let graph = LoadedGraph::Nodes(vec![GraphNode {
        id: 0,
        bandwidth_down: Some(8),
        bandwidth_up: None,
    }]);
    let err = failure(prepare(1, vec![host("hosta", 0)], &options, &[], graph));
    assert_eq!(err.to_string(), "No upstream bandwidth provided for host 'hosta'");

    let graph = LoadedGraph::Nodes(vec![GraphNode {
        id: 0,
        bandwidth_down: None,
        bandwidth_up: None,
    }]);
    let err = failure(prepare(1, vec![host("hosta", 0)], &options, &[], graph));
    assert_eq!(err.to_string(), "No downstream bandwidth provided for host 'hosta'");

    let graph = LoadedGraph::Nodes(vec![GraphNode {
        id: 0,
        bandwidth_down: Some(80),
        bandwidth_up: Some(160),
    }]);
    let mut own = host("hosta", 0);
    own.options.bandwidth_up = Some(24);
    let prepared = prepare(1, vec![own], &options, &[], graph).unwrap();
    assert_eq!(prepared.hosts[0].bandwidth_up_bits, Some(24));
    assert_eq!(prepared.hosts[0].bandwidth_down_bits, Some(80));
}

#[test]
fn configured_addresses_go_first() {
    let mut fixed = host("hostb", 0);
    fixed.options.ip_addr = Some(Ipv4Addr::new(11, 0, 0, 1));
    let prepared = prepare_hosts(vec![host("hosta", 0), fixed]).unwrap();
    assert_eq!(prepared.hosts[0].ip_addr, Some(Ipv4Addr::new(11, 0, 0, 2)));
    assert_eq!(prepared.hosts[1].ip_addr, Some(Ipv4Addr::new(11, 0, 0, 1)));

    let mut first = host("hosta", 0);
    first.options.ip_addr = Some(Ipv4Addr::new(10, 1, 2, 3));
    let mut second = host("hostb", 0);
    second.options.ip_addr = Some(Ipv4Addr::new(10, 1, 2, 3));
    let err = failure(prepare_hosts(vec![first, second]));
    assert_eq!(
        err.to_string(),
        "Failed to assign IP address 10.1.2.3 for host 'hostb' to node '0'"
    );
}

#[test]
fn addresses_skip_network_and_broadcast_numbers() {
    let mut assignment = IpAssignment::new();
    for _ in 0..254 {
        assignment.assign(3);
    }
    assert_eq!(assignment.assign(4), Ipv4Addr::new(11, 0, 1, 1));
    let nodes = assignment.get_nodes();
    assert_eq!(nodes.len(), 2);
    assert!(nodes.contains(&3) && nodes.contains(&4));
}

#[test]
fn hosts_have_seeds_of_their_own() {
    let first = prepare_hosts(vec![host("hosta", 0), host("hostb", 0)]).unwrap();
    let again = prepare_hosts(vec![host("hosta", 0), host("hostb", 0)]).unwrap();
    let options = experimental(0, 1, false);
    let other =
        prepare(2, vec![host("hosta", 0), host("hostb", 0)], &options, &[], switch()).unwrap();

    assert_ne!(first.hosts[0].seed, first.hosts[1].seed);
    assert_eq!(first.hosts[0].seed, again.hosts[0].seed);
    assert_ne!(first.hosts[0].seed, other.hosts[0].seed);
    // all hosts share the number that is mixed into the hashes of their names
    let shared = first.hosts[0].seed ^ hash_hostname("hosta");
    assert_eq!(shared, first.hosts[1].seed ^ hash_hostname("hostb"));
    assert_ne!(shared, 1);
}

#[test]
fn simulation_draws_on_behind_the_number_of_the_hosts() {
    let prepared = prepare_hosts(vec![host("hosta", 0)]).unwrap();
    let mut generator = Xoshiro256PlusPlus::seed_from_u64(1);
    assert_ne!(prepared.random, generator);
    let first: u64 = generator.random();
    assert_eq!(prepared.random, generator);
    assert_eq!(prepared.hosts[0].seed, first ^ hash_hostname("hosta"));
}

#[test]
fn hosts_to_debug_are_paused() {
    let options = experimental(0, 1, false);
    let debug = ["hostb".to_string()];
    let hosts = vec![host("hosta", 0), host("hostb", 0)];
    let prepared = prepare(1, hosts, &options, &debug, switch()).unwrap();
    assert!(!prepared.hosts[0].pause_for_debugging);
    assert!(prepared.hosts[1].pause_for_debugging);
    assert_eq!(prepared.hosts[0].cpu_precision, Some(SimulationTime::from_nanos(200)));
}

#[test]
fn nodes_in_use_are_found_in_the_graph() {
    let graph = [
        GraphNode { id: 5, bandwidth_down: None, bandwidth_up: None },
        GraphNode { id: 9, bandwidth_down: None, bandwidth_up: None },
    ];
    let mut assignment = IpAssignment::new();
    assignment.assign(9);
    assert_eq!(node_places(&graph, &assignment.get_nodes()), vec![1]);
}

fn time(seconds: u64) -> TimeOption {
    TimeOption {
        span: SimulationTime::from_nanos(seconds * 1_000_000_000),
        text: format!("{seconds} sec"),
    }
}

fn process(start: u64, shutdown: Option<u64>) -> Result<ProcessInfo, ConfigError> {
    let options = ProcessOptions {
        path: "~/server".to_string(),
        start_time: time(start),
        shutdown_time: shutdown.map(time),
        shutdown_signal: 15,
        environment: vec![("KEY".to_string(), "value".to_string())],
        expected_final_state: ProcessFinalState::Exited(0),
    };
    build_process(
        &options,
        &time(60),
        ProcessArgs::List(vec!["--port".to_string(), "9000".to_string()]),
        "/home/user/server".to_string(),
        Ok("/usr/bin/server".to_string()),
    )
}

#[test]
fn process_keeps_its_settings() {
    let built = process(1, Some(30)).unwrap();
    assert_eq!(built.plugin, "/usr/bin/server");
    assert_eq!(built.args, ["/home/user/server", "--port", "9000"]);
    assert_eq!(built.env, [("KEY".to_string(), "value".to_string())]);
    assert_eq!(built.start_time, SimulationTime::from_nanos(1_000_000_000));
    assert_eq!(built.shutdown_time, Some(SimulationTime::from_nanos(30_000_000_000)));
    assert_eq!(built.shutdown_signal, 15);
}

#[test]
fn process_times_must_fit() {
    assert_eq!(
        failure(process(60, None)).to_string(),
        "Process start time '60 sec' must be earlier than the simulation stop time '60 sec'"
    );
    assert_eq!(
        failure(process(5, Some(5))).to_string(),
        "Process start time '5 sec' must be earlier than its shutdown_time time '5 sec'"
    );
    assert_eq!(
        failure(process(5, Some(60))).to_string(),
        "Process shutdown_time '60 sec' must be earlier than the simulation stop time '60 sec'"
    );
}

#[test]
fn process_arguments_may_be_a_text() {
    let options = ProcessOptions {
        path: "server".to_string(),
        start_time: time(1),
        shutdown_time: None,
        shutdown_signal: 15,
        environment: vec![],
        expected_final_state: ProcessFinalState::Running,
    };
    let args = ProcessArgs::Str { text: "'a".to_string(), words: Err("unbalanced".to_string()) };
    let err = failure(build_process(
        &options,
        &time(60),
        args,
        "server".to_string(),
        Ok("/usr/bin/server".to_string()),
    ));
    assert_eq!(err.to_string(), "Failed to parse arguments: 'a");
    assert_eq!(err.root_cause(), "unbalanced");
}

#[test]
fn first_process_that_fails_fails_the_host() {
    let missing = ConfigError::new("not found".to_string());
    let built = vec![
        BuiltProcess { path: "good".to_string(), process: process(1, None) },
        BuiltProcess { path: "bad".to_string(), process: Err(missing) },
    ];
    let err = failure(collect_processes(built));
    assert_eq!(err.to_string(), "Failed to configure process 'bad'");

    let mut failing = host("hosta", 0);
    failing.processes = Err(err);
    let err = failure(prepare_hosts(vec![failing]));
    assert_eq!(err.to_string(), "Failed to configure host 'hosta'");
    assert_eq!(err.root_cause(), "not found");
}

#[test]
fn resolved_paths_are_remembered() {
    let mut resolved = ResolvedPaths::new();
    assert_eq!(resolved.get("curl"), None);
    resolved.insert("curl", "/usr/bin/curl");
    assert_eq!(resolved.get("curl"), Some("/usr/bin/curl".to_string()));
    assert_eq!(resolved.get("cur"), None);
}

#[test]
fn counters_add_up_by_name() {
    let mut counter = Counter::new();
    counter.add_value("Packet", 2);
    counter.add_value("Host", 1);
    let mut other = Counter::new();
    other.add_value("Packet", 3);
    counter.add_counter(&other);
    assert_eq!(counter.get("Packet"), 5);
    assert_eq!(counter.get("Host"), 1);
    assert_eq!(counter.get("Task"), 0);
}
