//! Which shard owns each configured host.

use std::collections::BTreeMap;

use vstd::prelude::*;
use vstd::string::*;

use crate::distributed::partition::{
    PartitionMap, assigned, law_assigned_hosts_are_the_listed_ones,
};
use crate::ids::{HostId, ShardId};
use crate::sim_config::error::ConfigError;
use crate::sim_config::hosts::{
    HostInfo, find_host, host_names, last_place, law_last_place_is_the_last, lemma_last_place,
    quoted_name,
};
use crate::sim_config::options::ExperimentalOptions;
use crate::text::{decimal, push_decimal, same_text};
use crate::transport::partition::modulo_partition;

verus! {

/// Host names with the numbers of their shards.
pub open spec fn entry_texts(entries: Seq<(String, u32)>) -> Seq<(Seq<char>, u32)> {
    Seq::new(entries.len(), |i: int| (entries[i].0@, entries[i].1))
}

/// Whether no name comes twice.
pub open spec fn names_are_distinct(entries: Seq<(Seq<char>, u32)>) -> bool {
    forall|i: int, j: int|
        0 <= i < j < entries.len() ==> (#[trigger] entries[i]).0 != (#[trigger] entries[j]).0
}

/// What `serde_yaml::from_reader` makes of a file that maps host names to shard numbers: the
/// entries, ordered by name, or what it says to a file that is no such map.
pub uninterp spec fn partition_entries(bytes: Seq<u8>) -> Result<Seq<(Seq<char>, u32)>, Seq<char>>;

/// Parses a partition file through `serde_yaml::from_reader`, into a `BTreeMap` from `String` to
/// `u32` whose entries are then listed. Claimed: the outcome, and the text of a failure, depend on
/// the bytes alone, and no name is listed twice.
#[verifier::external_body]
fn parse_partition_entries(bytes: &[u8]) -> (parsed: Result<Vec<(String, u32)>, String>)
    ensures
        match (parsed, partition_entries(bytes@)) {
            (Ok(entries), Ok(named)) => entry_texts(entries@) == named,
            (Err(text), Err(named)) => text@ == named,
            _ => false,
        },
        parsed matches Ok(entries) ==> names_are_distinct(entry_texts(entries@)),
{
    let parsed: Result<BTreeMap<String, u32>, serde_yaml::Error> = serde_yaml::from_reader(bytes);
    match parsed {
        Ok(entries) => Ok(entries.into_iter().collect()),
        Err(e) => Err(e.to_string()),
    }
}

/// What is said to an entry that assigns no known host to a shard of the run, if it does not.
pub open spec fn entry_fault(
    entry: (Seq<char>, u32),
    names: Seq<Seq<char>>,
    shard_count: u32,
) -> Option<Seq<char>> {
    if last_place(names, entry.0) is None {
        Some("distributed partition file assigns unknown host '"@ + entry.0 + "'"@)
    } else if entry.1 >= shard_count {
        Some(
            "distributed partition file assigns host '"@ + entry.0 + "' to shard "@ + decimal(
                entry.1 as nat,
            ) + ", but shard count is "@ + decimal(shard_count as nat),
        )
    } else {
        None
    }
}

/// Whether an entry is the first with a fault.
pub open spec fn is_first_faulty(
    entries: Seq<(Seq<char>, u32)>,
    names: Seq<Seq<char>>,
    shard_count: u32,
    i: int,
) -> bool {
    &&& 0 <= i < entries.len()
    &&& entry_fault(entries[i], names, shard_count) is Some
    &&& forall|j: int|
        0 <= j < i ==> entry_fault(#[trigger] entries[j], names, shard_count) is None
}

/// Whether no entry has a fault.
pub open spec fn entries_are_sound(
    entries: Seq<(Seq<char>, u32)>,
    names: Seq<Seq<char>>,
    shard_count: u32,
) -> bool {
    forall|j: int|
        0 <= j < entries.len() ==> entry_fault(#[trigger] entries[j], names, shard_count) is None
}

/// Whether there is an entry for a name.
pub open spec fn is_assigned(entries: Seq<(Seq<char>, u32)>, name: Seq<char>) -> bool {
    exists|i: int| 0 <= i < entries.len() && (#[trigger] entries[i]).0 == name
}

/// Whether a name is the first without an entry.
pub open spec fn is_first_unassigned(
    entries: Seq<(Seq<char>, u32)>,
    names: Seq<Seq<char>>,
    i: int,
) -> bool {
    &&& 0 <= i < names.len()
    &&& !is_assigned(entries, names[i])
    &&& forall|j: int| 0 <= j < i ==> is_assigned(entries, #[trigger] names[j])
}

/// The hosts that the entries name, with their shards.
pub open spec fn host_shards(entries: Seq<(Seq<char>, u32)>, hosts: Seq<HostInfo>) -> Seq<
    (HostId, ShardId),
> {
    Seq::new(
        entries.len(),
        |i: int|
            (hosts[last_place(host_names(hosts), entries[i].0)->0].id, ShardId(entries[i].1)),
    )
}

/// Whether a map, or a failure, is what the entries of a partition file come to: each host is on
/// the shard of its entry, where every entry is sound and every host has one.
pub open spec fn follows_entries(
    map: Result<PartitionMap, ConfigError>,
    entries: Seq<(Seq<char>, u32)>,
    hosts: Seq<HostInfo>,
    shard_count: u32,
) -> bool {
    let names = host_names(hosts);
    match map {
        Ok(m) => {
            &&& entries_are_sound(entries, names, shard_count)
            &&& forall|i: int| 0 <= i < names.len() ==> is_assigned(entries, #[trigger] names[i])
            &&& m@ == assigned(host_shards(entries, hosts))
        },
        Err(e) => {
            ||| exists|i: int| #[trigger]
                is_first_faulty(entries, names, shard_count, i) && e@ == seq![
                    entry_fault(entries[i], names, shard_count)->0,
                ]
            ||| entries_are_sound(entries, names, shard_count) && exists|i: int| #[trigger]
                is_first_unassigned(entries, names, i) && e@ == seq![
                    "distributed partition file does not assign host '"@ + names[i] + "'"@,
                ]
        },
    }
}

fn has_entry(entries: &[(String, u32)], name: &str) -> (found: bool)
    ensures
        found == is_assigned(entry_texts(entries@), name@),
{
    let ghost listed = entry_texts(entries@);
    let mut i: usize = 0;
    while i < entries.len()
        invariant
            i <= entries@.len(),
            listed == entry_texts(entries@),
            forall|j: int| 0 <= j < i ==> (#[trigger] listed[j]).0 != name@,
        decreases entries@.len() - i,
    {
        if same_text(entries[i].0.as_str(), name) {
            assert(listed[i as int].0 == name@);
            return true;
        }
        i += 1;
    }
    false
}

/// The map that the entries of a partition file lay down.
pub fn partition_from_entries(
    entries: &[(String, u32)],
    hosts: &[HostInfo],
    shard_count: u32,
) -> (map: Result<PartitionMap, ConfigError>)
    ensures
        follows_entries(map, entry_texts(entries@), hosts@, shard_count),
{
    let ghost listed = entry_texts(entries@);
    let ghost names = host_names(hosts@);
    let mut pairs: Vec<(HostId, ShardId)> = Vec::new();
    let mut i: usize = 0;
    while i < entries.len()
        invariant
            i <= entries@.len(),
            listed == entry_texts(entries@),
            names == host_names(hosts@),
            forall|j: int|
                0 <= j < i ==> entry_fault(#[trigger] listed[j], names, shard_count) is None,
            pairs@ == host_shards(listed, hosts@).take(i as int),
        decreases entries@.len() - i,
    {
        assert(listed[i as int] == (entries@[i as int].0@, entries@[i as int].1));
        let name = entries[i].0.as_str();
        let shard: u32 = entries[i].1;
        let place: usize = match find_host(hosts, name) {
            Some(place) => place,
            None => {
                let text = quoted_name(
                    "distributed partition file assigns unknown host '",
                    name,
                );
                assert(is_first_faulty(listed, names, shard_count, i as int));
                return Err(ConfigError::new(text));
            },
        };
        if shard >= shard_count {
            let mut text = String::new();
            text.append("distributed partition file assigns host '");
            text.append(name);
            text.append("' to shard ");
            push_decimal(&mut text, shard as u64);
            text.append(", but shard count is ");
            push_decimal(&mut text, shard_count as u64);
            proof {
                assert(text@ =~= entry_fault(listed[i as int], names, shard_count)->0);
                assert(is_first_faulty(listed, names, shard_count, i as int));
            }
            return Err(ConfigError::new(text));
        }
        pairs.push((hosts[place].id, ShardId(shard)));
        proof {
            let all = host_shards(listed, hosts@);
            assert(all.take(i + 1) =~= all.take(i as int).push(all[i as int]));
        }
        i += 1;
    }
    let mut k: usize = 0;
    while k < hosts.len()
        invariant
            k <= hosts@.len(),
            listed == entry_texts(entries@),
            names == host_names(hosts@),
            entries_are_sound(listed, names, shard_count),
            forall|j: int| 0 <= j < k ==> is_assigned(listed, #[trigger] names[j]),
        decreases hosts@.len() - k,
    {
        assert(names[k as int] == hosts@[k as int].name@);
        if !has_entry(entries, hosts[k].name.as_str()) {
            let text = quoted_name(
                "distributed partition file does not assign host '",
                hosts[k].name.as_str(),
            );
            assert(is_first_unassigned(listed, names, k as int));
            return Err(ConfigError::new(text));
        }
        k += 1;
    }
    assert(pairs@ =~= host_shards(listed, hosts@));
    Ok(PartitionMap::from_host_shards(pairs.as_slice()))
}

/// What a partition file comes to: the failure to read it, the failure to parse it, or what its
/// entries, of which no two name one host, come to.
pub open spec fn follows_file(
    map: Result<PartitionMap, ConfigError>,
    path: Seq<char>,
    content: Result<Seq<u8>, Seq<char>>,
    hosts: Seq<HostInfo>,
    shard_count: u32,
) -> bool {
    match content {
        Err(cause) => map matches Err(e) && e@ == seq![
            "Failed to open distributed partition file '"@ + path + "'"@,
            cause,
        ],
        Ok(bytes) => match partition_entries(bytes) {
            Err(cause) => map matches Err(e) && e@ == seq![
                "Failed to parse distributed partition file '"@ + path + "'"@,
                cause,
            ],
            Ok(entries) => names_are_distinct(entries) && follows_entries(
                map,
                entries,
                hosts,
                shard_count,
            ),
        },
    }
}

/// A partition file, with what reading it gave: its bytes, or why it could not be read.
#[derive(Debug)]
pub struct PartitionFile {
    pub path: String,
    pub content: Result<Vec<u8>, String>,
}

impl PartitionFile {
    /// The bytes of the file, or why it could not be read.
    pub open spec fn content_model(&self) -> Result<Seq<u8>, Seq<char>> {
        match self.content {
            Ok(bytes) => Ok(bytes@),
            Err(cause) => Err(cause@),
        }
    }
}

/// The map that a partition file lays down.
pub fn load_partition_map(file: &PartitionFile, hosts: &[HostInfo], shard_count: u32) -> (map:
    Result<PartitionMap, ConfigError>)
    ensures
        follows_file(map, file.path@, file.content_model(), hosts@, shard_count),
{
    let bytes = match &file.content {
        Ok(bytes) => bytes,
        Err(cause) => {
            let text = quoted_name(
                "Failed to open distributed partition file '",
                file.path.as_str(),
            );
            let error = ConfigError::new(cause.as_str().to_owned()).context(text);
            assert(error@ =~= seq![
                "Failed to open distributed partition file '"@ + file.path@ + "'"@,
                cause@,
            ]);
            return Err(error);
        },
    };
    match parse_partition_entries(bytes.as_slice()) {
        Ok(entries) => partition_from_entries(entries.as_slice(), hosts, shard_count),
        Err(cause) => {
            let text = quoted_name(
                "Failed to parse distributed partition file '",
                file.path.as_str(),
            );
            let ghost said = cause@;
            let error = ConfigError::new(cause).context(text);
            assert(error@ =~= seq![
                "Failed to parse distributed partition file '"@ + file.path@ + "'"@,
                said,
            ]);
            Err(error)
        },
    }
}

/// The numbers of hosts.
pub open spec fn host_numbers(hosts: Seq<HostInfo>) -> Seq<HostId> {
    Seq::new(hosts.len(), |i: int| hosts[i].id)
}

/// Where no two hosts share a name or a number, a partition file puts each host on the shard that
/// its entry names, which is a shard of the run.
pub proof fn law_partition_file_is_followed(
    entries: Seq<(Seq<char>, u32)>,
    hosts: Seq<HostInfo>,
    shard_count: u32,
    i: int,
    k: int,
)
    requires
        names_are_distinct(entries),
        host_names(hosts).no_duplicates(),
        host_numbers(hosts).no_duplicates(),
        entries_are_sound(entries, host_names(hosts), shard_count),
        0 <= i < hosts.len(),
        0 <= k < entries.len(),
        entries[k].0 == hosts[i].name@,
    ensures
        assigned(host_shards(entries, hosts)).contains_key(hosts[i].id.0),
        assigned(host_shards(entries, hosts))[hosts[i].id.0] == ShardId(entries[k].1),
        entries[k].1 < shard_count,
{
    let names = host_names(hosts);
    let pairs = host_shards(entries, hosts);
    let id = hosts[i].id;
    assert(entry_fault(entries[k], names, shard_count) is None);
    lemma_last_place(names, entries[k].0);
    assert(names[i] == entries[k].0);
    assert(pairs[k] == (id, ShardId(entries[k].1)));
    law_assigned_hosts_are_the_listed_ones(pairs, id);
    let m = choose|m: int|
        0 <= m < pairs.len() && #[trigger] pairs[m] == (id, assigned(pairs)[id.0]);
    assert(entry_fault(entries[m], names, shard_count) is None);
    lemma_last_place(names, entries[m].0);
    let place = last_place(names, entries[m].0)->0;
    assert(host_numbers(hosts)[place] == host_numbers(hosts)[i]);
    assert(place == i);
    if m < k {
        assert(entries[m].0 != entries[k].0);
    }
    if k < m {
        assert(entries[k].0 != entries[m].0);
    }
}

/// Where a partition file is sound and assigns every host, every host is in the map.
proof fn lemma_every_host_is_mapped(
    entries: Seq<(Seq<char>, u32)>,
    hosts: Seq<HostInfo>,
    shard_count: u32,
    i: int,
)
    requires
        host_names(hosts).no_duplicates(),
        entries_are_sound(entries, host_names(hosts), shard_count),
        0 <= i < hosts.len(),
        is_assigned(entries, host_names(hosts)[i]),
    ensures
        assigned(host_shards(entries, hosts)).contains_key(hosts[i].id.0),
{
    let names = host_names(hosts);
    let k = choose|k: int| 0 <= k < entries.len() && (#[trigger] entries[k]).0 == names[i];
    assert(entry_fault(entries[k], names, shard_count) is None);
    lemma_last_place(names, entries[k].0);
    let pairs = host_shards(entries, hosts);
    assert(pairs[k].0 == hosts[i].id);
    law_assigned_hosts_are_the_listed_ones(pairs, hosts[i].id);
}

/// What is said to a shard number that is not below the shard count.
pub open spec fn shard_id_text(shard_id: u32, shard_count: u32) -> Seq<char> {
    "distributed_shard_id ("@ + decimal(shard_id as nat)
        + ") must be less than distributed_shard_count ("@ + decimal(shard_count as nat) + ")"@
}

/// What is said to a shard that owns no host.
pub open spec fn empty_shard_text(shard_id: u32) -> Seq<char> {
    "distributed shard "@ + decimal(shard_id as nat) + " has no assigned hosts"@
}

/// What is said to a run of several shards with the legacy TCP stack.
pub open spec fn legacy_tcp_text(shard_count: u32) -> Seq<char> {
    "Distributed multi-shard mode (shard_count="@ + decimal(shard_count as nat)
        + ") requires experimental.use_new_tcp=true."@
}

/// Whether a shard owns one of the hosts.
pub open spec fn owns_a_host(map: Map<u32, ShardId>, hosts: Seq<HostInfo>, shard_id: u32) -> bool {
    exists|i: int|
        0 <= i < hosts.len() && map[(#[trigger] hosts[i]).id.0] == ShardId(shard_id)
}

/// What is said to settings that do not fit the map of the run, if they do not.
pub open spec fn settings_fault(
    settings: ExperimentalOptions,
    map: Map<u32, ShardId>,
    hosts: Seq<HostInfo>,
) -> Option<Seq<char>> {
    if !owns_a_host(map, hosts, settings.distributed_shard_id) {
        Some(empty_shard_text(settings.distributed_shard_id))
    } else if settings.distributed_shard_count > 1 && !settings.use_new_tcp {
        Some(legacy_tcp_text(settings.distributed_shard_count))
    } else {
        None
    }
}

/// Whether a map, or a failure, is what the shard settings of a run come to: the map that the
/// partition file lays down, or without one the hosts dealt out by their number modulo the shard
/// count, unless the settings do not fit.
pub open spec fn is_partition_of(
    map: Result<PartitionMap, ConfigError>,
    settings: ExperimentalOptions,
    file: Option<PartitionFile>,
    hosts: Seq<HostInfo>,
) -> bool {
    if settings.distributed_shard_id >= settings.distributed_shard_count {
        map matches Err(e) && e@ == seq![shard_id_text(settings.distributed_shard_id, settings.distributed_shard_count)]
    } else {
        exists|laid: Result<PartitionMap, ConfigError>| #[trigger]
            is_laid_down(laid, settings.distributed_shard_count, file, hosts) && match laid {
                Err(cause) => map matches Err(e) && e@ == seq![
                    "Invalid distributed shard configuration"@,
                ] + cause@,
                Ok(m) => match settings_fault(settings, m@, hosts) {
                    Some(text) => map matches Err(e) && e@ == seq![text],
                    None => map matches Ok(r) && r@ == m@,
                },
            }
    }
}

/// Whether a map, or a failure, is what the partition file comes to, or without one the hosts dealt
/// out by their number modulo the shard count.
pub open spec fn is_laid_down(
    laid: Result<PartitionMap, ConfigError>,
    shard_count: u32,
    file: Option<PartitionFile>,
    hosts: Seq<HostInfo>,
) -> bool {
    match file {
        Some(f) => follows_file(laid, f.path@, f.content_model(), hosts, shard_count),
        None => laid matches Ok(m) && m@ == modulo_partition(host_numbers(hosts), shard_count),
    }
}

fn numbers_of(hosts: &[HostInfo]) -> (numbers: Vec<HostId>)
    ensures
        numbers@ == host_numbers(hosts@),
{
    let mut numbers: Vec<HostId> = Vec::new();
    let mut i: usize = 0;
    while i < hosts.len()
        invariant
            i <= hosts@.len(),
            numbers@ == host_numbers(hosts@).take(i as int),
        decreases hosts@.len() - i,
    {
        numbers.push(hosts[i].id);
        i += 1;
        assert(host_numbers(hosts@).take(i as int) =~= host_numbers(hosts@).take(i - 1).push(
            hosts@[i - 1].id,
        ));
    }
    assert(host_numbers(hosts@).take(i as int) =~= host_numbers(hosts@));
    numbers
}

fn lay_down(shard_count: u32, file: &Option<PartitionFile>, hosts: &[HostInfo]) -> (laid: Result<
    PartitionMap,
    ConfigError,
>)
    requires
        shard_count > 0,
        host_names(hosts@).no_duplicates(),
    ensures
        is_laid_down(laid, shard_count, *file, hosts@),
        laid matches Ok(m) ==> forall|i: int|
            0 <= i < hosts@.len() ==> m@.contains_key((#[trigger] hosts@[i]).id.0),
{
    match file {
        Some(f) => {
            let laid = load_partition_map(f, hosts, shard_count);
            proof {
                if let Ok(m) = &laid {
                    assert forall|i: int| 0 <= i < hosts@.len() implies m@.contains_key(
                        (#[trigger] hosts@[i]).id.0,
                    ) by {
                        assert(is_assigned(
                            partition_entries(f.content->Ok_0@)->Ok_0,
                            host_names(hosts@)[i],
                        ));
                        lemma_every_host_is_mapped(
                            partition_entries(f.content->Ok_0@)->Ok_0,
                            hosts@,
                            shard_count,
                            i,
                        );
                    }
                }
            }
            laid
        },
        None => {
            let numbers = numbers_of(hosts);
            match PartitionMap::by_host_id_modulo(numbers.as_slice(), shard_count) {
                Ok(map) => {
                    proof {
                        assert forall|i: int| 0 <= i < hosts@.len() implies map@.contains_key(
                            (#[trigger] hosts@[i]).id.0,
                        ) by {
                            assert(host_numbers(hosts@)[i] == HostId(hosts@[i].id.0));
                        }
                    }
                    Ok(map)
                },
                Err(e) => Err(ConfigError::new(e.to_string())),
            }
        },
    }
}

/// The map of a run with shard settings.
pub fn build_partition(
    settings: ExperimentalOptions,
    file: &Option<PartitionFile>,
    hosts: &[HostInfo],
) -> (map: Result<PartitionMap, ConfigError>)
    requires
        host_names(hosts@).no_duplicates(),
    ensures
        is_partition_of(map, settings, *file, hosts@),
{
    if settings.distributed_shard_id >= settings.distributed_shard_count {
        let mut text = String::new();
        text.append("distributed_shard_id (");
        push_decimal(&mut text, settings.distributed_shard_id as u64);
        text.append(") must be less than distributed_shard_count (");
        push_decimal(&mut text, settings.distributed_shard_count as u64);
        text.append(")");
        assert(text@ =~= shard_id_text(settings.distributed_shard_id, settings.distributed_shard_count));
        return Err(ConfigError::new(text));
    }
    let laid = lay_down(settings.distributed_shard_count, file, hosts);
    let ghost laid_model = laid;
    let map = match laid {
        Ok(map) => map,
        Err(cause) => {
            return Err(cause.context("Invalid distributed shard configuration".to_owned()));
        },
    };
    assert(is_laid_down(laid_model, settings.distributed_shard_count, *file, hosts@));
    let mut owns: bool = false;
    let mut i: usize = 0;
    while i < hosts.len()
        invariant
            i <= hosts@.len(),
            forall|j: int|
                0 <= j < hosts@.len() ==> map@.contains_key((#[trigger] hosts@[j]).id.0),
            owns == exists|j: int|
                0 <= j < i && map@[(#[trigger] hosts@[j]).id.0] == ShardId(settings.distributed_shard_id),
        decreases hosts@.len() - i,
    {
        if map.is_host_local(ShardId(settings.distributed_shard_id), hosts[i].id).unwrap() {
            owns = true;
        }
        i += 1;
    }
    if !owns {
        let mut text = String::new();
        text.append("distributed shard ");
        push_decimal(&mut text, settings.distributed_shard_id as u64);
        text.append(" has no assigned hosts");
        assert(text@ =~= empty_shard_text(settings.distributed_shard_id));
        return Err(ConfigError::new(text));
    }
    if settings.distributed_shard_count > 1 && !settings.use_new_tcp {
        let mut text = String::new();
        text.append("Distributed multi-shard mode (shard_count=");
        push_decimal(&mut text, settings.distributed_shard_count as u64);
        text.append(") requires experimental.use_new_tcp=true.");
        assert(text@ =~= legacy_tcp_text(settings.distributed_shard_count));
        return Err(ConfigError::new(text));
    }
    Ok(map)
}

/// An entry of a partition file is in order if and only if it names a host of the simulation and a
/// shard of the run.
pub proof fn law_entries_name_hosts_and_shards(
    entry: (Seq<char>, u32),
    names: Seq<Seq<char>>,
    shard_count: u32,
)
    ensures
        entry_fault(entry, names, shard_count) is None <==> names.contains(entry.0) && entry.1
            < shard_count,
{
    law_last_place_is_the_last(names, entry.0);
    if last_place(names, entry.0) is Some {
        assert(names[last_place(names, entry.0)->0] == entry.0);
    }
}

/// A run that is configured has a shard number below the shard count, its shard owns a host, and a
/// run of several shards uses the new TCP stack; where all of this holds of the map that is laid
/// down, the run is configured with that map.
pub proof fn law_configured_shards_have_work(
    map: Result<PartitionMap, ConfigError>,
    settings: ExperimentalOptions,
    file: Option<PartitionFile>,
    hosts: Seq<HostInfo>,
)
    requires
        is_partition_of(map, settings, file, hosts),
    ensures
        map matches Ok(m) ==> {
            &&& settings.distributed_shard_id < settings.distributed_shard_count
            &&& settings.distributed_shard_count > 1 ==> settings.use_new_tcp
            &&& exists|i: int|
                0 <= i < hosts.len() && m@[(#[trigger] hosts[i]).id.0].0
                    == settings.distributed_shard_id
        },
        settings.distributed_shard_id >= settings.distributed_shard_count ==> map is Err,
        settings.distributed_shard_count > 1 && !settings.use_new_tcp ==> map is Err,
{
    if let Ok(m) = map {
        let i = choose|i: int|
            0 <= i < hosts.len() && m@[(#[trigger] hosts[i]).id.0] == ShardId(
                settings.distributed_shard_id,
            );
        assert(m@[hosts[i].id.0].0 == settings.distributed_shard_id);
    }
}

/// Without a partition file, the owner of each host is what its number leaves modulo the shard
/// count.
pub proof fn law_hosts_are_dealt_out_without_a_file(
    map: Result<PartitionMap, ConfigError>,
    settings: ExperimentalOptions,
    hosts: Seq<HostInfo>,
    i: int,
)
    requires
        is_partition_of(map, settings, None, hosts),
        0 <= i < hosts.len(),
    ensures
        map matches Ok(m) ==> m@.contains_key(hosts[i].id.0) && m@[hosts[i].id.0].0
            == hosts[i].id.0 % settings.distributed_shard_count,
{
    if let Ok(m) = map {
        assert(host_numbers(hosts)[i] == HostId(hosts[i].id.0));
        assert(host_numbers(hosts).contains(HostId(hosts[i].id.0)));
    }
}

/// With a partition file, every host is on the shard that the file gives to its name, and the file
/// gives one to every host.
pub proof fn law_hosts_are_placed_by_the_file(
    map: Result<PartitionMap, ConfigError>,
    settings: ExperimentalOptions,
    file: PartitionFile,
    hosts: Seq<HostInfo>,
    i: int,
)
    requires
        is_partition_of(map, settings, Some(file), hosts),
        host_names(hosts).no_duplicates(),
        host_numbers(hosts).no_duplicates(),
        0 <= i < hosts.len(),
    ensures
        map matches Ok(m) ==> (file.content matches Ok(bytes) && partition_entries(
            bytes@,
        ) matches Ok(entries) && exists|k: int|
            0 <= k < entries.len() && (#[trigger] entries[k]).0 == hosts[i].name@ && m@.contains_key(
                hosts[i].id.0,
            ) && m@[hosts[i].id.0].0 == entries[k].1 && entries[k].1
                < settings.distributed_shard_count),
{
    if let Ok(m) = map {
        let entries = partition_entries(file.content->Ok_0@)->Ok_0;
        assert(host_names(hosts)[i] == hosts[i].name@);
        assert(is_assigned(entries, host_names(hosts)[i]));
        let k = choose|k: int| 0 <= k < entries.len() && (#[trigger] entries[k]).0 == hosts[i].name@;
        law_partition_file_is_followed(
            entries,
            hosts,
            settings.distributed_shard_count,
            i,
            k,
        );
        assert(entries[k].0 == hosts[i].name@);
    }
}

/// The entries of a partition file are followed exactly where each names a host and a shard of the
/// run, and every host has an entry.
pub proof fn law_entries_that_are_followed(
    map: Result<PartitionMap, ConfigError>,
    entries: Seq<(Seq<char>, u32)>,
    hosts: Seq<HostInfo>,
    shard_count: u32,
)
    requires
        follows_entries(map, entries, hosts, shard_count),
    ensures
        map is Ok <==> {
            &&& forall|k: int|
                0 <= k < entries.len() ==> (#[trigger] entries[k]).1 < shard_count && host_names(
                    hosts,
                ).contains(entries[k].0)
            &&& forall|i: int|
                0 <= i < hosts.len() ==> exists|k: int|
                    0 <= k < entries.len() && (#[trigger] entries[k]).0 == (
                    #[trigger] hosts[i]).name@
        },
{
    let names = host_names(hosts);
    assert(forall|i: int| 0 <= i < hosts.len() ==> #[trigger] names[i] == hosts[i].name@);
    assert forall|k: int| 0 <= k < entries.len() implies (entry_fault(
        #[trigger] entries[k],
        names,
        shard_count,
    ) is None <==> entries[k].1 < shard_count && names.contains(entries[k].0)) by {
        law_entries_name_hosts_and_shards(entries[k], names, shard_count);
    }
    match map {
        Ok(_) => {
            assert forall|i: int| 0 <= i < hosts.len() implies exists|k: int|
                0 <= k < entries.len() && (#[trigger] entries[k]).0 == (
                #[trigger] hosts[i]).name@ by {
                assert(is_assigned(entries, names[i]));
            }
        },
        Err(_) => {
            if !entries_are_sound(entries, names, shard_count) {
                let k = choose|k: int|
                    0 <= k < entries.len() && entry_fault(
                        #[trigger] entries[k],
                        names,
                        shard_count,
                    ) is Some;
                assert(entry_fault(entries[k], names, shard_count) is Some);
            } else {
                let i = choose|i: int| #[trigger] is_first_unassigned(entries, names, i);
                assert(!is_assigned(entries, names[i]));
                assert(names[i] == hosts[i].name@);
            }
        },
    }
}

/// The entries of a file, and the numbers of hosts, stand in the order of the list.
pub proof fn law_entries_stand_in_the_order_of_the_file(
    entries: Seq<(String, u32)>,
    i: int,
    hosts: Seq<HostInfo>,
    k: int,
)
    requires
        0 <= i < entries.len(),
        0 <= k < hosts.len(),
    ensures
        entry_texts(entries).len() == entries.len(),
        entry_texts(entries)[i].0 == entries[i].0@,
        entry_texts(entries)[i].1 == entries[i].1,
        host_numbers(hosts).len() == hosts.len(),
        host_numbers(hosts)[k] == hosts[k].id,
{
}

/// What is said to an entry: that no host has its name first, then that there is no such shard.
pub proof fn law_what_is_said_of_entries(
    entry: (Seq<char>, u32),
    names: Seq<Seq<char>>,
    shard_count: u32,
)
    ensures
        !names.contains(entry.0) ==> entry_fault(entry, names, shard_count) == Some(
            "distributed partition file assigns unknown host '"@ + entry.0 + "'"@,
        ),
        names.contains(entry.0) && entry.1 >= shard_count ==> entry_fault(
            entry,
            names,
            shard_count,
        ) == Some(
            "distributed partition file assigns host '"@ + entry.0 + "' to shard "@ + decimal(
                entry.1 as nat,
            ) + ", but shard count is "@ + decimal(shard_count as nat),
        ),
{
    lemma_last_place(names, entry.0);
}

/// What is said to settings that do not fit: a shard that owns no host first, then the legacy TCP.
pub proof fn law_what_is_said_of_settings(
    settings: ExperimentalOptions,
    map: Map<u32, ShardId>,
    hosts: Seq<HostInfo>,
)
    ensures
        shard_id_text(settings.distributed_shard_id, settings.distributed_shard_count)
            == "distributed_shard_id ("@ + decimal(settings.distributed_shard_id as nat)
            + ") must be less than distributed_shard_count ("@ + decimal(
            settings.distributed_shard_count as nat,
        ) + ")"@,
        !(exists|i: int|
            0 <= i < hosts.len() && map[(#[trigger] hosts[i]).id.0].0
                == settings.distributed_shard_id) ==> settings_fault(settings, map, hosts) == Some(
            "distributed shard "@ + decimal(settings.distributed_shard_id as nat)
                + " has no assigned hosts"@,
        ),
        (exists|i: int|
            0 <= i < hosts.len() && map[(#[trigger] hosts[i]).id.0].0
                == settings.distributed_shard_id) && settings.distributed_shard_count > 1
            && !settings.use_new_tcp ==> settings_fault(settings, map, hosts) == Some(
            "Distributed multi-shard mode (shard_count="@ + decimal(
                settings.distributed_shard_count as nat,
            ) + ") requires experimental.use_new_tcp=true."@,
        ),
{
    if exists|i: int|
        0 <= i < hosts.len() && map[(#[trigger] hosts[i]).id.0].0
            == settings.distributed_shard_id {
        let i = choose|i: int|
            0 <= i < hosts.len() && map[(#[trigger] hosts[i]).id.0].0
                == settings.distributed_shard_id;
        assert(map[hosts[i].id.0] == ShardId(settings.distributed_shard_id));
    }
    if owns_a_host(map, hosts, settings.distributed_shard_id) {
        let i = choose|i: int|
            0 <= i < hosts.len() && map[(#[trigger] hosts[i]).id.0] == ShardId(
                settings.distributed_shard_id,
            );
        assert(map[hosts[i].id.0].0 == settings.distributed_shard_id);
    }
}

} // verus!
