//! Which shard owns which host.

use std::collections::HashMap;

use vstd::prelude::*;
use vstd::std_specs::hash::group_hash_axioms;
use vstd::string::*;

use crate::ids::{DEFAULT_SHARD_NUMBER, HostId, ShardId};
use crate::sorting::{Key, Keyed, OrderKey, is_sorted_version, sort_by_order_key, sorts};
use crate::text::{decimal, push_decimal};

verus! {

/// Why a partition map cannot be built.
#[derive(Clone, Copy, Debug, PartialEq, Eq, Structural)]
pub enum PartitionMapError {
    ZeroShardCount,
    UnknownHost(HostId),
    ShardOutOfRange(u32, u32),
    MissingHost(HostId),
    EmptyShard(ShardId),
}

impl PartitionMapError {
    /// The message for users.
    pub open spec fn message(self) -> Seq<char> {
        match self {
            PartitionMapError::ZeroShardCount => "Zero shard count"@,
            PartitionMapError::UnknownHost(host) => "Unknown host "@ + host.shown(),
            PartitionMapError::ShardOutOfRange(shard, count) => "Shard id "@ + decimal(shard as nat)
                + " is out of range for "@ + decimal(count as nat) + " shards"@,
            PartitionMapError::MissingHost(host) => "Missing host "@ + host.shown(),
            PartitionMapError::EmptyShard(shard) => "Shard "@ + decimal(shard.0 as nat)
                + " has no hosts"@,
        }
    }

    /// The message as a string.
    pub fn to_string(&self) -> (text: String)
        ensures
            text@ == self.message(),
    {
        let mut text = String::new();
        match *self {
            PartitionMapError::ZeroShardCount => {
                text.append("Zero shard count");
            },
            PartitionMapError::UnknownHost(host) => {
                text.append("Unknown host ");
                host.push_shown(&mut text);
            },
            PartitionMapError::ShardOutOfRange(shard, count) => {
                text.append("Shard id ");
                push_decimal(&mut text, shard as u64);
                text.append(" is out of range for ");
                push_decimal(&mut text, count as u64);
                text.append(" shards");
            },
            PartitionMapError::MissingHost(host) => {
                text.append("Missing host ");
                host.push_shown(&mut text);
            },
            PartitionMapError::EmptyShard(shard) => {
                text.append("Shard ");
                push_decimal(&mut text, shard.0 as u64);
                text.append(" has no hosts");
            },
        }
        assert(text@ =~= self.message());
        text
    }
}

/// Maps each host to the shard that owns it. Every shard holds a whole copy, to find the
/// destinations of what it sends and to check what it receives.
#[derive(Debug)]
pub struct PartitionMap {
    host_to_shard: HashMap<u32, ShardId>,
    num_shards: u32,
}

impl View for PartitionMap {
    type V = Map<u32, ShardId>;

    closed spec fn view(&self) -> Map<u32, ShardId> {
        self.host_to_shard@
    }
}

impl Clone for PartitionMap {
    fn clone(&self) -> (copy: Self)
        ensures
            copy@ == self@,
            copy.shard_count() == self.shard_count(),
    {
        let copy = PartitionMap {
            host_to_shard: self.host_to_shard.clone(),
            num_shards: self.num_shards,
        };
        assert(copy@ =~= self@);
        copy
    }
}

/// Each of the hosts with the shard that its number leaves modulo the shard count.
pub open spec fn modulo_partition(hosts: Seq<HostId>, num_shards: u32) -> Map<u32, ShardId> {
    Map::new(
        |host: u32| hosts.contains(HostId(host)),
        |host: u32| ShardId((host % num_shards) as u32),
    )
}

/// The hosts of a map, each once, ascending.
pub open spec fn lists_hosts_of(hosts: Seq<HostId>, map: Map<u32, ShardId>) -> bool {
    &&& forall|i: int| 0 <= i < hosts.len() ==> map.contains_key((#[trigger] hosts[i]).0)
    &&& forall|host: u32| #[trigger] map.contains_key(host) ==> hosts.contains(HostId(host))
    &&& forall|i: int, j: int|
        0 <= i < j < hosts.len() ==> (#[trigger] hosts[i]).0 < (#[trigger] hosts[j]).0
}

/// Whether the numbers are those of the hosts of a map, each once.
spec fn lists_each_once(numbers: Seq<u32>, map: Map<u32, ShardId>) -> bool {
    &&& numbers.to_set() == map.dom()
    &&& numbers.no_duplicates()
}

spec fn host_numbers(hosts: Seq<HostId>) -> Seq<u32> {
    Seq::new(hosts.len(), |i: int| hosts[i].0)
}

/// Sorting hosts that are listed once each makes them ascend strictly.
proof fn lemma_sorted_hosts(unsorted: Seq<HostId>, sorted: Seq<HostId>, map: Map<u32, ShardId>)
    requires
        lists_each_once(host_numbers(unsorted), map),
        is_sorted_version(unsorted, sorted),
    ensures
        lists_hosts_of(sorted, map),
{
    let order = choose|order: Seq<int>| sorts(unsorted, sorted, order);
    let numbers = host_numbers(unsorted);
    assert forall|i: int| 0 <= i < sorted.len() implies map.contains_key(
        (#[trigger] sorted[i]).0,
    ) by {
        assert(numbers[order[i]] == sorted[i].0);
        assert(numbers.to_set().contains(sorted[i].0));
    }
    assert forall|host: u32| #[trigger] map.contains_key(host) implies sorted.contains(
        HostId(host),
    ) by {
        assert(numbers.to_set().contains(host));
        let k = choose|k: int| 0 <= k < numbers.len() && numbers[k] == host;
        assert(order.contains(k));
        let i = choose|i: int| 0 <= i < order.len() && order[i] == k;
        assert(sorted[i] == HostId(host));
    }
    assert forall|i: int, j: int| 0 <= i < j < sorted.len() implies (#[trigger] sorted[i]).0 < (
    #[trigger] sorted[j]).0 by {
        assert(numbers[order[i]] == sorted[i].0);
        assert(numbers[order[j]] == sorted[j].0);
        assert(order[i] != order[j]);
    }
}

impl Keyed for HostId {
    open spec fn key(self) -> Key {
        (self.0, 0, 0, 0, 0)
    }
}

impl OrderKey for HostId {
    fn order_key(&self) -> (k: Key) {
        (self.0, 0, 0, 0, 0)
    }
}

/// Deals hosts out by their number modulo the shard count.
pub(crate) fn modulo_mapping(host_ids: &[HostId], num_shards: u32) -> (mapping: HashMap<
    u32,
    ShardId,
>)
    requires
        num_shards != 0,
    ensures
        mapping@ == modulo_partition(host_ids@, num_shards),
{
    broadcast use group_hash_axioms;

    let mut mapping: HashMap<u32, ShardId> = HashMap::new();
    let mut i: usize = 0;
    assert(mapping@ =~= modulo_partition(host_ids@.take(0), num_shards));
    while i < host_ids.len()
        invariant
            i <= host_ids.len(),
            num_shards != 0,
            mapping@ == modulo_partition(host_ids@.take(i as int), num_shards),
        decreases host_ids.len() - i,
    {
        let id = host_ids[i];
        mapping.insert(id.0, ShardId(id.0 % num_shards));
        i += 1;
        proof {
            let before = host_ids@.take(i - 1);
            let after = host_ids@.take(i as int);
            assert(after =~= before.push(id));
            assert forall|host: u32|
                after.contains(HostId(host)) == (before.contains(HostId(host)) || host
                    == id.0) by {
                if before.contains(HostId(host)) {
                    let k = choose|k: int| 0 <= k < before.len() && before[k] == HostId(host);
                    assert(after[k] == HostId(host));
                }
                if host == id.0 {
                    assert(after[i - 1] == HostId(host));
                }
                if after.contains(HostId(host)) {
                    let k = choose|k: int| 0 <= k < after.len() && after[k] == HostId(host);
                    if k < i - 1 {
                        assert(before[k] == HostId(host));
                    }
                }
            }
            assert(mapping@ =~= modulo_partition(after, num_shards));
        }
    }
    assert(host_ids@.take(i as int) =~= host_ids@);
    mapping
}

impl PartitionMap {
    /// The number of shards that the map was made for.
    pub closed spec fn shard_count(&self) -> u32 {
        self.num_shards
    }

    /// A map that was laid down host by host.
    pub fn from_host_shards(mapping: HashMap<u32, ShardId>, num_shards: u32) -> (map: Result<
        Self,
        PartitionMapError,
    >)
        ensures
            match map {
                Ok(m) => num_shards != 0 && m@ == mapping@ && m.shard_count() == num_shards,
                Err(e) => num_shards == 0 && e == PartitionMapError::ZeroShardCount,
            },
    {
        if num_shards == 0 {
            return Err(PartitionMapError::ZeroShardCount);
        }
        Ok(PartitionMap { host_to_shard: mapping, num_shards })
    }

    /// The default map: hosts are dealt out by their number modulo the shard count.
    pub fn by_host_id_modulo(host_ids: &[HostId], num_shards: u32) -> (map: Result<
        Self,
        PartitionMapError,
    >)
        ensures
            match map {
                Ok(m) => num_shards != 0 && m@ == modulo_partition(host_ids@, num_shards)
                    && m.shard_count() == num_shards,
                Err(e) => num_shards == 0 && e == PartitionMapError::ZeroShardCount,
            },
            map matches Ok(m) ==> forall|i: int|
                0 <= i < host_ids@.len() ==> m@.contains_key((#[trigger] host_ids@[i]).0)
                    && m@[host_ids@[i].0].0 == host_ids@[i].0 % num_shards,
    {
        if num_shards == 0 {
            return Err(PartitionMapError::ZeroShardCount);
        }
        proof {
            assert forall|i: int| 0 <= i < host_ids@.len() implies host_ids@.contains(
                HostId((#[trigger] host_ids@[i]).0),
            ) by {
                assert(host_ids@[i] == HostId(host_ids@[i].0));
            }
        }
        Ok(PartitionMap { host_to_shard: modulo_mapping(host_ids, num_shards), num_shards })
    }

    /// The shard that owns a host, if the host is known.
    pub fn shard_for_host(&self, host_id: HostId) -> (shard: Option<ShardId>)
        ensures
            shard == (if self@.contains_key(host_id.0) {
                Some(self@[host_id.0])
            } else {
                None
            }),
    {
        broadcast use group_hash_axioms;

        match self.host_to_shard.get(&host_id.0) {
            Some(shard) => Some(*shard),
            None => None,
        }
    }

    /// Whether a shard owns a host.
    pub fn is_host_local(&self, host_id: HostId, local_shard: ShardId) -> (local: bool)
        ensures
            local == (self@.contains_key(host_id.0) && self@[host_id.0] == local_shard),
    {
        match self.shard_for_host(host_id) {
            Some(shard) => shard == local_shard,
            None => false,
        }
    }

    /// All known hosts, ascending.
    pub fn host_ids(&self) -> (ids: Vec<HostId>)
        ensures
            lists_hosts_of(ids@, self@),
    {
        broadcast use group_hash_axioms;

        let mut ids: Vec<HostId> = Vec::new();
        for key in it: self.host_to_shard.keys()
            invariant
                lists_each_once(it.seq().unref(), self@),
                host_numbers(ids@) == it.seq().unref().take(it.index()),
                it.index() == it.seq().len() ==> host_numbers(ids@) == it.seq().unref(),
        {
            let ghost before = ids@;
            ids.push(HostId(*key));
            assert(host_numbers(ids@) =~= host_numbers(before).push(*key));
        }
        let ghost unsorted = ids@;
        sort_by_order_key(&mut ids);
        proof {
            lemma_sorted_hosts(unsorted, ids@, self@);
        }
        ids
    }

    /// The number of shards that the map was made for, whether or not each of them owns a host.
    pub fn num_shards(&self) -> (count: u32)
        ensures
            count == self.shard_count(),
    {
        self.num_shards
    }
}

/// Dealing hosts out by number gives every host of the list one owner below the shard count; with
/// one shard the default shard owns them all.
pub proof fn law_modulo_partition_owners(hosts: Seq<HostId>, num_shards: u32, host: HostId)
    requires
        num_shards != 0,
    ensures
        modulo_partition(hosts, num_shards).contains_key(host.0) <==> hosts.contains(host),
        modulo_partition(hosts, num_shards).contains_key(host.0) ==> modulo_partition(
            hosts,
            num_shards,
        )[host.0].0 < num_shards,
        num_shards == 1 && modulo_partition(hosts, num_shards).contains_key(host.0)
            ==> modulo_partition(hosts, num_shards)[host.0].0 == DEFAULT_SHARD_NUMBER,
{
    assert(HostId(host.0) == host);
}

/// The owner of a host is what is left of its number when the shard count is taken out of it as
/// often as it goes in.
pub proof fn law_modulo_partition_leaves_the_remainder(
    hosts: Seq<HostId>,
    num_shards: u32,
    host: HostId,
)
    requires
        num_shards != 0,
        hosts.contains(host),
    ensures
        ({
            let shard = modulo_partition(hosts, num_shards)[host.0].0;
            &&& shard < num_shards
            &&& exists|q: int| 0 <= q && #[trigger] (q * num_shards) + shard == host.0
        }),
{
    let n = num_shards as int;
    assert(HostId(host.0) == host);
    vstd::arithmetic::div_mod::lemma_fundamental_div_mod(host.0 as int, n);
    assert(n * (host.0 as int / n) == (host.0 as int / n) * n) by (nonlinear_arith);
    assert(0 <= host.0 as int / n) by {
        vstd::arithmetic::div_mod::lemma_div_pos_is_pos(host.0 as int, n);
    }
    let q = host.0 as int / n;
    assert((q * num_shards) + modulo_partition(hosts, num_shards)[host.0].0 == host.0);
}

/// Hosts whose numbers differ by the shard count share a shard, and with more than one shard
/// neighbouring hosts do not: hosts are dealt out in turn.
pub proof fn law_modulo_partition_deals_in_turn(
    hosts: Seq<HostId>,
    num_shards: u32,
    a: HostId,
    b: HostId,
)
    requires
        num_shards != 0,
        hosts.contains(a),
        hosts.contains(b),
    ensures
        b.0 == a.0 + num_shards ==> modulo_partition(hosts, num_shards)[a.0]
            == modulo_partition(hosts, num_shards)[b.0],
        b.0 == a.0 + 1 && num_shards > 1 ==> modulo_partition(hosts, num_shards)[a.0]
            != modulo_partition(hosts, num_shards)[b.0],
        b.0 == a.0 + 1 && modulo_partition(hosts, num_shards)[a.0].0 + 1 < num_shards
            ==> modulo_partition(hosts, num_shards)[b.0].0 == modulo_partition(
            hosts,
            num_shards,
        )[a.0].0 + 1,
        a.0 == 0 ==> modulo_partition(hosts, num_shards)[a.0].0 == 0,
{
    let n = num_shards as int;
    let x = a.0 as int;
    assert(HostId(a.0) == a);
    assert(HostId(b.0) == b);
    vstd::arithmetic::div_mod::lemma_mod_add_multiples_vanish(x, n);
    assert((x + n) % n == x % n);
    vstd::arithmetic::div_mod::lemma_fundamental_div_mod(x, n);
    vstd::arithmetic::div_mod::lemma_fundamental_div_mod(x + 1, n);
    let q = x / n;
    let r = x % n;
    if r + 1 < n {
        vstd::arithmetic::div_mod::lemma_fundamental_div_mod_converse(x + 1, n, q, r + 1);
    } else {
        assert(x + 1 == (q + 1) * n + 0) by (nonlinear_arith)
            requires
                x == n * q + r,
                r + 1 == n,
        ;
        vstd::arithmetic::div_mod::lemma_fundamental_div_mod_converse(x + 1, n, q + 1, 0);
    }
}

} // verus!
