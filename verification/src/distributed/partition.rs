//! Which shard owns which host.

use std::collections::HashMap;

use vstd::prelude::*;
use vstd::std_specs::hash::group_hash_axioms;

use crate::distributed::error::PartitionMapError;
use crate::ids::{DEFAULT_SHARD_NUMBER, HostId, ShardId};
use crate::transport::partition::{modulo_mapping, modulo_partition};

verus! {

/// Maps each host to the shard that owns it.
#[derive(Debug)]
pub struct PartitionMap {
    host_to_shard: HashMap<u32, ShardId>,
}

impl View for PartitionMap {
    type V = Map<u32, ShardId>;

    closed spec fn view(&self) -> Map<u32, ShardId> {
        self.host_to_shard@
    }
}

impl Clone for PartitionMap {
    fn clone(&self) -> (copy: Self)
        ensures
            copy@ == self@,
    {
        PartitionMap { host_to_shard: self.host_to_shard.clone() }
    }
}

/// Every host of the list on the default shard.
pub open spec fn all_on_default(hosts: Seq<HostId>) -> Map<u32, ShardId> {
    Map::new(|host: u32| hosts.contains(HostId(host)), |host: u32| ShardId(DEFAULT_SHARD_NUMBER))
}

/// The hosts of the list with their shards. Where a host is listed more than once, the last entry
/// counts.
pub open spec fn assigned(pairs: Seq<(HostId, ShardId)>) -> Map<u32, ShardId>
    decreases pairs.len(),
{
    if pairs.len() == 0 {
        Map::empty()
    } else {
        assigned(pairs.drop_last()).insert(pairs.last().0.0, pairs.last().1)
    }
}

impl PartitionMap {
    /// The map of a run that is not split: the default shard owns every host.
    pub fn all_local(host_ids: &[HostId]) -> (map: Self)
        ensures
            map@ == all_on_default(host_ids@),
    {
        let map = PartitionMap { host_to_shard: modulo_mapping(host_ids, 1) };
        assert(map@ =~= all_on_default(host_ids@));
        map
    }

    /// A map that was laid down host by host.
    pub fn from_host_shards(host_shards: &[(HostId, ShardId)]) -> (map: Self)
        ensures
            map@ == assigned(host_shards@),
    {
        broadcast use group_hash_axioms;

        let mut host_to_shard: HashMap<u32, ShardId> = HashMap::new();
        let mut i: usize = 0;
        assert(host_to_shard@ =~= assigned(host_shards@.take(0)));
        while i < host_shards.len()
            invariant
                i <= host_shards@.len(),
                host_to_shard@ == assigned(host_shards@.take(i as int)),
            decreases host_shards@.len() - i,
        {
            let (host, shard) = host_shards[i];
            host_to_shard.insert(host.0, shard);
            proof {
                let longer = host_shards@.take(i + 1);
                assert(longer.drop_last() =~= host_shards@.take(i as int));
                assert(longer.last() == host_shards@[i as int]);
            }
            i += 1;
        }
        assert(host_shards@.take(i as int) =~= host_shards@);
        PartitionMap { host_to_shard }
    }

    /// The default map of a split run: hosts are dealt out by their number modulo the shard count.
    pub fn by_host_id_modulo(host_ids: &[HostId], shard_count: u32) -> (map: Result<
        Self,
        PartitionMapError,
    >)
        ensures
            match map {
                Ok(m) => shard_count != 0 && m@ == modulo_partition(host_ids@, shard_count),
                Err(e) => shard_count == 0 && e == PartitionMapError::ZeroShardCount,
            },
            map matches Ok(m) ==> forall|i: int|
                0 <= i < host_ids@.len() ==> m@.contains_key((#[trigger] host_ids@[i]).0)
                    && m@[host_ids@[i].0].0 == host_ids@[i].0 % shard_count,
    {
        if shard_count == 0 {
            return Err(PartitionMapError::ZeroShardCount);
        }
        proof {
            assert forall|i: int| 0 <= i < host_ids@.len() implies host_ids@.contains(
                HostId((#[trigger] host_ids@[i]).0),
            ) by {
                assert(host_ids@[i] == HostId(host_ids@[i].0));
            }
        }
        Ok(PartitionMap { host_to_shard: modulo_mapping(host_ids, shard_count) })
    }

    /// The shard that owns a host, if the host is known.
    pub fn shard_for_host(&self, host_id: HostId) -> (shard: Option<ShardId>)
        ensures
            shard == (if self@.contains_key(host_id.0) {
                Some(self@[host_id.0])
            } else {
                None
            }),
    {
        broadcast use group_hash_axioms;

        match self.host_to_shard.get(&host_id.0) {
            Some(shard) => Some(*shard),
            None => None,
        }
    }

    /// Whether the current shard owns a host, if the host is known.
    pub fn is_host_local(&self, current_shard: ShardId, host_id: HostId) -> (local: Option<bool>)
        ensures
            local == (if self@.contains_key(host_id.0) {
                Some(self@[host_id.0] == current_shard)
            } else {
                None
            }),
    {
        match self.shard_for_host(host_id) {
            Some(shard) => Some(shard == current_shard),
            None => None,
        }
    }
}

/// Splitting a run into one shard leaves every host on the default shard.
pub proof fn law_one_shard_is_all_local(hosts: Seq<HostId>)
    ensures
        modulo_partition(hosts, 1) == all_on_default(hosts),
{
    assert(modulo_partition(hosts, 1) =~= all_on_default(hosts));
}

/// A map that was laid down host by host knows the listed hosts and no others.
pub proof fn law_assigned_hosts_are_the_listed_ones(pairs: Seq<(HostId, ShardId)>, host: HostId)
    ensures
        assigned(pairs).contains_key(host.0) <==> exists|i: int|
            0 <= i < pairs.len() && (#[trigger] pairs[i]).0 == host,
        assigned(pairs).contains_key(host.0) ==> exists|i: int|
            0 <= i < pairs.len() && #[trigger] pairs[i] == (host, assigned(pairs)[host.0]),
    decreases pairs.len(),
{
    if pairs.len() > 0 {
        let shorter = pairs.drop_last();
        law_assigned_hosts_are_the_listed_ones(shorter, host);
        if pairs.last().0 == host {
            assert(pairs[pairs.len() - 1].0 == host);
            assert(pairs[pairs.len() - 1] == (host, assigned(pairs)[host.0]));
        } else {
            assert(pairs.last().0.0 != host.0);
            if exists|i: int| 0 <= i < shorter.len() && (#[trigger] shorter[i]).0 == host {
                let i = choose|i: int| 0 <= i < shorter.len() && (#[trigger] shorter[i]).0 == host;
                assert(pairs[i].0 == host);
                let k = choose|k: int|
                    0 <= k < shorter.len() && #[trigger] shorter[k] == (
                        host,
                        assigned(shorter)[host.0],
                    );
                assert(pairs[k] == (host, assigned(pairs)[host.0]));
            }
            if exists|i: int| 0 <= i < pairs.len() && (#[trigger] pairs[i]).0 == host {
                let i = choose|i: int| 0 <= i < pairs.len() && (#[trigger] pairs[i]).0 == host;
                assert(i < shorter.len());
                assert(shorter[i].0 == host);
            }
        }
    }
}

/// Where a host is listed more than once, the last entry counts.
pub proof fn law_last_assignment_counts(pairs: Seq<(HostId, ShardId)>, i: int)
    requires
        0 <= i < pairs.len(),
        forall|j: int| i < j < pairs.len() ==> (#[trigger] pairs[j]).0 != pairs[i].0,
    ensures
        assigned(pairs).contains_key(pairs[i].0.0),
        assigned(pairs)[pairs[i].0.0] == pairs[i].1,
    decreases pairs.len(),
{
    if i < pairs.len() - 1 {
        let shorter = pairs.drop_last();
        assert(shorter[i] == pairs[i]);
        assert forall|j: int| i < j < shorter.len() implies (#[trigger] shorter[j]).0
            != shorter[i].0 by {
            assert(shorter[j] == pairs[j]);
        }
        law_last_assignment_counts(shorter, i);
        assert(pairs[pairs.len() - 1].0 != pairs[i].0);
    }
}

/// In a run that is not split every listed host is on shard 0, and no other host is known.
pub proof fn law_unsplit_run_is_on_shard_zero(hosts: Seq<HostId>, host: HostId)
    ensures
        all_on_default(hosts).contains_key(host.0) <==> hosts.contains(host),
        all_on_default(hosts).contains_key(host.0) ==> all_on_default(hosts)[host.0].0 == 0,
{
    assert(HostId(host.0) == host);
}

} // verus!
