//! The addresses of hosts.

use std::collections::{HashMap, HashSet};

use vstd::prelude::*;
use vstd::std_specs::hash::group_hash_axioms;
use vstd::string::*;

use crate::net::Ipv4Addr;
use crate::sim_config::error::ConfigError;
use crate::sim_config::hosts::HostInfo;
use crate::text::{decimal, push_decimal};

verus! {

/// The network 11.0.0.0, above which addresses are handed out.
pub const FIRST_NETWORK: u32 = 0x0b00_0000;

/// How many addresses can be handed out.
pub const USABLE_ADDRESSES: u32 = 4_078_305_280;

/// The addresses that can be handed out, in order: those above 11.0.0.0 whose last part is neither
/// 0 nor 255.
pub open spec fn usable_address(k: int) -> int {
    FIRST_NETWORK + 256 * (k / 254) + 1 + k % 254
}

/// Usable addresses are numbers of 32 bits, and each is listed once.
proof fn lemma_usable_addresses(j: int, k: int)
    requires
        0 <= j < k < USABLE_ADDRESSES,
    ensures
        0 <= usable_address(j) < usable_address(k) <= u32::MAX,
{
}

/// Which node each address in use belongs to.
#[derive(Debug)]
pub struct IpAssignment {
    nodes: HashMap<u32, u32>,
    next: u32,
}

impl View for IpAssignment {
    type V = Map<u32, u32>;

    closed spec fn view(&self) -> Map<u32, u32> {
        self.nodes@
    }
}

/// Whether the usable addresses below a place are all in use.
pub open spec fn in_use_below(map: Map<u32, u32>, k: int) -> bool {
    forall|j: int| 0 <= j < k ==> map.contains_key(#[trigger] usable_address(j) as u32)
}

/// Whether an address is the lowest usable one that is free.
pub open spec fn is_lowest_free(map: Map<u32, u32>, ip: u32) -> bool {
    exists|k: int|
        #![trigger usable_address(k)]
        0 <= k < USABLE_ADDRESSES && usable_address(k) == ip && !map.contains_key(ip)
            && in_use_below(map, k)
}

/// The lowest usable address that is free.
pub open spec fn lowest_free(map: Map<u32, u32>) -> u32 {
    choose|ip: u32| is_lowest_free(map, ip)
}

/// There is one lowest free address.
proof fn lemma_lowest_free_unique(map: Map<u32, u32>, a: u32, b: u32)
    requires
        is_lowest_free(map, a),
        is_lowest_free(map, b),
    ensures
        a == b,
{
    let j = choose|j: int|
        #![trigger usable_address(j)]
        0 <= j < USABLE_ADDRESSES && usable_address(j) == a && !map.contains_key(a)
            && in_use_below(map, j);
    let k = choose|k: int|
        #![trigger usable_address(k)]
        0 <= k < USABLE_ADDRESSES && usable_address(k) == b && !map.contains_key(b)
            && in_use_below(map, k);
    if j < k {
        assert(map.contains_key(usable_address(j) as u32));
    }
    if k < j {
        assert(map.contains_key(usable_address(k) as u32));
    }
}

/// The first usable addresses, as a set.
spec fn usable_set(n: nat) -> Set<u32>
    decreases n,
{
    if n == 0 {
        Set::empty()
    } else {
        usable_set((n - 1) as nat).insert(usable_address(n - 1) as u32)
    }
}

proof fn lemma_usable_set(n: nat)
    requires
        n <= USABLE_ADDRESSES,
    ensures
        usable_set(n).finite(),
        usable_set(n).len() == n,
        forall|ip: u32| #[trigger]
            usable_set(n).contains(ip) ==> exists|j: int|
                #![trigger usable_address(j)]
                0 <= j < n && usable_address(j) == ip,
    decreases n,
{
    if n > 0 {
        let last = n - 1;
        lemma_usable_set(last as nat);
        if last > 0 {
            lemma_usable_addresses(0, last);
        }
        assert(0 <= usable_address(last) <= u32::MAX);
        let ip = usable_address(last) as u32;
        if usable_set(last as nat).contains(ip) {
            let j = choose|j: int|
                #![trigger usable_address(j)]
                0 <= j < last && usable_address(j) == ip;
            lemma_usable_addresses(j, last);
        }
        assert forall|ip: u32| #[trigger] usable_set(n).contains(ip) implies exists|j: int|
            #![trigger usable_address(j)]
            0 <= j < n && usable_address(j) == ip by {
            if ip != usable_address(last) as u32 {
                assert(usable_set(last as nat).contains(ip));
                let j = choose|j: int|
                    #![trigger usable_address(j)]
                    0 <= j < last && usable_address(j) == ip;
                assert(usable_address(j) == ip);
            } else {
                assert(usable_address(last) == ip);
            }
        }
    }
}

/// As long as fewer addresses are in use than there are usable ones, one is free.
proof fn lemma_room(map: Map<u32, u32>)
    requires
        map.dom().finite(),
        map.dom().len() < USABLE_ADDRESSES,
    ensures
        !in_use_below(map, USABLE_ADDRESSES as int),
{
    if in_use_below(map, USABLE_ADDRESSES as int) {
        let all = usable_set(USABLE_ADDRESSES as nat);
        lemma_usable_set(USABLE_ADDRESSES as nat);
        assert(all.subset_of(map.dom())) by {
            assert forall|ip: u32| all.contains(ip) implies map.dom().contains(ip) by {
                let j = choose|j: int|
                    #![trigger usable_address(j)]
                    0 <= j < USABLE_ADDRESSES && usable_address(j) == ip;
                assert(map.contains_key(usable_address(j) as u32));
            }
        }
        vstd::set_lib::lemma_len_subset(all, map.dom());
    }
}

impl IpAssignment {
    /// The usable addresses below the place from which the search goes on are in use.
    pub closed spec fn wf(&self) -> bool {
        &&& self.next <= USABLE_ADDRESSES
        &&& in_use_below(self.nodes@, self.next as int)
    }

    /// No address is in use.
    pub fn new() -> (assignment: Self)
        ensures
            assignment.wf(),
            assignment@ == Map::<u32, u32>::empty(),
    {
        IpAssignment { nodes: HashMap::new(), next: 0 }
    }

    /// Gives an address to a node, unless it is in use.
    pub fn assign_ip(&mut self, node_id: u32, ip: Ipv4Addr) -> (assigned: bool)
        requires
            old(self).wf(),
        ensures
            final(self).wf(),
            assigned == !old(self)@.contains_key(ip.0),
            final(self)@ == (if assigned {
                old(self)@.insert(ip.0, node_id)
            } else {
                old(self)@
            }),
    {
        broadcast use group_hash_axioms;

        if self.nodes.contains_key(&ip.0) {
            return false;
        }
        self.nodes.insert(ip.0, node_id);
        true
    }

    /// Gives the lowest usable address that is free to a node.
    pub fn assign(&mut self, node_id: u32) -> (ip: Ipv4Addr)
        requires
            old(self).wf(),
            old(self)@.dom().len() < USABLE_ADDRESSES,
        ensures
            final(self).wf(),
            ip.0 == lowest_free(old(self)@),
            is_lowest_free(old(self)@, ip.0),
            final(self)@ == old(self)@.insert(ip.0, node_id),
    {
        broadcast use group_hash_axioms;

        proof {
            lemma_room(self.nodes@);
        }
        let mut k: u32 = self.next;
        while k < USABLE_ADDRESSES
            invariant_except_break
                k <= USABLE_ADDRESSES,
                self.nodes@ == old(self).nodes@,
                in_use_below(self.nodes@, k as int),
                !in_use_below(self.nodes@, USABLE_ADDRESSES as int),
            ensures
                self.nodes@ == old(self).nodes@,
                k < USABLE_ADDRESSES,
                in_use_below(self.nodes@, k as int),
                !self.nodes@.contains_key(usable_address(k as int) as u32),
            decreases USABLE_ADDRESSES - k,
        {
            if !self.nodes.contains_key(&(FIRST_NETWORK + 256 * (k / 254) + 1 + k % 254)) {
                break;
            }
            k += 1;
        }
        let ip: u32 = FIRST_NETWORK + 256 * (k / 254) + 1 + k % 254;
        proof {
            assert(usable_address(k as int) == ip);
            assert(is_lowest_free(old(self)@, ip));
            lemma_lowest_free_unique(old(self)@, ip, lowest_free(old(self)@));
        }
        self.nodes.insert(ip, node_id);
        self.next = k;
        Ipv4Addr(ip)
    }

    /// The nodes that have an address.
    pub fn get_nodes(&self) -> (nodes: HashSet<u32>)
        ensures
            nodes@ == self@.values(),
    {
        broadcast use group_hash_axioms;

        let mut list: Vec<u32> = Vec::new();
        for node in it: self.nodes.values()
            invariant
                it.seq().unref().to_set() == self@.values(),
                list@ == it.seq().unref().take(it.index()),
                it.index() == it.seq().len() ==> list@ == it.seq().unref(),
        {
            list.push(*node);
        }
        assert(list@.to_set() == self@.values());
        let mut nodes: HashSet<u32> = HashSet::new();
        let mut i: usize = 0;
        assert(nodes@ =~= list@.take(0).to_set());
        while i < list.len()
            invariant
                i <= list@.len(),
                nodes@ == list@.take(i as int).to_set(),
            decreases list@.len() - i,
        {
            nodes.insert(list[i]);
            proof {
                let before = list@.take(i as int);
                let after = list@.take(i + 1);
                assert(after =~= before.push(list@[i as int]));
                assert(after.to_set() =~= before.to_set().insert(list@[i as int])) by {
                    broadcast use vstd::seq_lib::group_seq_properties;

                }
            }
            i += 1;
        }
        assert(list@.take(i as int) =~= list@);
        nodes
    }
}

/// What is said to a configured address that is in use.
pub open spec fn ip_failure_text(host: HostInfo, ip: Ipv4Addr) -> Seq<char> {
    "Failed to assign IP address "@ + ip.dotted() + " for host '"@ + host.name@ + "' to node '"@
        + decimal(host.network_node_id as nat) + "'"@
}

/// Why a configured address that is in use is refused.
pub open spec fn ip_in_use_text() -> Seq<char> {
    "the IP address has already been assigned"@
}

/// The configured addresses of the first `n` hosts with their nodes. Where an address comes twice,
/// the first host has it.
pub open spec fn configured_ips(hosts: Seq<HostInfo>, n: int) -> Map<u32, u32>
    decreases n,
{
    if n <= 0 {
        Map::empty()
    } else {
        let earlier = configured_ips(hosts, n - 1);
        match hosts[n - 1].ip_addr {
            Some(ip) => if earlier.contains_key(ip.0) {
                earlier
            } else {
                earlier.insert(ip.0, hosts[n - 1].network_node_id)
            },
            None => earlier,
        }
    }
}

/// Whether a host has a configured address that an earlier host has.
pub open spec fn ip_is_taken(hosts: Seq<HostInfo>, i: int) -> bool {
    hosts[i].ip_addr matches Some(ip) && configured_ips(hosts, i).contains_key(ip.0)
}

/// Whether a host is the first whose configured address an earlier host has.
pub open spec fn ip_clashes_first(hosts: Seq<HostInfo>, i: int) -> bool {
    &&& 0 <= i < hosts.len()
    &&& ip_is_taken(hosts, i)
    &&& forall|j: int| 0 <= j < i ==> !#[trigger] ip_is_taken(hosts, j)
}

/// The addresses in use and the hosts with their addresses, after the first `n` hosts without a
/// configured address were each given the lowest free one.
pub open spec fn filled_ips(hosts: Seq<HostInfo>, map: Map<u32, u32>, n: int) -> (
    Map<u32, u32>,
    Seq<HostInfo>,
)
    decreases n,
{
    if n <= 0 {
        (map, Seq::empty())
    } else {
        let (earlier, done) = filled_ips(hosts, map, n - 1);
        let host = hosts[n - 1];
        match host.ip_addr {
            Some(_) => (earlier, done.push(host)),
            None => {
                let ip = lowest_free(earlier);
                (
                    earlier.insert(ip, host.network_node_id),
                    done.push(HostInfo { ip_addr: Some(Ipv4Addr(ip)), ..host }),
                )
            },
        }
    }
}

fn ip_failure(host: &HostInfo, ip: Ipv4Addr) -> (error: ConfigError)
    ensures
        error@ == seq![ip_failure_text(*host, ip), ip_in_use_text()],
{
    let mut text = String::new();
    text.append("Failed to assign IP address ");
    ip.push_dotted(&mut text);
    text.append(" for host '");
    text.append(host.name.as_str());
    text.append("' to node '");
    push_decimal(&mut text, host.network_node_id as u64);
    text.append("'");
    assert(text@ =~= ip_failure_text(*host, ip));
    let error = ConfigError::new("the IP address has already been assigned".to_owned()).context(
        text,
    );
    assert(error@ =~= seq![ip_failure_text(*host, ip), ip_in_use_text()]);
    error
}

/// How many of the first `n` hosts have a configured address.
spec fn configured_count(hosts: Seq<HostInfo>, n: int) -> int
    decreases n,
{
    if n <= 0 {
        0
    } else {
        configured_count(hosts, n - 1) + if hosts[n - 1].ip_addr is Some {
            1int
        } else {
            0
        }
    }
}

proof fn lemma_configured_ips_size(hosts: Seq<HostInfo>, n: int)
    requires
        0 <= n <= hosts.len(),
    ensures
        configured_ips(hosts, n).dom().finite(),
        configured_ips(hosts, n).dom().len() <= configured_count(hosts, n),
    decreases n,
{
    if n > 0 {
        lemma_configured_ips_size(hosts, n - 1);
    }
}

proof fn lemma_configured_count_grows(hosts: Seq<HostInfo>, m: int, n: int)
    requires
        0 <= m <= n <= hosts.len(),
    ensures
        configured_count(hosts, m) <= configured_count(hosts, n) <= configured_count(hosts, m) + n
            - m,
    decreases n,
{
    if m < n {
        lemma_configured_count_grows(hosts, m, n - 1);
    }
}

/// The addresses in use after the first `n` hosts were filled.
proof fn lemma_filled_size(hosts: Seq<HostInfo>, map: Map<u32, u32>, n: int)
    requires
        0 <= n <= hosts.len(),
        map.dom().finite(),
    ensures
        filled_ips(hosts, map, n).0.dom().finite(),
        filled_ips(hosts, map, n).0.dom().len() <= map.dom().len() + n - configured_count(hosts, n),
        filled_ips(hosts, map, n).1.len() == n,
    decreases n,
{
    if n > 0 {
        lemma_filled_size(hosts, map, n - 1);
    }
}

/// While a host without a configured address waits, an address is free.
proof fn lemma_room_for_next(hosts: Seq<HostInfo>, n: int)
    requires
        0 <= n < hosts.len() <= USABLE_ADDRESSES,
        hosts[n].ip_addr is None,
    ensures
        ({
            let map = filled_ips(hosts, configured_ips(hosts, hosts.len() as int), n).0;
            map.dom().finite() && map.dom().len() < USABLE_ADDRESSES
        }),
{
    let total = hosts.len() as int;
    lemma_configured_ips_size(hosts, total);
    lemma_filled_size(hosts, configured_ips(hosts, total), n);
    lemma_configured_count_grows(hosts, n + 1, total);
}

/// Whether the addresses in use with the hosts, or a failure, are what the configured addresses of
/// hosts come to.
pub open spec fn ips_are_assigned(
    assigned: Result<(IpAssignment, Vec<HostInfo>), ConfigError>,
    hosts: Seq<HostInfo>,
) -> bool {
    match assigned {
        Ok((assignment, list)) => {
            &&& forall|i: int| 0 <= i < hosts.len() ==> !#[trigger] ip_is_taken(hosts, i)
            &&& (assignment@, list@) == filled_ips(
                hosts,
                configured_ips(hosts, hosts.len() as int),
                hosts.len() as int,
            )
            &&& assignment.wf()
        },
        Err(e) => exists|i: int| #[trigger]
            ip_clashes_first(hosts, i) && e@ == seq![
                ip_failure_text(hosts[i], hosts[i].ip_addr->0),
                ip_in_use_text(),
            ],
    }
}

/// Gives every host an address: first those with a configured one, then the others, which get the
/// lowest free ones in the order of the hosts.
pub fn assign_ips(hosts: Vec<HostInfo>) -> (assigned: Result<
    (IpAssignment, Vec<HostInfo>),
    ConfigError,
>)
    requires
        hosts@.len() <= USABLE_ADDRESSES,
    ensures
        ips_are_assigned(assigned, hosts@),
{
    broadcast use group_hash_axioms;

    let ghost whole = hosts@;
    let mut assignment = IpAssignment::new();
    let mut i: usize = 0;
    while i < hosts.len()
        invariant
            i <= hosts@.len(),
            hosts@ == whole,
            assignment.wf(),
            assignment@ == configured_ips(whole, i as int),
            forall|j: int| 0 <= j < i ==> !#[trigger] ip_is_taken(whole, j),
        decreases hosts@.len() - i,
    {
        if let Some(ip) = hosts[i].ip_addr {
            if !assignment.assign_ip(hosts[i].network_node_id, ip) {
                proof {
                    assert(ip_is_taken(whole, i as int));
                    assert(ip_clashes_first(whole, i as int));
                }
                return Err(ip_failure(&hosts[i], ip));
            }
        }
        assert(!ip_is_taken(whole, i as int));
        i += 1;
    }
    let ghost configured = configured_ips(whole, whole.len() as int);
    let mut list: Vec<HostInfo> = Vec::new();
    let ghost mut done: int = 0;
    for host in it: hosts
        invariant
            it.seq() == whole,
            it.index() == done,
            whole.len() <= USABLE_ADDRESSES,
            configured == configured_ips(whole, whole.len() as int),
            assignment.wf(),
            (assignment@, list@) == filled_ips(whole, configured, done),
    {
        assert(host == whole[done]);
        let ghost before = list@;
        let mut host = host;
        if host.ip_addr.is_none() {
            proof {
                lemma_room_for_next(whole, done);
            }
            host.ip_addr = Some(assignment.assign(host.network_node_id));
        }
        list.push(host);
        proof {
            let (earlier, earlier_hosts) = filled_ips(whole, configured, done);
            assert(earlier_hosts == before);
            done = done + 1;
        }
    }
    Ok((assignment, list))
}

/// Where an address is free, there is a lowest one.
proof fn lemma_lowest_free_exists(map: Map<u32, u32>)
    requires
        map.dom().finite(),
        map.dom().len() < USABLE_ADDRESSES,
    ensures
        is_lowest_free(map, lowest_free(map)),
{
    lemma_room(map);
    let k = choose|k: int|
        0 <= k < USABLE_ADDRESSES && !map.contains_key(#[trigger] usable_address(k) as u32);
    lemma_least_free_below(map, k);
}

proof fn lemma_least_free_below(map: Map<u32, u32>, k: int)
    requires
        0 <= k < USABLE_ADDRESSES,
        !map.contains_key(usable_address(k) as u32),
    ensures
        is_lowest_free(map, lowest_free(map)),
    decreases k,
{
    if in_use_below(map, k) {
        if k > 0 {
            lemma_usable_addresses(0, k);
        }
        assert(usable_address(k) == usable_address(k) as u32);
        assert(is_lowest_free(map, usable_address(k) as u32));
    } else {
        let j = choose|j: int|
            0 <= j < k && !map.contains_key(#[trigger] usable_address(j) as u32);
        lemma_least_free_below(map, j);
    }
}

/// Whether a host's address is in use for its node.
pub open spec fn has_its_address(host: HostInfo, map: Map<u32, u32>) -> bool {
    host.ip_addr matches Some(ip) && map.contains_key(ip.0) && map[ip.0] == host.network_node_id
}

proof fn lemma_configured_address_kept(hosts: Seq<HostInfo>, i: int, n: int)
    requires
        0 <= i < n <= hosts.len(),
        hosts[i].ip_addr is Some,
        forall|j: int| 0 <= j < hosts.len() ==> !#[trigger] ip_is_taken(hosts, j),
    ensures
        has_its_address(hosts[i], configured_ips(hosts, n)),
    decreases n,
{
    assert(!ip_is_taken(hosts, n - 1));
    if i < n - 1 {
        lemma_configured_address_kept(hosts, i, n - 1);
    }
}

/// After the first `n` hosts were filled, each of them and each host with a configured address has
/// its address, and the addresses of the first `n` hosts differ from those and from each other.
proof fn lemma_filled_addresses(hosts: Seq<HostInfo>, n: int)
    requires
        0 <= n <= hosts.len() <= USABLE_ADDRESSES,
        forall|j: int| 0 <= j < hosts.len() ==> !#[trigger] ip_is_taken(hosts, j),
    ensures
        ({
            let (map, done) = filled_ips(hosts, configured_ips(hosts, hosts.len() as int), n);
            &&& done.len() == n
            &&& forall|i: int| 0 <= i < n ==> has_its_address(#[trigger] done[i], map)
            &&& forall|i: int|
                0 <= i < hosts.len() && (#[trigger] hosts[i]).ip_addr is Some ==> has_its_address(
                    hosts[i],
                    map,
                )
            &&& forall|i: int, j: int|
                0 <= i < j < n ==> (#[trigger] done[i]).ip_addr != (#[trigger] done[j]).ip_addr
            &&& forall|i: int, j: int|
                0 <= i < n && n <= j < hosts.len() && (#[trigger] hosts[j]).ip_addr is Some ==> (
                #[trigger] done[i]).ip_addr != hosts[j].ip_addr
        }),
    decreases n,
{
    let total = hosts.len() as int;
    let first = configured_ips(hosts, total);
    if n == 0 {
        assert forall|i: int|
            0 <= i < hosts.len() && (
            #[trigger] hosts[i]).ip_addr is Some implies has_its_address(hosts[i], first) by {
            lemma_configured_address_kept(hosts, i, total);
        }
    } else {
        let last = n - 1;
        lemma_filled_addresses(hosts, last);
        let (earlier, earlier_hosts) = filled_ips(hosts, first, last);
        let (map, done) = filled_ips(hosts, first, n);
        assert(forall|i: int| 0 <= i < last ==> done[i] == earlier_hosts[i]);
        let host = hosts[last];
        match host.ip_addr {
            Some(ip) => {
                assert(has_its_address(host, earlier));
                assert forall|j: int|
                    n <= j < hosts.len() && (
                    #[trigger] hosts[j]).ip_addr is Some implies hosts[j].ip_addr
                    != host.ip_addr by {
                    lemma_configured_address_kept(hosts, last, j);
                    assert(!ip_is_taken(hosts, j));
                }
            },
            None => {
                lemma_room_for_next(hosts, last);
                lemma_lowest_free_exists(earlier);
                let ip = lowest_free(earlier);
                assert(!earlier.contains_key(ip));
                assert forall|i: int| 0 <= i < n implies has_its_address(
                    #[trigger] done[i],
                    map,
                ) by {
                    if i < last {
                        assert(has_its_address(earlier_hosts[i], earlier));
                    }
                }
                assert forall|i: int|
                    0 <= i < hosts.len() && (
                    #[trigger] hosts[i]).ip_addr is Some implies has_its_address(
                    hosts[i],
                    map,
                ) && hosts[i].ip_addr != Some(Ipv4Addr(ip)) by {
                    assert(has_its_address(hosts[i], earlier));
                }
                assert forall|i: int| 0 <= i < last implies (#[trigger] done[i]).ip_addr != Some(
                    Ipv4Addr(ip),
                ) by {
                    assert(has_its_address(earlier_hosts[i], earlier));
                }
            },
        }
    }
}

/// When all hosts were given addresses, each has one that belongs to its node, and no two hosts
/// share one. Configured addresses are kept.
pub proof fn law_hosts_have_distinct_addresses(
    hosts: Seq<HostInfo>,
    map: Map<u32, u32>,
    filled: Seq<HostInfo>,
)
    requires
        hosts.len() <= USABLE_ADDRESSES,
        forall|j: int| 0 <= j < hosts.len() ==> !#[trigger] ip_is_taken(hosts, j),
        (map, filled) == filled_ips(
            hosts,
            configured_ips(hosts, hosts.len() as int),
            hosts.len() as int,
        ),
    ensures
        filled.len() == hosts.len(),
        forall|i: int| 0 <= i < filled.len() ==> has_its_address(#[trigger] filled[i], map),
        forall|i: int, j: int|
            0 <= i < j < filled.len() ==> (#[trigger] filled[i]).ip_addr != (
            #[trigger] filled[j]).ip_addr,
        forall|i: int|
            0 <= i < filled.len() ==> #[trigger] filled[i] == (HostInfo {
                ip_addr: filled[i].ip_addr,
                ..hosts[i]
            }) && (hosts[i].ip_addr is Some ==> filled[i].ip_addr == hosts[i].ip_addr),
{
    lemma_filled_addresses(hosts, hosts.len() as int);
    lemma_filled_keeps(hosts, configured_ips(hosts, hosts.len() as int), hosts.len() as int);
}

proof fn lemma_filled_keeps(hosts: Seq<HostInfo>, map: Map<u32, u32>, n: int)
    requires
        0 <= n <= hosts.len(),
    ensures
        ({
            let done = filled_ips(hosts, map, n).1;
            &&& done.len() == n
            &&& forall|i: int|
                0 <= i < n ==> #[trigger] done[i] == (HostInfo {
                    ip_addr: done[i].ip_addr,
                    ..hosts[i]
                }) && (hosts[i].ip_addr is Some ==> done[i].ip_addr == hosts[i].ip_addr)
        }),
    decreases n,
{
    if n > 0 {
        lemma_filled_keeps(hosts, map, n - 1);
    }
}

/// Usable addresses lie above 11.0.0.0, their last part is neither 0 nor 255, they ascend, and every
/// such address is one of them.
pub proof fn law_usable_addresses(k: int, address: int)
    requires
        0 <= k < USABLE_ADDRESSES,
        0x0b00_0000 < address <= 0xffff_fffe,
        1 <= address % 256 <= 254,
    ensures
        0x0b00_0000 < usable_address(k) <= 0xffff_fffe,
        1 <= usable_address(k) % 256 <= 254,
        usable_address(k) < usable_address(k + 1),
        exists|j: int| 0 <= j < USABLE_ADDRESSES && #[trigger] usable_address(j) == address,
        usable_address(0) == 0x0b00_0001,
{
    let j = 254 * ((address - 0x0b00_0000) / 256) + address % 256 - 1;
    assert(usable_address(j) == address);
    assert(0 <= j < USABLE_ADDRESSES);
}

/// An address that is handed out was free and can be used, and every address below it that can be
/// used was taken.
pub proof fn law_lowest_address_is_handed_out(map: Map<u32, u32>, ip: u32, lower: u32)
    requires
        is_lowest_free(map, ip),
        0x0b00_0000 < lower < ip,
        1 <= lower % 256 <= 254,
    ensures
        !map.contains_key(ip),
        0x0b00_0000 < ip,
        1 <= ip % 256 <= 254,
        map.contains_key(lower),
{
    let k = choose|k: int|
        #![trigger usable_address(k)]
        0 <= k < USABLE_ADDRESSES && usable_address(k) == ip && !map.contains_key(ip)
            && in_use_below(map, k);
    law_usable_addresses(k, lower as int);
    let j = choose|j: int| 0 <= j < USABLE_ADDRESSES && #[trigger] usable_address(j) == lower;
    if k < j {
        lemma_usable_addresses(k, j);
    }
    assert(j < k);
    assert(map.contains_key(usable_address(j) as u32));
}

/// A configured address is taken if and only if an earlier host is configured with it.
pub proof fn law_address_is_taken_by_an_earlier_host(hosts: Seq<HostInfo>, i: int)
    requires
        0 <= i < hosts.len(),
    ensures
        ip_is_taken(hosts, i) <==> hosts[i].ip_addr is Some && exists|j: int|
            0 <= j < i && (#[trigger] hosts[j]).ip_addr == hosts[i].ip_addr,
{
    if let Some(ip) = hosts[i].ip_addr {
        lemma_configured_ips_are_configured(hosts, ip, i);
    }
}

proof fn lemma_configured_ips_are_configured(hosts: Seq<HostInfo>, ip: Ipv4Addr, n: int)
    requires
        0 <= n <= hosts.len(),
    ensures
        configured_ips(hosts, n).contains_key(ip.0) <==> exists|j: int|
            0 <= j < n && (#[trigger] hosts[j]).ip_addr == Some(ip),
    decreases n,
{
    if n > 0 {
        lemma_configured_ips_are_configured(hosts, ip, n - 1);
        if hosts[n - 1].ip_addr == Some(ip) {
            assert(hosts[n - 1].ip_addr == Some(ip));
        }
        if exists|j: int| 0 <= j < n && (#[trigger] hosts[j]).ip_addr == Some(ip) {
            let j = choose|j: int| 0 <= j < n && (#[trigger] hosts[j]).ip_addr == Some(ip);
            if j < n - 1 {
                assert(hosts[j].ip_addr == Some(ip));
            }
        }
    }
}

/// Giving a host an address changes nothing else of it, and a configured address stays.
pub proof fn law_addresses_are_all_that_changes(hosts: Seq<HostInfo>, map: Map<u32, u32>, i: int)
    requires
        0 <= i < hosts.len(),
    ensures
        ({
            let filled = filled_ips(hosts, map, hosts.len() as int).1;
            &&& filled.len() == hosts.len()
            &&& filled[i] == (HostInfo { ip_addr: filled[i].ip_addr, ..hosts[i] })
            &&& filled[i].ip_addr is Some
            &&& hosts[i].ip_addr is Some ==> filled[i].ip_addr == hosts[i].ip_addr
        }),
{
    lemma_filled_keeps(hosts, map, hosts.len() as int);
    lemma_filled_have_addresses(hosts, map, hosts.len() as int);
}

proof fn lemma_filled_have_addresses(hosts: Seq<HostInfo>, map: Map<u32, u32>, n: int)
    requires
        0 <= n <= hosts.len(),
    ensures
        filled_ips(hosts, map, n).1.len() == n,
        forall|i: int| 0 <= i < n ==> (#[trigger] filled_ips(hosts, map, n).1[i]).ip_addr is Some,
    decreases n,
{
    if n > 0 {
        lemma_filled_have_addresses(hosts, map, n - 1);
    }
}

/// Addresses are assigned exactly where no address is configured for two hosts.
pub proof fn law_addresses_are_assigned_unless_two_hosts_share_one(
    assigned: Result<(IpAssignment, Vec<HostInfo>), ConfigError>,
    hosts: Seq<HostInfo>,
)
    requires
        ips_are_assigned(assigned, hosts),
    ensures
        assigned is Ok <==> (forall|i: int, j: int|
            0 <= i < j < hosts.len() && (#[trigger] hosts[j]).ip_addr is Some ==> (
            #[trigger] hosts[i]).ip_addr != hosts[j].ip_addr),
{
    if assigned is Ok {
        assert forall|i: int, j: int|
            0 <= i < j < hosts.len() && (#[trigger] hosts[j]).ip_addr is Some implies (
        #[trigger] hosts[i]).ip_addr != hosts[j].ip_addr by {
            law_address_is_taken_by_an_earlier_host(hosts, j);
            assert(!ip_is_taken(hosts, j));
        }
    } else {
        let j = choose|j: int| #[trigger] ip_clashes_first(hosts, j);
        law_address_is_taken_by_an_earlier_host(hosts, j);
        let i = choose|i: int| 0 <= i < j && (#[trigger] hosts[i]).ip_addr == hosts[j].ip_addr;
        assert(hosts[i].ip_addr == hosts[j].ip_addr);
    }
}

/// What is said to a host whose address is in use.
pub proof fn law_what_is_said_of_addresses(host: HostInfo, ip: Ipv4Addr)
    ensures
        ip_failure_text(host, ip) == "Failed to assign IP address "@ + ip.dotted() + " for host '"@
            + host.name@ + "' to node '"@ + decimal(host.network_node_id as nat) + "'"@,
        ip_in_use_text() == "the IP address has already been assigned"@,
{
}

} // verus!
