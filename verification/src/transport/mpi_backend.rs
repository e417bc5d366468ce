//! The exchange over MPI collectives, apart from the calls into the MPI library: one rank runs one
//! shard, and rank numbers are shard numbers.

use vstd::prelude::*;
use vstd::string::*;

use crate::bytes::{contents, copy_range, joined};
use crate::ids::{HostId, ShardId};
use crate::sorting::{
    is_sorted_version, is_stable_rearrangement, law_rearranging_keeps_the_items,
    law_sorting_keeps_the_items, lemma_picked_places, lemma_rearrangements_join,
    lemma_sorting_after_rearranging, lemma_sorting_rearranges, rearranges, sort_by_order_key, sorts,
};
use crate::text::{decimal, push_decimal, push_signed_decimal, signed_decimal};
use crate::time::{EMUTIME_MAX, EMUTIME_SIMULATION_START, EmulatedTime, SIMTIME_MAX};
use crate::transport::error::TransportError;
use crate::transport::event::{
    EventModel, MAX_BATCH_EVENTS, RemotePacketEvent, after_start, batch_bytes, batch_is_carried,
    batch_times_in_range, event_fits, event_is_carried, event_models,
    law_batch_is_read_where_it_is_carried, law_batch_round_trip, lemma_sorted_event_models,
    parse_batch,
};
use crate::transport::exchange::{
    earliest, first_time, law_first_time_is_least, lemma_sorted_after_start,
};
use crate::transport::packet::PacketSerializationError;
use crate::transport::partition::PartitionMap;

verus! {

/// What is said to a failed call into the MPI library.
pub open spec fn mpi_error_message(rc: i32, context: Seq<char>) -> Seq<char> {
    "MPI error in "@ + context + ": code "@ + signed_decimal(rc as int)
}

/// Turns the return code of a call into the MPI library into a result. Zero is success.
pub fn check_mpi(rc: i32, context: &str) -> (checked: Result<(), TransportError>)
    ensures
        match checked {
            Ok(()) => rc == 0,
            Err(e) => rc != 0 && e@ == mpi_error_message(rc, context@),
        },
{
    if rc == 0 {
        Ok(())
    } else {
        let mut text = String::new();
        text.append("MPI error in ");
        text.append(context);
        text.append(": code ");
        push_signed_decimal(&mut text, rc as i64);
        assert(text@ =~= mpi_error_message(rc, context@));
        Err(TransportError::new(text))
    }
}

/// What is said before all ranks are aborted.
pub fn fatal_message(context: &str, error: &TransportError) -> (text: String)
    ensures
        text@ == "Fatal MPI error ("@ + context@ + "): "@ + error@,
{
    let mut text = String::new();
    text.append("Fatal MPI error (");
    text.append(context);
    text.append("): ");
    text.append(error.message.as_str());
    assert(text@ =~= "Fatal MPI error ("@ + context@ + "): "@ + error@);
    text
}

/// The place of this process among all ranks, known once MPI is initialized.
#[derive(Clone, Copy, Debug, PartialEq, Eq, Structural)]
pub struct MpiUniverse {
    pub rank: i32,
    pub size: i32,
}

/// Rank and number of ranks, once MPI is initialized.
pub fn mpi_rank_size(universe: Option<&MpiUniverse>) -> (place: Result<(i32, i32), TransportError>)
    requires
        universe is Some,
    ensures
        place matches Ok((rank, size)) && rank == universe->0.rank && size == universe->0.size,
{
    let u = universe.unwrap();
    Ok((u.rank, u.size))
}

/// Barriers and reductions over all ranks.
#[derive(Debug)]
pub struct MpiSynchronizer;

/// The number that stands for a next-event time in the reduction: nanoseconds since the start of
/// the simulation as a signed number, and the highest number for the latest instant. Times whose
/// nanoseconds do not fit a positive number wrap around to negative ones.
pub open spec fn reduced_number(time: EmulatedTime) -> int {
    let nanos = time.0 - EMUTIME_SIMULATION_START;
    if time.0 == EMUTIME_MAX {
        i64::MAX as int
    } else if nanos <= i64::MAX {
        nanos
    } else {
        nanos - 0x1_0000_0000_0000_0000
    }
}

/// The nanoseconds since the start of the simulation that a reduced number stands for, read as an
/// unsigned number.
pub open spec fn reduced_nanos(number: int) -> int {
    if number < 0 {
        number + 0x1_0000_0000_0000_0000
    } else {
        number
    }
}

/// The time that a reduced number stands for.
pub open spec fn reduced_time(number: i64) -> EmulatedTime {
    if number == i64::MAX {
        EmulatedTime(EMUTIME_MAX)
    } else {
        EmulatedTime((EMUTIME_SIMULATION_START + reduced_nanos(number as int)) as u64)
    }
}

impl MpiSynchronizer {
    /// The synchronizer of a process for which MPI is initialized.
    pub fn new(universe: Option<&MpiUniverse>) -> (synchronizer: Result<Self, TransportError>)
        requires
            universe is Some,
        ensures
            synchronizer is Ok,
    {
        Ok(MpiSynchronizer)
    }

    /// What this rank puts into the reduction.
    pub fn local_number(local_min: EmulatedTime) -> (number: i64)
        requires
            EMUTIME_SIMULATION_START <= local_min.0,
        ensures
            number == reduced_number(local_min),
    {
        if local_min.0 == EMUTIME_MAX {
            return i64::MAX;
        }
        let nanos: u64 = local_min.duration_since(&EmulatedTime::simulation_start()).as_nanos();
        if nanos <= 0x7fff_ffff_ffff_ffff {
            nanos as i64
        } else {
            let above: u64 = nanos - 0x8000_0000_0000_0000;
            i64::MIN + above as i64
        }
    }

    /// What comes out of the reduction, as a time.
    pub fn global_time(number: i64) -> (time: EmulatedTime)
        requires
            number == i64::MAX || reduced_nanos(number as int) <= SIMTIME_MAX,
        ensures
            time == reduced_time(number),
    {
        if number == i64::MAX {
            EmulatedTime::max()
        } else if number >= 0 {
            EmulatedTime::at_simulation_nanos(number as u64)
        } else {
            let above: i64 = number - i64::MIN;
            EmulatedTime::at_simulation_nanos(above as u64 + 0x8000_0000_0000_0000)
        }
    }
}

/// Whether a time can be put into the reduction and come out again: the latest instant, or a time
/// whose nanoseconds since the start of the simulation are below the highest signed number.
pub open spec fn is_reducible(time: EmulatedTime) -> bool {
    EMUTIME_SIMULATION_START <= time.0 && (time.0 - EMUTIME_SIMULATION_START < i64::MAX || time.0
        == EMUTIME_MAX)
}

/// Whether a number is the minimum over the reduced numbers of all ranks.
pub open spec fn is_least_number(number: i64, times: Seq<EmulatedTime>) -> bool {
    &&& exists|i: int| 0 <= i < times.len() && number == reduced_number(#[trigger] times[i])
    &&& forall|i: int| 0 <= i < times.len() ==> number <= reduced_number(#[trigger] times[i])
}

/// The minimum over the reduced numbers of all ranks stands for the earliest of their times: it is
/// the time of one of them, and no rank has an earlier one. It is the latest instant where all
/// ranks have that, and nowhere else.
pub proof fn law_reduction_gives_the_earliest_time(times: Seq<EmulatedTime>, number: i64)
    requires
        forall|i: int| 0 <= i < times.len() ==> is_reducible(#[trigger] times[i]),
        is_least_number(number, times),
    ensures
        number == i64::MAX || reduced_nanos(number as int) <= SIMTIME_MAX,
        times.contains(reduced_time(number)),
        forall|i: int|
            0 <= i < times.len() ==> reduced_time(number).0 <= (#[trigger] times[i]).0,
        reduced_time(number).0 == EMUTIME_MAX <==> forall|i: int|
            0 <= i < times.len() ==> (#[trigger] times[i]).0 == EMUTIME_MAX,
{
    let k = choose|k: int| 0 <= k < times.len() && number == reduced_number(#[trigger] times[k]);
    assert(is_reducible(times[k]));
    assert(reduced_time(number) == times[k]);
    assert forall|i: int| 0 <= i < times.len() implies reduced_time(number).0 <= (
    #[trigger] times[i]).0 by {
        assert(is_reducible(times[i]));
    }
    if reduced_time(number).0 == EMUTIME_MAX {
        assert forall|i: int| 0 <= i < times.len() implies (#[trigger] times[i]).0
            == EMUTIME_MAX by {
            assert(is_reducible(times[i]));
        }
    }
}

/// What keeps an event from being sent, if anything does: an unknown receiving host, or an owner
/// that is no rank.
pub open spec fn event_fault(event: EventModel, map: Map<u32, ShardId>, size: nat) -> Option<
    Seq<char>,
> {
    let host = event.dst_host_id;
    if !map.contains_key(host.0) {
        Some("Unknown destination host "@ + host.shown())
    } else if map[host.0].0 >= size {
        Some(
            "Destination shard "@ + decimal(map[host.0].0 as nat) + " for host "@ + host.shown()
                + " exceeds MPI world size "@ + decimal(size),
        )
    } else {
        None
    }
}

/// The fault of the first event that has one.
pub open spec fn first_fault(events: Seq<EventModel>, map: Map<u32, ShardId>, size: nat) -> Option<
    Seq<char>,
>
    decreases events.len(),
{
    if events.len() == 0 {
        None
    } else {
        match first_fault(events.drop_last(), map, size) {
            Some(fault) => Some(fault),
            None => event_fault(events.last(), map, size),
        }
    }
}

/// Tells the events whose receiving host a rank owns.
pub open spec fn is_owned(map: Map<u32, ShardId>, rank: int) -> spec_fn(EventModel) -> bool {
    |e: EventModel| map.contains_key(e.dst_host_id.0) && map[e.dst_host_id.0].0 == rank
}

/// The events whose receiving host a rank owns.
pub open spec fn owned_by(events: Seq<EventModel>, map: Map<u32, ShardId>, rank: int) -> Seq<
    EventModel,
> {
    events.filter(is_owned(map, rank))
}

/// Whether bytes are what a rank is sent for a group of events: nothing for none, and else the
/// sorted batch.
pub open spec fn is_rank_batch(group: Seq<EventModel>, bytes: Seq<u8>) -> bool {
    if group.len() == 0 {
        bytes.len() == 0
    } else {
        exists|sorted: Seq<EventModel>| #[trigger]
            is_sorted_version(group, sorted) && bytes == batch_bytes(sorted)
    }
}

proof fn lemma_owned_by_push(
    events: Seq<EventModel>,
    event: EventModel,
    map: Map<u32, ShardId>,
    rank: int,
)
    ensures
        owned_by(events.push(event), map, rank) == (if map.contains_key(event.dst_host_id.0)
            && map[event.dst_host_id.0].0 == rank {
            owned_by(events, map, rank).push(event)
        } else {
            owned_by(events, map, rank)
        }),
{
    reveal(Seq::filter);
    assert(events.push(event).drop_last() =~= events);
}

proof fn lemma_owned_by_after_start(events: Seq<EventModel>, map: Map<u32, ShardId>, rank: int)
    requires
        after_start(events),
    ensures
        after_start(owned_by(events, map, rank)),
    decreases events.len(),
{
    reveal(Seq::filter);
    if events.len() > 0 {
        lemma_owned_by_after_start(events.drop_last(), map, rank);
    }
}

proof fn lemma_first_fault_of_prefix(
    events: Seq<EventModel>,
    map: Map<u32, ShardId>,
    size: nat,
    n: int,
)
    requires
        0 <= n <= events.len(),
        first_fault(events.take(n), map, size) is Some,
    ensures
        first_fault(events, map, size) == first_fault(events.take(n), map, size),
    decreases events.len() - n,
{
    if n < events.len() {
        assert(events.take(n + 1).drop_last() =~= events.take(n));
        lemma_first_fault_of_prefix(events, map, size, n + 1);
    } else {
        assert(events.take(n) =~= events);
    }
}

fn unknown_host_error(host: HostId) -> (error: TransportError)
    ensures
        error@ == "Unknown destination host "@ + host.shown(),
{
    let mut text = String::new();
    text.append("Unknown destination host ");
    host.push_shown(&mut text);
    assert(text@ =~= "Unknown destination host "@ + host.shown());
    TransportError::new(text)
}

fn rank_error(shard: ShardId, host: HostId, size: usize) -> (error: TransportError)
    ensures
        error@ == "Destination shard "@ + decimal(shard.0 as nat) + " for host "@ + host.shown()
            + " exceeds MPI world size "@ + decimal(size as nat),
{
    let mut text = String::new();
    text.append("Destination shard ");
    push_decimal(&mut text, shard.0 as u64);
    text.append(" for host ");
    host.push_shown(&mut text);
    text.append(" exceeds MPI world size ");
    push_decimal(&mut text, size as u64);
    assert(text@ =~= "Destination shard "@ + decimal(shard.0 as nat) + " for host "@ + host.shown()
        + " exceeds MPI world size "@ + decimal(size as nat));
    TransportError::new(text)
}

/// Deals events out to the ranks that own their receiving hosts.
fn group_by_owner(events: &[RemotePacketEvent], map: &PartitionMap, size: usize) -> (groups: Result<
    Vec<Vec<RemotePacketEvent>>,
    TransportError,
>)
    ensures
        match groups {
            Err(e) => first_fault(event_models(events@), map@, size as nat) == Some(e@),
            Ok(list) => {
                &&& first_fault(event_models(events@), map@, size as nat) is None
                &&& list@.len() == size
                &&& forall|r: int|
                    0 <= r < size ==> event_models((#[trigger] list@[r])@) == owned_by(
                        event_models(events@),
                        map@,
                        r,
                    )
            },
        },
{
    let ghost models = event_models(events@);
    let mut groups: Vec<Vec<RemotePacketEvent>> = Vec::new();
    let mut rank: usize = 0;
    while rank < size
        invariant
            rank <= size,
            groups@.len() == rank,
            forall|r: int| 0 <= r < rank ==> (#[trigger] groups@[r])@.len() == 0,
        decreases size - rank,
    {
        groups.push(Vec::new());
        rank += 1;
    }
    proof {
        reveal(Seq::filter);
        assert forall|r: int| 0 <= r < size implies event_models((#[trigger] groups@[r])@)
            == owned_by(models.take(0), map@, r) by {
            assert(event_models(groups@[r]@) =~= owned_by(models.take(0), map@, r));
        }
    }
    let mut i: usize = 0;
    while i < events.len()
        invariant
            i <= events.len(),
            models == event_models(events@),
            groups@.len() == size,
            first_fault(models.take(i as int), map@, size as nat) is None,
            forall|r: int|
                0 <= r < size ==> event_models((#[trigger] groups@[r])@) == owned_by(
                    models.take(i as int),
                    map@,
                    r,
                ),
        decreases events.len() - i,
    {
        let event = events[i].clone();
        let ghost model = event@;
        let host = event.dst_host_id;
        proof {
            assert(models.take(i + 1) =~= models.take(i as int).push(model));
            assert(models.take(i + 1).drop_last() =~= models.take(i as int));
            assert(first_fault(models.take(i + 1), map@, size as nat) == event_fault(
                model,
                map@,
                size as nat,
            ));
            if first_fault(models.take(i + 1), map@, size as nat) is Some {
                lemma_first_fault_of_prefix(models, map@, size as nat, i + 1);
            }
        }
        let shard = match map.shard_for_host(host) {
            Some(shard) => shard,
            None => {
                return Err(unknown_host_error(host));
            },
        };
        let dst: usize = shard.as_usize();
        if dst >= size {
            return Err(rank_error(shard, host, size));
        }
        let ghost before = groups@;
        groups[dst].push(event);
        proof {
            assert forall|r: int| 0 <= r < size implies event_models((#[trigger] groups@[r])@)
                == owned_by(models.take(i + 1), map@, r) by {
                lemma_owned_by_push(models.take(i as int), model, map@, r);
                assert(event_models(before[r]@) == owned_by(models.take(i as int), map@, r));
                if r == dst {
                    assert(event_models(groups@[r]@) =~= owned_by(
                        models.take(i as int),
                        map@,
                        r,
                    ).push(model));
                } else {
                    assert(groups@[r] == before[r]);
                }
            }
        }
        i += 1;
    }
    assert(models.take(i as int) =~= models);
    Ok(groups)
}

/// The sum of the first `n` counts.
pub open spec fn sum_before(counts: Seq<i32>, n: int) -> int
    decreases n,
{
    if n <= 0 {
        0
    } else {
        sum_before(counts, n - 1) + counts[n - 1]
    }
}

/// Whether all running sums of the counts can be held.
pub open spec fn sums_fit(counts: Seq<i32>) -> bool {
    forall|n: int|
        0 <= n <= counts.len() ==> i32::MIN <= #[trigger] sum_before(counts, n) <= i32::MAX
}

/// Where each part begins when parts of the given sizes stand one after the other.
pub fn displacements(counts: &[i32]) -> (displs: Result<Vec<i32>, TransportError>)
    ensures
        match displs {
            Ok(list) => {
                &&& sums_fit(counts@)
                &&& list@.len() == counts@.len()
                &&& forall|n: int|
                    0 <= n < counts@.len() ==> #[trigger] list@[n] == sum_before(counts@, n)
            },
            Err(e) => !sums_fit(counts@) && e@ == "MPI Alltoallv payload too large"@,
        },
{
    let mut total: i32 = 0;
    let mut displs: Vec<i32> = Vec::new();
    let mut i: usize = 0;
    while i < counts.len()
        invariant
            i <= counts@.len(),
            total == sum_before(counts@, i as int),
            displs@.len() == i,
            forall|n: int| 0 <= n < i ==> #[trigger] displs@[n] == sum_before(counts@, n),
            forall|n: int|
                0 <= n <= i ==> i32::MIN <= #[trigger] sum_before(counts@, n) <= i32::MAX,
        decreases counts@.len() - i,
    {
        displs.push(total);
        assert(sum_before(counts@, i + 1) == total + counts@[i as int]);
        total = match total.checked_add(counts[i]) {
            Some(sum) => sum,
            None => {
                return Err(TransportError::new("MPI Alltoallv payload too large".to_owned()));
            },
        };
        i += 1;
    }
    Ok(displs)
}

/// The size of each part.
pub open spec fn part_sizes(parts: Seq<Seq<u8>>) -> Seq<i32> {
    Seq::new(parts.len(), |i: int| parts[i].len() as i32)
}

/// The sizes of the parts as counts.
pub fn part_counts(parts: &Vec<Vec<u8>>) -> (counts: Vec<i32>)
    requires
        forall|i: int| 0 <= i < parts@.len() ==> (#[trigger] parts@[i])@.len() <= i32::MAX,
    ensures
        counts@ == part_sizes(contents(parts@)),
{
    let mut counts: Vec<i32> = Vec::new();
    let mut i: usize = 0;
    while i < parts.len()
        invariant
            i <= parts@.len(),
            forall|k: int| 0 <= k < parts@.len() ==> (#[trigger] parts@[k])@.len() <= i32::MAX,
            counts@ == part_sizes(contents(parts@)).take(i as int),
        decreases parts@.len() - i,
    {
        counts.push(parts[i].len() as i32);
        assert(counts@ =~= part_sizes(contents(parts@)).take(i + 1));
        i += 1;
    }
    assert(counts@ =~= part_sizes(contents(parts@)));
    counts
}

proof fn lemma_joined_len(parts: Seq<Seq<u8>>, n: int)
    requires
        0 <= n <= parts.len(),
        forall|i: int| 0 <= i < parts.len() ==> (#[trigger] parts[i]).len() <= i32::MAX,
    ensures
        joined(parts, n).len() == sum_before(part_sizes(parts), n),
    decreases n,
{
    if n > 0 {
        lemma_joined_len(parts, n - 1);
        assert(parts[n - 1].len() <= i32::MAX);
    }
}

proof fn lemma_part_in_joined(parts: Seq<Seq<u8>>, i: int, n: int)
    requires
        0 <= i < n <= parts.len(),
        forall|k: int| 0 <= k < parts.len() ==> (#[trigger] parts[k]).len() <= i32::MAX,
    ensures
        joined(parts, i).len() + parts[i].len() <= joined(parts, n).len(),
        joined(parts, n).subrange(
            joined(parts, i).len() as int,
            joined(parts, i).len() + parts[i].len() as int,
        ) == parts[i],
    decreases n,
{
    let at = joined(parts, i).len() as int;
    if i == n - 1 {
        assert(joined(parts, n).subrange(at, at + parts[i].len()) =~= parts[i]);
    } else {
        lemma_part_in_joined(parts, i, n - 1);
        assert(joined(parts, n).subrange(at, at + parts[i].len()) =~= joined(
            parts,
            n - 1,
        ).subrange(at, at + parts[i].len()));
    }
}

/// Each part is found again between its displacement and its end.
pub proof fn law_parts_are_found_at_their_displacements(parts: Seq<Seq<u8>>, i: int)
    requires
        0 <= i < parts.len(),
        forall|k: int| 0 <= k < parts.len() ==> (#[trigger] parts[k]).len() <= i32::MAX,
    ensures
        ({
            let at = sum_before(part_sizes(parts), i);
            let all = joined(parts, parts.len() as int);
            &&& 0 <= at
            &&& at + parts[i].len() <= all.len()
            &&& all.subrange(at, at + parts[i].len()) == parts[i]
        }),
{
    lemma_joined_len(parts, i);
    lemma_part_in_joined(parts, i, parts.len() as int);
}

/// How many bytes a rank moves in a round, given what it sends and what it receives.
pub fn round_bytes(send_total: u64, recv_total: u64) -> (bytes: u64)
    ensures
        bytes == (if send_total + recv_total > u64::MAX {
            u64::MAX as int
        } else {
            send_total + recv_total
        }),
{
    send_total.saturating_add(recv_total)
}

/// Whether the ranks have payload to exchange in a round, given the highest number of bytes that
/// any of them moves.
pub fn payload_exchange_needed(highest_round_bytes: u64) -> (needed: bool)
    ensures
        needed == (highest_round_bytes != 0),
{
    highest_round_bytes != 0
}

/// The part of the received bytes that one rank sent.
pub open spec fn rank_part(data: Seq<u8>, counts: Seq<i32>, displs: Seq<i32>, rank: int) -> Seq<
    u8,
> {
    data.subrange(displs[rank] as int, displs[rank] + counts[rank])
}

/// The events that the first `n` ranks sent, one rank after the other, or what is said to the first
/// part that is no batch. Empty parts are passed over.
pub open spec fn rank_events(data: Seq<u8>, counts: Seq<i32>, displs: Seq<i32>, n: int) -> Result<
    Seq<EventModel>,
    Seq<char>,
>
    decreases n,
{
    if n <= 0 {
        Ok(Seq::empty())
    } else {
        match rank_events(data, counts, displs, n - 1) {
            Err(text) => Err(text),
            Ok(done) => if counts[n - 1] == 0 {
                Ok(done)
            } else {
                match parse_batch(rank_part(data, counts, displs, n - 1)) {
                    Ok(events) => Ok(done + events),
                    Err(e) => Err(
                        "Failed to decode MPI batch from rank "@ + decimal((n - 1) as nat) + ": "@
                            + e.message(),
                    ),
                }
            },
        }
    }
}

/// Whether the parts of all ranks lie within the received bytes.
pub open spec fn parts_in_range(data: Seq<u8>, counts: Seq<i32>, displs: Seq<i32>) -> bool {
    &&& displs.len() == counts.len()
    &&& forall|r: int|
        0 <= r < counts.len() ==> 0 <= #[trigger] counts[r] && 0 <= displs[r] && displs[r]
            + counts[r] <= data.len()
}

/// The failure to read what a rank sent.
fn undecoded_batch(rank: usize, reason: &PacketSerializationError) -> (error: TransportError)
    ensures
        error@ == "Failed to decode MPI batch from rank "@ + decimal(rank as nat) + ": "@
            + reason.message(),
{
    let mut text = String::new();
    text.append("Failed to decode MPI batch from rank ");
    push_decimal(&mut text, rank as u64);
    text.append(": ");
    text.append(reason.to_string().as_str());
    assert(text@ =~= "Failed to decode MPI batch from rank "@ + decimal(rank as nat) + ": "@
        + reason.message());
    TransportError::new(text)
}

/// The exchange of this rank with all others.
#[derive(Debug)]
pub struct MpiRemotePacketExchange {
    size: i32,
    partition_map: PartitionMap,
    pending: Vec<RemotePacketEvent>,
}

impl MpiRemotePacketExchange {
    /// The number of ranks.
    pub closed spec fn ranks(&self) -> i32 {
        self.size
    }

    /// Which rank owns which host.
    pub closed spec fn owners(&self) -> Map<u32, ShardId> {
        self.partition_map@
    }

    /// The events that came in with the last round and were not taken yet.
    pub closed spec fn waiting(&self) -> Seq<EventModel> {
        event_models(self.pending@)
    }

    /// The exchange of a process for which MPI is initialized.
    pub fn new(universe: Option<&MpiUniverse>, partition_map: PartitionMap) -> (exchange: Result<
        Self,
        TransportError,
    >)
        requires
            universe is Some,
        ensures
            exchange matches Ok(ex) && ex.ranks() == universe->0.size && ex.owners()
                == partition_map@ && ex.waiting() == Seq::<EventModel>::empty(),
    {
        let u = universe.unwrap();
        let exchange = MpiRemotePacketExchange { size: u.size, partition_map, pending: Vec::new() };
        assert(exchange.waiting() =~= Seq::<EventModel>::empty());
        Ok(exchange)
    }

    /// The collectives synchronize the ranks by themselves.
    pub fn requires_external_synchronization(&self) -> (required: bool)
        ensures
            !required,
    {
        false
    }

    /// Whether an event of the list cannot be sent.
    pub fn has_fault(&self, events: &[RemotePacketEvent]) -> (faulty: bool)
        requires
            self.ranks() >= 0,
        ensures
            faulty == (first_fault(
                event_models(events@),
                self.owners(),
                self.ranks() as nat,
            ) is Some),
    {
        let ghost models = event_models(events@);
        let ghost map = self.partition_map@;
        let ghost size = self.size as nat;
        let mut i: usize = 0;
        while i < events.len()
            invariant
                i <= events@.len(),
                models == event_models(events@),
                map == self.partition_map@,
                size == self.size,
                self.size >= 0,
                first_fault(models.take(i as int), map, size) is None,
            decreases events@.len() - i,
        {
            let host = events[i].dst_host_id;
            let owned = match self.partition_map.shard_for_host(host) {
                Some(shard) => shard.as_usize() < self.size as usize,
                None => false,
            };
            proof {
                assert(models.take(i + 1).drop_last() =~= models.take(i as int));
                assert(models.take(i + 1).last() == events@[i as int]@);
                if !owned {
                    lemma_first_fault_of_prefix(models, map, size, i + 1);
                }
            }
            if !owned {
                return true;
            }
            i += 1;
        }
        assert(models.take(i as int) =~= models);
        false
    }

    /// The bytes that each rank is sent for a list of events.
    pub fn outgoing_batches(&self, events: &[RemotePacketEvent]) -> (batches: Result<
        Vec<Vec<u8>>,
        TransportError,
    >)
        requires
            self.ranks() >= 0,
            first_fault(event_models(events@), self.owners(), self.ranks() as nat) is None
                ==> after_start(event_models(events@)),
        ensures
            match batches {
                Err(e) => first_fault(
                    event_models(events@),
                    self.owners(),
                    self.ranks() as nat,
                ) == Some(e@),
                Ok(list) => {
                    &&& first_fault(
                        event_models(events@),
                        self.owners(),
                        self.ranks() as nat,
                    ) is None
                    &&& list@.len() == self.ranks()
                    &&& forall|r: int|
                        0 <= r < list@.len() ==> is_rank_batch(
                            owned_by(event_models(events@), self.owners(), r),
                            (#[trigger] list@[r])@,
                        )
                },
            },
    {
        let ghost models = event_models(events@);
        let ghost map = self.partition_map@;
        let mut groups = match group_by_owner(events, &self.partition_map, self.size as usize) {
            Ok(list) => list,
            Err(e) => {
                return Err(e);
            },
        };
        let ghost dealt = groups@;
        let mut batches: Vec<Vec<u8>> = Vec::new();
        let mut rank: usize = 0;
        while rank < groups.len()
            invariant
                rank <= groups@.len(),
                dealt.len() == groups@.len(),
                batches@.len() == rank,
                after_start(models),
                forall|r: int| rank <= r < groups@.len() ==> #[trigger] groups@[r] == dealt[r],
                forall|r: int|
                    0 <= r < dealt.len() ==> event_models((#[trigger] dealt[r])@) == owned_by(
                        models,
                        map,
                        r,
                    ),
                forall|r: int|
                    0 <= r < rank ==> is_rank_batch(
                        owned_by(models, map, r),
                        (#[trigger] batches@[r])@,
                    ),
            decreases groups@.len() - rank,
        {
            let mut group: Vec<RemotePacketEvent> = Vec::new();
            std::mem::swap(&mut group, &mut groups[rank]);
            let ghost bound = owned_by(models, map, rank as int);
            assert(event_models(group@) == bound);
            if group.len() == 0 {
                batches.push(Vec::new());
            } else {
                let ghost unsorted = group@;
                sort_by_order_key(&mut group);
                proof {
                    lemma_sorted_event_models(unsorted, group@);
                    lemma_owned_by_after_start(models, map, rank as int);
                    lemma_sorted_after_start(bound, event_models(group@));
                }
                batches.push(RemotePacketEvent::encode_batch(&group));
                assert(is_sorted_version(bound, event_models(group@)));
            }
            rank += 1;
        }
        Ok(batches)
    }

    /// Takes in what the ranks sent in a round, in place of what was waiting. Nothing changes where
    /// a part is no batch.
    pub fn accept_round(&mut self, data: &[u8], counts: &[i32], displs: &[i32]) -> (accepted: Result<
        (),
        TransportError,
    >)
        requires
            parts_in_range(data@, counts@, displs@),
            forall|r: int|
                0 <= r < counts@.len() && counts@[r] != 0 && rank_events(
                    data@,
                    counts@,
                    displs@,
                    r,
                ) is Ok ==> batch_times_in_range(#[trigger] rank_part(data@, counts@, displs@, r)),
        ensures
            match (accepted, rank_events(data@, counts@, displs@, counts@.len() as int)) {
                (Ok(()), Ok(events)) => {
                    &&& is_sorted_version(events, final(self).waiting())
                    &&& final(self).ranks() == old(self).ranks()
                    &&& final(self).owners() == old(self).owners()
                },
                (Err(e), Err(text)) => *final(self) == *old(self) && e@ == text,
                _ => false,
            },
    {
        let mut all: Vec<RemotePacketEvent> = Vec::new();
        let mut rank: usize = 0;
        assert(event_models(all@) =~= Seq::<EventModel>::empty());
        while rank < counts.len()
            invariant
                rank <= counts@.len(),
                *self == *old(self),
                parts_in_range(data@, counts@, displs@),
                forall|r: int|
                    0 <= r < counts@.len() && counts@[r] != 0 && rank_events(
                        data@,
                        counts@,
                        displs@,
                        r,
                    ) is Ok ==> batch_times_in_range(
                        #[trigger] rank_part(data@, counts@, displs@, r),
                    ),
                rank_events(data@, counts@, displs@, rank as int) == Ok::<
                    Seq<EventModel>,
                    Seq<char>,
                >(event_models(all@)),
            decreases counts@.len() - rank,
        {
            let count: i32 = counts[rank];
            assert(0 <= counts@[rank as int]);
            if count != 0 {
                let offset: usize = displs[rank] as usize;
                let part = copy_range(data, offset, offset + count as usize);
                assert(part@ == rank_part(data@, counts@, displs@, rank as int));
                match RemotePacketEvent::decode_batch(&part) {
                    Ok(list) => {
                        let ghost before = event_models(all@);
                        let mut more = list;
                        all.append(&mut more);
                        assert(event_models(all@) =~= before + event_models(list@));
                    },
                    Err(reason) => {
                        proof {
                            lemma_rank_error_stays(
                                data@,
                                counts@,
                                displs@,
                                rank + 1,
                                counts@.len() as int,
                            );
                        }
                        return Err(undecoded_batch(rank, &reason));
                    },
                }
            }
            rank += 1;
        }
        let ghost unsorted = all@;
        sort_by_order_key(&mut all);
        proof {
            lemma_sorted_event_models(unsorted, all@);
        }
        self.pending = all;
        Ok(())
    }

    /// Takes the events that wait, with the earliest delivery time.
    pub fn receive(&mut self) -> (received: (Vec<RemotePacketEvent>, Option<EmulatedTime>))
        ensures
            event_models(received.0@) == old(self).waiting(),
            received.1 == first_time(event_models(received.0@)),
            old(self).waiting().len() == 0 ==> received.0@.len() == 0 && received.1 is None,
            final(self).waiting() == Seq::<EventModel>::empty(),
            final(self).ranks() == old(self).ranks(),
            final(self).owners() == old(self).owners(),
    {
        let mut events: Vec<RemotePacketEvent> = Vec::new();
        std::mem::swap(&mut events, &mut self.pending);
        assert(self.waiting() =~= Seq::<EventModel>::empty());
        let min_time = earliest(&events);
        (events, min_time)
    }
}

/// The events of the first `n` lists, one list after the other.
pub open spec fn events_of(lists: Seq<Seq<EventModel>>, n: int) -> Seq<EventModel>
    decreases n,
{
    if n <= 0 {
        Seq::empty()
    } else {
        events_of(lists, n - 1) + lists[n - 1]
    }
}

/// Whether `parts` are what the ranks send for their groups, each part short enough to be counted,
/// and `displs` are the places that the parts have one after the other.
pub open spec fn is_round(
    groups: Seq<Seq<EventModel>>,
    parts: Seq<Seq<u8>>,
    displs: Seq<i32>,
) -> bool {
    &&& parts.len() == groups.len()
    &&& displs.len() == groups.len()
    &&& forall|s: int| 0 <= s < groups.len() ==> is_rank_batch(#[trigger] groups[s], parts[s])
    &&& forall|s: int| 0 <= s < parts.len() ==> (#[trigger] parts[s]).len() <= i32::MAX
    &&& forall|s: int|
        0 <= s < displs.len() ==> #[trigger] displs[s] == sum_before(part_sizes(parts), s)
}

/// Whether the format can carry each group as one batch.
pub open spec fn groups_fit(groups: Seq<Seq<EventModel>>) -> bool {
    forall|s: int|
        0 <= s < groups.len() ==> (#[trigger] groups[s]).len() <= MAX_BATCH_EVENTS && forall|i: int|
            0 <= i < groups[s].len() ==> event_fits(#[trigger] groups[s][i])
}

/// Whether the format can carry each group as one batch, be its delivery times such as a simulation
/// can reach or not.
pub open spec fn groups_are_carried(groups: Seq<Seq<EventModel>>) -> bool {
    forall|s: int| 0 <= s < groups.len() ==> batch_is_carried(#[trigger] groups[s])
}

/// Whether no group holds an event that is delivered before the simulation starts.
pub open spec fn groups_after_start(groups: Seq<Seq<EventModel>>) -> bool {
    forall|s: int| 0 <= s < groups.len() ==> after_start(#[trigger] groups[s])
}

/// Sorting a list makes no difference to whether the format can carry it.
proof fn lemma_sorted_is_carried(group: Seq<EventModel>, sorted: Seq<EventModel>)
    requires
        is_sorted_version(group, sorted),
    ensures
        batch_is_carried(sorted) <==> batch_is_carried(group),
{
    let order = choose|order: Seq<int>| sorts(group, sorted, order);
    if batch_is_carried(group) {
        assert forall|i: int| 0 <= i < sorted.len() implies event_is_carried(
            #[trigger] sorted[i],
        ) by {
            assert(sorted[i] == group[order[i]]);
        }
    }
    if batch_is_carried(sorted) {
        assert forall|p: int| 0 <= p < group.len() implies event_is_carried(#[trigger] group[p]) by {
            assert(order.contains(p));
            let i = choose|i: int| 0 <= i < order.len() && order[i] == p;
            assert(event_is_carried(sorted[i]));
        }
    }
}

/// The part of a rank is empty where its group is, and else is read back as the group, sorted, if
/// the format can carry the group.
proof fn lemma_part_is_read_where_it_is_carried(
    groups: Seq<Seq<EventModel>>,
    parts: Seq<Seq<u8>>,
    displs: Seq<i32>,
    s: int,
)
    requires
        is_round(groups, parts, displs),
        groups_after_start(groups),
        0 <= s < groups.len(),
    ensures
        ({
            let part = rank_part(
                joined(parts, parts.len() as int),
                part_sizes(parts),
                displs,
                s,
            );
            if groups[s].len() == 0 {
                part_sizes(parts)[s] == 0 && batch_is_carried(groups[s])
            } else {
                &&& part_sizes(parts)[s] != 0
                &&& match parse_batch(part) {
                    Ok(events) => batch_is_carried(groups[s]) && is_stable_rearrangement(
                        groups[s],
                        events,
                    ),
                    Err(_) => !batch_is_carried(groups[s]),
                }
            }
        }),
{
    let group = groups[s];
    assert(is_rank_batch(group, parts[s]));
    assert(after_start(group));
    assert(parts[s].len() <= i32::MAX);
    assert(displs[s] == sum_before(part_sizes(parts), s));
    law_parts_are_found_at_their_displacements(parts, s);
    if group.len() > 0 {
        let sorted = choose|sorted: Seq<EventModel>| #[trigger]
            is_sorted_version(group, sorted) && parts[s] == batch_bytes(sorted);
        lemma_sorted_after_start(group, sorted);
        lemma_sorted_is_carried(group, sorted);
        lemma_sorting_rearranges(group, sorted);
        law_batch_is_read_where_it_is_carried(sorted, Seq::empty());
        assert(batch_bytes(sorted) + Seq::<u8>::empty() =~= batch_bytes(sorted));
    }
}

/// What the first `n` ranks sent is read back if the format can carry it, and else nothing is read.
proof fn lemma_round_is_read_where_it_is_carried(
    groups: Seq<Seq<EventModel>>,
    parts: Seq<Seq<u8>>,
    displs: Seq<i32>,
    n: int,
)
    requires
        is_round(groups, parts, displs),
        groups_after_start(groups),
        0 <= n <= groups.len(),
    ensures
        match rank_events(joined(parts, parts.len() as int), part_sizes(parts), displs, n) {
            Ok(events) => is_stable_rearrangement(events_of(groups, n), events) && forall|s: int|
                0 <= s < n ==> batch_is_carried(#[trigger] groups[s]),
            Err(_) => exists|s: int| 0 <= s < n && !batch_is_carried(#[trigger] groups[s]),
        },
    decreases n,
{
    let data = joined(parts, parts.len() as int);
    let counts = part_sizes(parts);
    if n <= 0 {
        let none = Seq::<EventModel>::empty();
        assert(rearranges(none, none, Seq::empty()));
    } else {
        let s = n - 1;
        lemma_round_is_read_where_it_is_carried(groups, parts, displs, s);
        lemma_part_is_read_where_it_is_carried(groups, parts, displs, s);
        if groups[s].len() == 0 {
            assert(events_of(groups, s) + groups[s] =~= events_of(groups, s));
        } else if rank_events(data, counts, displs, n) is Ok {
            lemma_rearrangements_join(
                events_of(groups, s),
                rank_events(data, counts, displs, s)->Ok_0,
                groups[s],
                parse_batch(rank_part(data, counts, displs, s))->Ok_0,
            );
        }
    }
}

/// A round is accepted if and only if the format can carry all that was sent in it, and what is
/// accepted is what was sent: all events of all groups, none of them twice. Sorted, they are in the
/// order in which the events themselves would be sorted, one rank after the other.
pub proof fn law_accepted_round_delivers_what_was_sent(
    groups: Seq<Seq<EventModel>>,
    parts: Seq<Seq<u8>>,
    displs: Seq<i32>,
)
    requires
        is_round(groups, parts, displs),
        groups_after_start(groups),
    ensures
        ({
            let n = groups.len() as int;
            let data = joined(parts, n);
            let counts = part_sizes(parts);
            &&& parts_in_range(data, counts, displs)
            &&& match rank_events(data, counts, displs, n) {
                Ok(events) => {
                    &&& groups_are_carried(groups)
                    &&& events.to_multiset() == events_of(groups, n).to_multiset()
                    &&& forall|received: Seq<EventModel>| #[trigger]
                        is_sorted_version(events, received) ==> is_sorted_version(
                            events_of(groups, n),
                            received,
                        )
                },
                Err(_) => !groups_are_carried(groups),
            }
        }),
{
    let n = groups.len() as int;
    let data = joined(parts, n);
    let counts = part_sizes(parts);
    assert forall|r: int| 0 <= r < counts.len() implies 0 <= #[trigger] counts[r] && 0 <= displs[r]
        && displs[r] + counts[r] <= data.len() by {
        law_parts_are_found_at_their_displacements(parts, r);
        assert(parts[r].len() <= i32::MAX);
        assert(displs[r] == sum_before(counts, r));
    }
    lemma_round_is_read_where_it_is_carried(groups, parts, displs, n);
    if let Ok(events) = rank_events(data, counts, displs, n) {
        law_rearranging_keeps_the_items(events_of(groups, n), events);
        assert forall|received: Seq<EventModel>| #[trigger]
            is_sorted_version(events, received) implies is_sorted_version(
            events_of(groups, n),
            received,
        ) by {
            lemma_sorting_after_rearranging(events_of(groups, n), events, received);
        }
    }
}

/// Groups that fit are such as the format can carry.
proof fn lemma_fitting_groups_are_carried(groups: Seq<Seq<EventModel>>)
    requires
        groups_fit(groups),
    ensures
        groups_are_carried(groups),
        groups_after_start(groups),
{
    assert forall|s: int| 0 <= s < groups.len() implies batch_is_carried(#[trigger] groups[s])
        && after_start(groups[s]) by {
        assert forall|i: int| 0 <= i < groups[s].len() implies event_is_carried(
            #[trigger] groups[s][i],
        ) by {
            assert(event_fits(groups[s][i]));
        }
    }
}

/// The part of a rank that sent something has delivery times that a simulation can reach.
proof fn lemma_part_times(
    groups: Seq<Seq<EventModel>>,
    parts: Seq<Seq<u8>>,
    displs: Seq<i32>,
    s: int,
)
    requires
        is_round(groups, parts, displs),
        groups_fit(groups),
        0 <= s < groups.len(),
        part_sizes(parts)[s] != 0,
    ensures
        batch_times_in_range(
            rank_part(joined(parts, parts.len() as int), part_sizes(parts), displs, s),
        ),
{
    let group = groups[s];
    assert(is_rank_batch(group, parts[s]));
    assert(parts[s].len() <= i32::MAX);
    assert(displs[s] == sum_before(part_sizes(parts), s));
    law_parts_are_found_at_their_displacements(parts, s);
    let sorted = choose|sorted: Seq<EventModel>| #[trigger]
        is_sorted_version(group, sorted) && parts[s] == batch_bytes(sorted);
    let order = choose|order: Seq<int>| sorts(group, sorted, order);
    assert forall|i: int| 0 <= i < sorted.len() implies event_fits(#[trigger] sorted[i]) by {
        assert(sorted[i] == group[order[i]]);
    }
    law_batch_round_trip(sorted, Seq::empty());
    assert(batch_bytes(sorted) + Seq::<u8>::empty() =~= batch_bytes(sorted));
}

/// What the ranks send in a round is what the receiving rank reads: the bytes can be taken in, and
/// all events of all groups come out of them, none of them twice. Sorted, they are in the order in
/// which the events themselves would be sorted, one rank after the other.
pub proof fn law_round_delivers_what_was_sent(
    groups: Seq<Seq<EventModel>>,
    parts: Seq<Seq<u8>>,
    displs: Seq<i32>,
)
    requires
        is_round(groups, parts, displs),
        groups_fit(groups),
    ensures
        ({
            let n = groups.len() as int;
            let data = joined(parts, n);
            let counts = part_sizes(parts);
            &&& parts_in_range(data, counts, displs)
            &&& forall|r: int|
                0 <= r < n && counts[r] != 0 ==> batch_times_in_range(
                    #[trigger] rank_part(data, counts, displs, r),
                )
            &&& rank_events(data, counts, displs, n) matches Ok(events) && {
                &&& events.to_multiset() == events_of(groups, n).to_multiset()
                &&& forall|received: Seq<EventModel>| #[trigger]
                    is_sorted_version(events, received) ==> is_sorted_version(
                        events_of(groups, n),
                        received,
                    )
            }
        }),
{
    let n = groups.len() as int;
    let data = joined(parts, n);
    let counts = part_sizes(parts);
    assert forall|r: int| 0 <= r < n && counts[r] != 0 implies batch_times_in_range(
        #[trigger] rank_part(data, counts, displs, r),
    ) by {
        lemma_part_times(groups, parts, displs, r);
    }
    lemma_fitting_groups_are_carried(groups);
    law_accepted_round_delivers_what_was_sent(groups, parts, displs);
}

/// The groups that the ranks send to one rank.
pub open spec fn groups_for(
    sent: Seq<Seq<EventModel>>,
    map: Map<u32, ShardId>,
    rank: int,
) -> Seq<Seq<EventModel>> {
    Seq::new(sent.len(), |s: int| owned_by(sent[s], map, rank))
}

/// Picking a rank's events out of each list picks them out of all lists together.
proof fn lemma_owned_by_lists(
    sent: Seq<Seq<EventModel>>,
    map: Map<u32, ShardId>,
    rank: int,
    n: int,
)
    requires
        0 <= n <= sent.len(),
    ensures
        events_of(groups_for(sent, map, rank), n) == owned_by(events_of(sent, n), map, rank),
    decreases n,
{
    if n <= 0 {
        reveal(Seq::filter);
    } else {
        lemma_owned_by_lists(sent, map, rank, n - 1);
        Seq::filter_distributes_over_add(
            events_of(sent, n - 1),
            sent[n - 1],
            is_owned(map, rank),
        );
    }
}

/// What a rank receives after a round that it accepted is what all ranks together sent to the hosts
/// that it owns, sorted: no event more and none less, each for a host of this rank, and with the
/// earliest delivery time, which is there if and only if there are events.
pub proof fn law_rank_receives_what_it_accepted(
    sent: Seq<Seq<EventModel>>,
    map: Map<u32, ShardId>,
    rank: int,
    parts: Seq<Seq<u8>>,
    displs: Seq<i32>,
    received: Seq<EventModel>,
)
    requires
        is_round(groups_for(sent, map, rank), parts, displs),
        groups_after_start(sent),
        rank_events(
            joined(parts, parts.len() as int),
            part_sizes(parts),
            displs,
            parts.len() as int,
        ) matches Ok(events) && is_sorted_version(events, received),
    ensures
        is_sorted_version(owned_by(events_of(sent, sent.len() as int), map, rank), received),
        received.to_multiset() == owned_by(
            events_of(sent, sent.len() as int),
            map,
            rank,
        ).to_multiset(),
        forall|i: int|
            0 <= i < received.len() ==> map.contains_key((#[trigger] received[i]).dst_host_id.0)
                && map[received[i].dst_host_id.0].0 == rank,
        first_time(received) is None <==> received.len() == 0,
        forall|i: int|
            0 <= i < received.len() ==> (first_time(received) matches Some(t) && t.0 <= (
            #[trigger] received[i]).deliver_time.0),
{
    let n = sent.len() as int;
    let groups = groups_for(sent, map, rank);
    assert forall|s: int| 0 <= s < groups.len() implies after_start(#[trigger] groups[s]) by {
        assert(after_start(sent[s]));
        lemma_owned_by_after_start(sent[s], map, rank);
    }
    law_accepted_round_delivers_what_was_sent(groups, parts, displs);
    lemma_owned_by_lists(sent, map, rank, n);
    lemma_received_facts(events_of(sent, n), map, rank, received);
}

/// What holds of the sorted events of a rank.
proof fn lemma_received_facts(
    whole: Seq<EventModel>,
    map: Map<u32, ShardId>,
    rank: int,
    received: Seq<EventModel>,
)
    requires
        is_sorted_version(owned_by(whole, map, rank), received),
    ensures
        received.to_multiset() == owned_by(whole, map, rank).to_multiset(),
        forall|i: int|
            0 <= i < received.len() ==> map.contains_key((#[trigger] received[i]).dst_host_id.0)
                && map[received[i].dst_host_id.0].0 == rank,
        first_time(received) is None <==> received.len() == 0,
        forall|i: int|
            0 <= i < received.len() ==> (first_time(received) matches Some(t) && t.0 <= (
            #[trigger] received[i]).deliver_time.0),
{
    let owned = owned_by(whole, map, rank);
    law_sorting_keeps_the_items(owned, received);
    let order = choose|order: Seq<int>| sorts(owned, received, order);
    assert forall|i: int| 0 <= i < received.len() implies map.contains_key(
        (#[trigger] received[i]).dst_host_id.0,
    ) && map[received[i].dst_host_id.0].0 == rank by {
        broadcast use vstd::seq_lib::group_filter_ensures;

        assert(received[i] == owned[order[i]]);
    }
    assert forall|i: int| 0 <= i < received.len() implies (first_time(received) matches Some(t)
        && t.0 <= (#[trigger] received[i]).deliver_time.0) by {
        law_first_time_is_least(owned, received, i);
    }
}

/// What a rank receives after a round is what all ranks together sent to the hosts that it owns,
/// sorted: no event more and none less, each for a host of this rank, and with the earliest
/// delivery time, which is there if and only if there are events.
pub proof fn law_rank_receives_what_was_sent_to_it(
    sent: Seq<Seq<EventModel>>,
    map: Map<u32, ShardId>,
    rank: int,
    parts: Seq<Seq<u8>>,
    displs: Seq<i32>,
    received: Seq<EventModel>,
)
    requires
        is_round(groups_for(sent, map, rank), parts, displs),
        groups_fit(groups_for(sent, map, rank)),
        rank_events(
            joined(parts, parts.len() as int),
            part_sizes(parts),
            displs,
            parts.len() as int,
        ) matches Ok(events) ==> is_sorted_version(events, received),
    ensures
        is_sorted_version(owned_by(events_of(sent, sent.len() as int), map, rank), received),
        received.to_multiset() == owned_by(
            events_of(sent, sent.len() as int),
            map,
            rank,
        ).to_multiset(),
        forall|i: int|
            0 <= i < received.len() ==> map.contains_key((#[trigger] received[i]).dst_host_id.0)
                && map[received[i].dst_host_id.0].0 == rank,
        first_time(received) is None <==> received.len() == 0,
        forall|i: int|
            0 <= i < received.len() ==> (first_time(received) matches Some(t) && t.0 <= (
            #[trigger] received[i]).deliver_time.0),
{
    let n = sent.len() as int;
    law_round_delivers_what_was_sent(groups_for(sent, map, rank), parts, displs);
    lemma_owned_by_lists(sent, map, rank, n);
    lemma_received_facts(events_of(sent, n), map, rank, received);
}

proof fn lemma_rank_error_stays(
    data: Seq<u8>,
    counts: Seq<i32>,
    displs: Seq<i32>,
    n: int,
    m: int,
)
    requires
        0 <= n <= m,
        rank_events(data, counts, displs, n) is Err,
    ensures
        rank_events(data, counts, displs, m) == rank_events(data, counts, displs, n),
    decreases m - n,
{
    if n < m {
        lemma_rank_error_stays(data, counts, displs, n, m - 1);
    }
}

/// Where the events for a rank stood: the places ascend, and they are those of all events whose
/// receiving host the map gives to the rank.
pub proof fn law_owned_events_keep_their_order(
    events: Seq<EventModel>,
    map: Map<u32, ShardId>,
    rank: int,
) -> (places: Seq<int>)
    ensures
        places.len() == owned_by(events, map, rank).len(),
        forall|k: int|
            0 <= k < places.len() ==> 0 <= #[trigger] places[k] < events.len() && map.contains_key(
                events[places[k]].dst_host_id.0,
            ) && map[events[places[k]].dst_host_id.0].0 == rank && events[places[k]] == owned_by(
                events,
                map,
                rank,
            )[k],
        forall|k: int, l: int|
            0 <= k < l < places.len() ==> #[trigger] places[k] < #[trigger] places[l],
        forall|i: int|
            0 <= i < events.len() && map.contains_key((#[trigger] events[i]).dst_host_id.0)
                && map[events[i].dst_host_id.0].0 == rank ==> places.contains(i),
{
    lemma_picked_places(events, is_owned(map, rank))
}

/// Events can be sent if and only if each of them is for a host whose owner is one of the ranks.
pub proof fn law_fault_is_a_missing_owner(events: Seq<EventModel>, map: Map<u32, ShardId>, size: nat)
    ensures
        first_fault(events, map, size) is None <==> forall|i: int|
            0 <= i < events.len() ==> map.contains_key((#[trigger] events[i]).dst_host_id.0)
                && map[events[i].dst_host_id.0].0 < size,
    decreases events.len(),
{
    if events.len() > 0 {
        let shorter = events.drop_last();
        law_fault_is_a_missing_owner(shorter, map, size);
        if first_fault(events, map, size) is None {
            assert forall|i: int| 0 <= i < events.len() implies map.contains_key(
                (#[trigger] events[i]).dst_host_id.0,
            ) && map[events[i].dst_host_id.0].0 < size by {
                if i < shorter.len() {
                    assert(shorter[i] == events[i]);
                }
            }
        }
        if forall|i: int|
            0 <= i < events.len() ==> map.contains_key((#[trigger] events[i]).dst_host_id.0)
                && map[events[i].dst_host_id.0].0 < size {
            assert forall|i: int| 0 <= i < shorter.len() implies map.contains_key(
                (#[trigger] shorter[i]).dst_host_id.0,
            ) && map[shorter[i].dst_host_id.0].0 < size by {
                assert(shorter[i] == events[i]);
            }
            assert(events[events.len() - 1] == events.last());
        }
    }
}

/// An event that can be sent is for one rank, and that rank is handed it.
pub proof fn law_events_have_one_owner(
    events: Seq<EventModel>,
    map: Map<u32, ShardId>,
    size: nat,
    i: int,
    rank: int,
)
    requires
        first_fault(events, map, size) is None,
        0 <= i < events.len(),
    ensures
        0 <= map[events[i].dst_host_id.0].0 < size,
        owned_by(events, map, rank).contains(events[i]) <==> rank
            == map[events[i].dst_host_id.0].0,
{
    law_fault_is_a_missing_owner(events, map, size);
    let places = law_owned_events_keep_their_order(events, map, rank);
    let owned = owned_by(events, map, rank);
    if owned.contains(events[i]) {
        let k = choose|k: int| 0 <= k < owned.len() && owned[k] == events[i];
        assert(events[places[k]] == owned[k]);
    }
    if rank == map[events[i].dst_host_id.0].0 {
        assert(places.contains(i));
        let k = choose|k: int| 0 <= k < places.len() && places[k] == i;
        assert(owned[k] == events[i]);
    }
}

/// A time that is put into the reduction is the number of nanoseconds since the start of the
/// simulation, later times are higher numbers, and the latest instant is the highest number.
pub proof fn law_reduced_numbers_ascend_with_time(a: EmulatedTime, b: EmulatedTime)
    requires
        is_reducible(a),
        is_reducible(b),
    ensures
        a.0 != EMUTIME_MAX ==> reduced_number(a) == a.0 - 946_684_800_000_000_000,
        a.0 == EMUTIME_MAX ==> reduced_number(a) == 0x7fff_ffff_ffff_ffff,
        a.0 < b.0 <==> reduced_number(a) < reduced_number(b),
        reduced_time(reduced_number(a) as i64) == a,
{
}

/// Displacements begin at zero, and each part begins where the one before it ends.
pub proof fn law_parts_follow_each_other(counts: Seq<i32>, i: int)
    requires
        0 <= i < counts.len(),
    ensures
        sum_before(counts, 0) == 0,
        sum_before(counts, i + 1) == sum_before(counts, i) + counts[i],
{
}

/// What is said to an event without an owner that is a rank, and to a call that failed.
pub proof fn law_what_is_said_of_ranks(
    event: EventModel,
    map: Map<u32, ShardId>,
    size: nat,
    rc: i32,
    context: Seq<char>,
)
    ensures
        !map.contains_key(event.dst_host_id.0) ==> event_fault(event, map, size) == Some(
            "Unknown destination host "@ + event.dst_host_id.shown(),
        ),
        map.contains_key(event.dst_host_id.0) && map[event.dst_host_id.0].0 >= size ==> event_fault(
            event,
            map,
            size,
        ) == Some(
            "Destination shard "@ + decimal(map[event.dst_host_id.0].0 as nat) + " for host "@
                + event.dst_host_id.shown() + " exceeds MPI world size "@ + decimal(size),
        ),
        map.contains_key(event.dst_host_id.0) && map[event.dst_host_id.0].0 < size ==> event_fault(
            event,
            map,
            size,
        ) is None,
        mpi_error_message(rc, context) == "MPI error in "@ + context + ": code "@ + signed_decimal(
            rc as int,
        ),
{
}

} // verus!
