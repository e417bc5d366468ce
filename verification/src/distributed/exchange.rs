//! The exchange of remote packets between shards: what is collected, what is sent where, and what
//! is made of what comes in.

use std::collections::HashMap;

use vstd::prelude::*;
use vstd::std_specs::hash::group_hash_axioms;
use vstd::string::*;

use crate::distributed::batch::{
    all_on_wire, batch_bytes, batch_fault, decode_remote_packet_batch,
    received_batch,
};
use crate::distributed::error::{ExchangeFailure, RemotePacketExchangeError};
use crate::distributed::event::{
    EventModel, RemotePacketEvent, event_models, law_sorted_events_are_in_delivery_order,
    lemma_sorted_event_models,
};
use crate::ids::ShardId;
use crate::sorting::{
    Key, Keyed, OrderKey, is_sorted_version, key_before, law_sorting_keeps_the_items,
    sort_by_order_key, sorts,
};
use crate::text::{decimal, push_decimal};
use crate::time::EmulatedTime;

verus! {

/// A remote packet event with the shard that is to receive it.
#[derive(Debug, PartialEq, Eq)]
pub struct OutboundRemotePacket {
    pub dst_shard: ShardId,
    pub event: RemotePacketEvent,
}

/// What an outbound packet holds.
#[verifier::ext_equal]
pub struct OutboundModel {
    pub dst_shard: ShardId,
    pub event: EventModel,
}

impl View for OutboundRemotePacket {
    type V = OutboundModel;

    open spec fn view(&self) -> OutboundModel {
        OutboundModel { dst_shard: self.dst_shard, event: self.event@ }
    }
}

impl Clone for OutboundRemotePacket {
    fn clone(&self) -> (copy: Self)
        ensures
            copy@ == self@,
    {
        OutboundRemotePacket { dst_shard: self.dst_shard, event: self.event.clone() }
    }
}

/// What the packets of a list hold.
pub open spec fn outbound_models(packets: Seq<OutboundRemotePacket>) -> Seq<OutboundModel> {
    Seq::new(packets.len(), |i: int| packets[i]@)
}

/// Outbound packets are ordered by receiving shard, and within a shard as their events are.
impl Keyed for OutboundModel {
    open spec fn key(self) -> Key {
        let event = self.event.key();
        (self.dst_shard.0, event.1, event.2, event.3, event.4)
    }
}

impl Keyed for OutboundRemotePacket {
    open spec fn key(self) -> Key {
        self@.key()
    }
}

impl OrderKey for OutboundRemotePacket {
    fn order_key(&self) -> (k: Key) {
        let event = self.event.order_key();
        (self.dst_shard.0, event.1, event.2, event.3, event.4)
    }
}

/// Sorting packets sorts what they hold.
proof fn lemma_sorted_outbound_models(
    input: Seq<OutboundRemotePacket>,
    output: Seq<OutboundRemotePacket>,
)
    requires
        is_sorted_version(input, output),
    ensures
        is_sorted_version(outbound_models(input), outbound_models(output)),
{
    let order = choose|order: Seq<int>| sorts(input, output, order);
    let before = outbound_models(input);
    let after = outbound_models(output);
    assert forall|i: int| 0 <= i < after.len() implies #[trigger] after[i] == before[order[i]] by {
        assert(output[i] == input[order[i]]);
    }
    assert forall|i: int, j: int| 0 <= i < j < after.len() implies {
        ||| key_before((#[trigger] after[i]).key(), (#[trigger] after[j]).key())
        ||| after[i].key() == after[j].key() && order[i] < order[j]
    } by {
        assert(output[i].key() == after[i].key());
        assert(output[j].key() == after[j].key());
    }
    assert(sorts(before, after, order));
}

/// The remote packets that a scheduling window produced.
#[derive(Debug)]
pub struct OutboundRemotePacketBuffer {
    packets: Vec<OutboundRemotePacket>,
}

impl View for OutboundRemotePacketBuffer {
    type V = Seq<OutboundModel>;

    /// The packets in the order in which they were collected.
    closed spec fn view(&self) -> Seq<OutboundModel> {
        outbound_models(self.packets@)
    }
}

impl Default for OutboundRemotePacketBuffer {
    fn default() -> (buffer: Self)
        ensures
            buffer@ == Seq::<OutboundModel>::empty(),
    {
        let buffer = OutboundRemotePacketBuffer { packets: Vec::new() };
        assert(buffer@ =~= Seq::<OutboundModel>::empty());
        buffer
    }
}

impl OutboundRemotePacketBuffer {
    /// Collects a packet.
    pub fn push(&mut self, dst_shard: ShardId, event: RemotePacketEvent)
        ensures
            final(self)@ == old(self)@.push(OutboundModel { dst_shard, event: event@ }),
    {
        let ghost before = self@;
        self.packets.push(OutboundRemotePacket { dst_shard, event });
        assert(self@ =~= before.push(OutboundModel { dst_shard, event: event@ }));
    }

    /// Takes all packets, sorted.
    pub fn drain_sorted(&mut self) -> (packets: Vec<OutboundRemotePacket>)
        ensures
            is_sorted_version(old(self)@, outbound_models(packets@)),
            forall|i: int, j: int|
                0 <= i < j < packets@.len() ==> {
                    ||| (#[trigger] packets@[i]).dst_shard.0 < (#[trigger] packets@[j]).dst_shard.0
                    ||| packets@[i].dst_shard == packets@[j].dst_shard
                        && packets@[i].event.deliver_time.0 <= packets@[j].event.deliver_time.0
                },
            final(self)@ == Seq::<OutboundModel>::empty(),
    {
        let mut packets: Vec<OutboundRemotePacket> = Vec::new();
        std::mem::swap(&mut packets, &mut self.packets);
        let ghost collected = packets@;
        sort_by_order_key(&mut packets);
        proof {
            lemma_sorted_outbound_models(collected, packets@);
            assert(self@ =~= Seq::<OutboundModel>::empty());
            let models = outbound_models(packets@);
            assert forall|i: int, j: int| 0 <= i < j < packets@.len() implies {
                ||| (#[trigger] packets@[i]).dst_shard.0 < (#[trigger] packets@[j]).dst_shard.0
                ||| packets@[i].dst_shard == packets@[j].dst_shard
                    && packets@[i].event.deliver_time.0 <= packets@[j].event.deliver_time.0
            } by {
                law_drained_packets_are_in_delivery_order(old(self)@, models, i, j);
                assert(models[i] == packets@[i]@);
                assert(models[j] == packets@[j]@);
            }
        }
        packets
    }

    /// The number of packets.
    pub fn len(&self) -> (len: usize)
        ensures
            len == self@.len(),
    {
        self.packets.len()
    }

    /// Whether there are no packets.
    pub fn is_empty(&self) -> (empty: bool)
        ensures
            empty == (self@.len() == 0),
    {
        self.len() == 0
    }
}

/// An exchange of remote packets between shards.
pub trait RemotePacketExchange {
    /// Whether shards must be synchronized between sending and receiving.
    fn requires_external_synchronization(&self) -> bool;

    /// Sends packets to their shards.
    fn send(&mut self, packets: Vec<OutboundRemotePacket>) -> Result<
        (),
        RemotePacketExchangeError,
    >;

    /// Receives the events for a shard, sorted.
    fn receive(&mut self, shard: ShardId) -> Result<
        Vec<RemotePacketEvent>,
        RemotePacketExchangeError,
    >;
}

/// The coordination of shards. All shards make the same calls in the same order.
pub trait DistributedSynchronizer {
    /// Returns when all shards have reached the call.
    fn wait(&mut self) -> Result<(), RemotePacketExchangeError>;

    /// The earliest of the next-event times that the shards report.
    fn wait_for_global_min_next_event(&mut self, local_min_next_event_time: EmulatedTime) -> Result<
        EmulatedTime,
        RemotePacketExchangeError,
    >;
}

/// The ways in which shards can exchange packets.
#[derive(Clone, Copy, Debug, PartialEq, Eq, Structural)]
pub enum DistributedPacketExchangeBackend {
    UnixSocket,
}

/// The exchange of a run that is not split: nothing can be sent, and nothing comes in.
#[derive(Debug, Default)]
pub struct NoopRemotePacketExchange;

/// What the exchange of a run that is not split says to outbound packets.
pub open spec fn no_backend_text(count: nat) -> Seq<char> {
    decimal(count)
        + " remote packets were produced, but no remote packet exchange backend is configured"@
}

impl RemotePacketExchange for NoopRemotePacketExchange {
    fn requires_external_synchronization(&self) -> (required: bool)
        ensures
            required,
    {
        true
    }

    fn send(&mut self, packets: Vec<OutboundRemotePacket>) -> (sent: Result<
        (),
        RemotePacketExchangeError,
    >)
        ensures
            match sent {
                Ok(()) => packets@.len() == 0,
                Err(e) => packets@.len() != 0 && e@ == ExchangeFailure::Backend(
                    no_backend_text(packets@.len()),
                ),
            },
    {
        if packets.len() == 0 {
            return Ok(());
        }
        let mut text = String::new();
        push_decimal(&mut text, packets.len() as u64);
        text.append(
            " remote packets were produced, but no remote packet exchange backend is configured",
        );
        assert(text@ =~= no_backend_text(packets@.len()));
        Err(RemotePacketExchangeError::Backend(text))
    }

    fn receive(&mut self, shard: ShardId) -> (received: Result<
        Vec<RemotePacketEvent>,
        RemotePacketExchangeError,
    >)
        ensures
            received matches Ok(events) && events@.len() == 0,
    {
        Ok(Vec::new())
    }
}

/// The events of the packets that are bound for a shard, in the order of the packets.
pub open spec fn events_for(packets: Seq<OutboundModel>, shard: u32) -> Seq<EventModel>
    decreases packets.len(),
{
    if packets.len() == 0 {
        Seq::empty()
    } else {
        let earlier = events_for(packets.drop_last(), shard);
        if packets.last().dst_shard.0 == shard {
            earlier.push(packets.last().event)
        } else {
            earlier
        }
    }
}

/// Of the packets that are sent, a shard is handed the events of exactly those that are bound for
/// it.
pub proof fn law_packets_reach_their_shards(
    packets: Seq<OutboundModel>,
    shard: u32,
    event: EventModel,
)
    ensures
        events_for(packets, shard).contains(event) <==> exists|i: int|
            0 <= i < packets.len() && (#[trigger] packets[i]).dst_shard.0 == shard
                && packets[i].event == event,
    decreases packets.len(),
{
    if packets.len() > 0 {
        let shorter = packets.drop_last();
        let earlier = events_for(shorter, shard);
        let last = packets.last();
        law_packets_reach_their_shards(shorter, shard, event);
        if earlier.contains(event) {
            let i = choose|i: int|
                0 <= i < shorter.len() && (#[trigger] shorter[i]).dst_shard.0 == shard
                    && shorter[i].event == event;
            assert(packets[i].dst_shard.0 == shard && packets[i].event == event);
        }
        if last.dst_shard.0 == shard {
            let all = earlier.push(last.event);
            assert(all[earlier.len() as int] == last.event);
            assert(packets[packets.len() - 1] == last);
            if earlier.contains(event) {
                let k = earlier.index_of(event);
                assert(all[k] == event);
            }
            if all.contains(event) && !earlier.contains(event) {
                let k = all.index_of(event);
                if k < earlier.len() {
                    assert(earlier[k] == event);
                }
            }
        }
        if exists|i: int|
            0 <= i < packets.len() && (#[trigger] packets[i]).dst_shard.0 == shard
                && packets[i].event == event {
            let i = choose|i: int|
                0 <= i < packets.len() && (#[trigger] packets[i]).dst_shard.0 == shard
                    && packets[i].event == event;
            if i < shorter.len() {
                assert(shorter[i] == packets[i]);
            }
        }
    }
}

/// What waits for a shard.
pub open spec fn waiting_for(pending: Map<u32, Vec<RemotePacketEvent>>, shard: u32) -> Seq<
    EventModel,
> {
    if pending.contains_key(shard) {
        event_models(pending[shard]@)
    } else {
        Seq::empty()
    }
}

/// An exchange within one process.
#[derive(Debug)]
pub struct InProcessRemotePacketExchange {
    pending: HashMap<u32, Vec<RemotePacketEvent>>,
}

impl InProcessRemotePacketExchange {
    /// What waits for a shard.
    pub closed spec fn waiting(&self, shard: u32) -> Seq<EventModel> {
        waiting_for(self.pending@, shard)
    }
}

impl Default for InProcessRemotePacketExchange {
    fn default() -> (exchange: Self)
        ensures
            forall|shard: u32| #[trigger] exchange.waiting(shard) == Seq::<EventModel>::empty(),
    {
        InProcessRemotePacketExchange { pending: HashMap::new() }
    }
}

/// Puts an event behind those that wait for a shard.
fn add_pending(pending: &mut HashMap<u32, Vec<RemotePacketEvent>>, shard: u32, event:
    RemotePacketEvent)
    ensures
        forall|s: u32| #[trigger]
            waiting_for(final(pending)@, s) == (if s == shard {
                waiting_for(old(pending)@, s).push(event@)
            } else {
                waiting_for(old(pending)@, s)
            }),
        forall|s: u32| #[trigger]
            final(pending)@.contains_key(s) <==> s == shard || old(pending)@.contains_key(s),
{
    broadcast use group_hash_axioms;

    let mut events: Vec<RemotePacketEvent> = match pending.remove(&shard) {
        Some(events) => events,
        None => Vec::new(),
    };
    let ghost before = event_models(events@);
    assert(before =~= waiting_for(old(pending)@, shard));
    events.push(event);
    assert(event_models(events@) =~= before.push(event@));
    pending.insert(shard, events);
}

impl RemotePacketExchange for InProcessRemotePacketExchange {
    fn requires_external_synchronization(&self) -> (required: bool)
        ensures
            required,
    {
        true
    }

    fn send(&mut self, packets: Vec<OutboundRemotePacket>) -> (sent: Result<
        (),
        RemotePacketExchangeError,
    >)
        ensures
            sent is Ok,
            forall|shard: u32| #[trigger]
                final(self).waiting(shard) == old(self).waiting(shard) + events_for(
                    outbound_models(packets@),
                    shard,
                ),
    {
        let ghost whole = packets@;
        let ghost models = outbound_models(whole);
        let ghost mut done: int = 0;
        proof {
            assert forall|shard: u32| #[trigger]
                self.waiting(shard) == old(self).waiting(shard) + events_for(
                    models.take(0),
                    shard,
                ) by {
                assert(self.waiting(shard) =~= old(self).waiting(shard) + events_for(
                    models.take(0),
                    shard,
                ));
            }
        }
        for packet in it: packets
            invariant
                models == outbound_models(whole),
                it.seq() == whole,
                it.index() == done,
                forall|shard: u32| #[trigger]
                    self.waiting(shard) == old(self).waiting(shard) + events_for(
                        models.take(done),
                        shard,
                    ),
        {
            let ghost model = packet@;
            let ghost before = *self;
            let dst: u32 = packet.dst_shard.0;
            add_pending(&mut self.pending, dst, packet.event);
            proof {
                assert(models.take(done + 1) =~= models.take(done).push(model));
                assert(models.take(done + 1).drop_last() =~= models.take(done));
                assert forall|shard: u32| #[trigger]
                    self.waiting(shard) == old(self).waiting(shard) + events_for(
                        models.take(done + 1),
                        shard,
                    ) by {
                    let earlier = before.waiting(shard);
                    assert(self.waiting(shard) =~= old(self).waiting(shard) + events_for(
                        models.take(done + 1),
                        shard,
                    ));
                }
                done = done + 1;
            }
        }
        assert(models.take(done) =~= models);
        Ok(())
    }

    fn receive(&mut self, shard: ShardId) -> (received: Result<
        Vec<RemotePacketEvent>,
        RemotePacketExchangeError,
    >)
        ensures
            received matches Ok(events) && is_sorted_version(
                old(self).waiting(shard.0),
                event_models(events@),
            ),
            received matches Ok(events) ==> forall|i: int, j: int|
                0 <= i < j < events@.len() ==> {
                    ||| (#[trigger] events@[i]).deliver_time.0 < (#[trigger] events@[j]).deliver_time.0
                    ||| events@[i].deliver_time == events@[j].deliver_time && events@[i].src_host_id.0
                        < events@[j].src_host_id.0
                    ||| events@[i].deliver_time == events@[j].deliver_time && events@[i].src_host_id
                        == events@[j].src_host_id && events@[i].src_host_event_id
                        < events@[j].src_host_event_id
                    ||| events@[i].deliver_time == events@[j].deliver_time && events@[i].src_host_id
                        == events@[j].src_host_id && events@[i].src_host_event_id
                        == events@[j].src_host_event_id && events@[i].dst_host_id.0
                        <= events@[j].dst_host_id.0
                },
            forall|s: u32| #[trigger]
                final(self).waiting(s) == (if s == shard.0 {
                    Seq::<EventModel>::empty()
                } else {
                    old(self).waiting(s)
                }),
    {
        broadcast use group_hash_axioms;

        let mut packets: Vec<RemotePacketEvent> = match self.pending.remove(&shard.0) {
            Some(events) => events,
            None => Vec::new(),
        };
        let ghost unsorted = packets@;
        assert(event_models(unsorted) =~= old(self).waiting(shard.0));
        sort_by_order_key(&mut packets);
        proof {
            lemma_sorted_event_models(unsorted, packets@);
            assert forall|i: int, j: int| 0 <= i < j < packets@.len() implies {
                ||| (#[trigger] packets@[i]).deliver_time.0 < (#[trigger] packets@[j]).deliver_time.0
                ||| packets@[i].deliver_time == packets@[j].deliver_time && packets@[i].src_host_id.0
                    < packets@[j].src_host_id.0
                ||| packets@[i].deliver_time == packets@[j].deliver_time && packets@[i].src_host_id
                    == packets@[j].src_host_id && packets@[i].src_host_event_id < packets@[j].src_host_event_id
                ||| packets@[i].deliver_time == packets@[j].deliver_time && packets@[i].src_host_id
                    == packets@[j].src_host_id && packets@[i].src_host_event_id == packets@[j].src_host_event_id
                    && packets@[i].dst_host_id.0 <= packets@[j].dst_host_id.0
            } by {
                law_sorted_events_are_in_delivery_order(event_models(unsorted), event_models(packets@), i, j);
            }
        }
        Ok(packets)
    }
}

/// Whether some packet is bound for a shard.
pub open spec fn is_addressed(packets: Seq<OutboundModel>, shard: u32) -> bool {
    exists|i: int| 0 <= i < packets.len() && (#[trigger] packets[i]).dst_shard.0 == shard
}

/// Whether groups hold the events of packets, one group for each shard that some packet is bound
/// for, with the shards ascending.
pub open spec fn groups_of(
    groups: Seq<(ShardId, Vec<RemotePacketEvent>)>,
    packets: Seq<OutboundModel>,
) -> bool {
    &&& forall|k: int|
        0 <= k < groups.len() ==> is_addressed(packets, (#[trigger] groups[k]).0.0) && event_models(
            groups[k].1@,
        ) == events_for(packets, groups[k].0.0)
    &&& forall|k: int, l: int|
        0 <= k < l < groups.len() ==> (#[trigger] groups[k]).0.0 < (#[trigger] groups[l]).0.0
    &&& forall|shard: u32| #[trigger]
        is_addressed(packets, shard) ==> exists|k: int|
            0 <= k < groups.len() && (#[trigger] groups[k]).0.0 == shard
}

proof fn lemma_is_addressed_push(packets: Seq<OutboundModel>, packet: OutboundModel, shard: u32)
    ensures
        is_addressed(packets.push(packet), shard) <==> is_addressed(packets, shard)
            || packet.dst_shard.0 == shard,
        events_for(packets.push(packet), shard) == (if packet.dst_shard.0 == shard {
            events_for(packets, shard).push(packet.event)
        } else {
            events_for(packets, shard)
        }),
{
    let longer = packets.push(packet);
    assert(longer.drop_last() =~= packets);
    assert(longer[packets.len() as int] == packet);
    if is_addressed(packets, shard) {
        let i = choose|i: int| 0 <= i < packets.len() && (#[trigger] packets[i]).dst_shard.0 == shard;
        assert(longer[i].dst_shard.0 == shard);
    }
    if is_addressed(longer, shard) && packet.dst_shard.0 != shard {
        let i = choose|i: int| 0 <= i < longer.len() && (#[trigger] longer[i]).dst_shard.0 == shard;
        assert(packets[i].dst_shard.0 == shard);
    }
}

proof fn lemma_not_addressed_no_events(packets: Seq<OutboundModel>, shard: u32)
    requires
        !is_addressed(packets, shard),
    ensures
        events_for(packets, shard) == Seq::<EventModel>::empty(),
    decreases packets.len(),
{
    if packets.len() > 0 {
        let shorter = packets.drop_last();
        assert(shorter.push(packets.last()) =~= packets);
        lemma_is_addressed_push(shorter, packets.last(), shard);
        lemma_not_addressed_no_events(shorter, shard);
    }
}

/// The first group of a shard that is not below the given one.
fn find_group(groups: &Vec<(ShardId, Vec<RemotePacketEvent>)>, shard: u32) -> (place: usize)
    requires
        forall|k: int, l: int|
            0 <= k < l < groups@.len() ==> (#[trigger] groups@[k]).0.0 < (#[trigger] groups@[l]).0.0,
    ensures
        place <= groups@.len(),
        forall|k: int| 0 <= k < place ==> (#[trigger] groups@[k]).0.0 < shard,
        forall|k: int| place <= k < groups@.len() ==> (#[trigger] groups@[k]).0.0 >= shard,
{
    let mut place: usize = 0;
    while place < groups.len() && groups[place].0.0 < shard
        invariant
            place <= groups@.len(),
            forall|k: int| 0 <= k < place ==> (#[trigger] groups@[k]).0.0 < shard,
        decreases groups@.len() - place,
    {
        place += 1;
    }
    place
}

/// Adding a packet to the group of its shard keeps the groups in order.
proof fn lemma_groups_grow(
    before: Seq<(ShardId, Vec<RemotePacketEvent>)>,
    after: Seq<(ShardId, Vec<RemotePacketEvent>)>,
    place: int,
    packets: Seq<OutboundModel>,
    packet: OutboundModel,
)
    requires
        groups_of(before, packets),
        0 <= place < before.len(),
        before[place].0.0 == packet.dst_shard.0,
        after.len() == before.len(),
        forall|k: int| 0 <= k < after.len() && k != place ==> after[k] == before[k],
        after[place].0 == before[place].0,
        event_models(after[place].1@) == event_models(before[place].1@).push(packet.event),
    ensures
        groups_of(after, packets.push(packet)),
{
    let longer = packets.push(packet);
    assert forall|k: int| 0 <= k < after.len() implies is_addressed(
        longer,
        (#[trigger] after[k]).0.0,
    ) && event_models(after[k].1@) == events_for(longer, after[k].0.0) by {
        lemma_is_addressed_push(packets, packet, after[k].0.0);
        assert(is_addressed(packets, before[k].0.0));
        if k != place {
            assert(before[k].0.0 != before[place].0.0) by {
                if k < place {
                    assert(before[k].0.0 < before[place].0.0);
                } else {
                    assert(before[place].0.0 < before[k].0.0);
                }
            }
        }
    }
    assert forall|k: int, l: int| 0 <= k < l < after.len() implies (#[trigger] after[k]).0.0 < (
    #[trigger] after[l]).0.0 by {
        assert(before[k].0.0 < before[l].0.0);
    }
    assert forall|shard: u32| #[trigger] is_addressed(longer, shard) implies exists|k: int|
        0 <= k < after.len() && (#[trigger] after[k]).0.0 == shard by {
        lemma_is_addressed_push(packets, packet, shard);
        if is_addressed(packets, shard) {
            let k = choose|k: int| 0 <= k < before.len() && (#[trigger] before[k]).0.0 == shard;
            assert(after[k].0.0 == shard);
        } else {
            assert(after[place].0.0 == shard);
        }
    }
}

/// Putting a group of a new shard into its place keeps the groups in order.
proof fn lemma_groups_insert(
    before: Seq<(ShardId, Vec<RemotePacketEvent>)>,
    group: (ShardId, Vec<RemotePacketEvent>),
    place: int,
    packets: Seq<OutboundModel>,
    packet: OutboundModel,
)
    requires
        groups_of(before, packets),
        0 <= place <= before.len(),
        forall|k: int| 0 <= k < place ==> (#[trigger] before[k]).0.0 < packet.dst_shard.0,
        forall|k: int|
            place <= k < before.len() ==> (#[trigger] before[k]).0.0 > packet.dst_shard.0,
        group.0 == packet.dst_shard,
        event_models(group.1@) == seq![packet.event],
    ensures
        groups_of(before.insert(place, group), packets.push(packet)),
{
    let longer = packets.push(packet);
    let after = before.insert(place, group);
    assert(!is_addressed(packets, packet.dst_shard.0)) by {
        if is_addressed(packets, packet.dst_shard.0) {
            let k = choose|k: int|
                0 <= k < before.len() && (#[trigger] before[k]).0.0 == packet.dst_shard.0;
            assert(before[k].0.0 != packet.dst_shard.0);
        }
    }
    lemma_not_addressed_no_events(packets, packet.dst_shard.0);
    assert forall|k: int| 0 <= k < after.len() implies is_addressed(
        longer,
        (#[trigger] after[k]).0.0,
    ) && event_models(after[k].1@) == events_for(longer, after[k].0.0) by {
        lemma_is_addressed_push(packets, packet, after[k].0.0);
        if k < place {
            assert(after[k] == before[k]);
            assert(before[k].0.0 < packet.dst_shard.0);
        } else if k > place {
            assert(after[k] == before[k - 1]);
            assert(before[k - 1].0.0 > packet.dst_shard.0);
        } else {
            assert(Seq::<EventModel>::empty().push(packet.event) =~= seq![packet.event]);
        }
    }
    assert forall|k: int, l: int| 0 <= k < l < after.len() implies (#[trigger] after[k]).0.0 < (
    #[trigger] after[l]).0.0 by {
        if k < place && l < place {
            assert(before[k].0.0 < before[l].0.0);
        } else if k < place && l > place {
            assert(before[k].0.0 < before[l - 1].0.0);
        } else if k > place {
            assert(before[k - 1].0.0 < before[l - 1].0.0);
        } else if k == place {
            assert(after[l] == before[l - 1]);
        } else {
            assert(after[k] == before[k]);
        }
    }
    assert forall|shard: u32| #[trigger] is_addressed(longer, shard) implies exists|k: int|
        0 <= k < after.len() && (#[trigger] after[k]).0.0 == shard by {
        lemma_is_addressed_push(packets, packet, shard);
        if is_addressed(packets, shard) {
            let k = choose|k: int| 0 <= k < before.len() && (#[trigger] before[k]).0.0 == shard;
            if k < place {
                assert(after[k].0.0 == shard);
            } else {
                assert(after[k + 1].0.0 == shard);
            }
        } else {
            assert(after[place].0.0 == shard);
        }
    }
}

/// Packets by receiving shard, with the shards ascending, each shard's events in the order in which
/// the packets stand.
pub fn group_by_shard(packets: Vec<OutboundRemotePacket>) -> (groups: Vec<
    (ShardId, Vec<RemotePacketEvent>),
>)
    ensures
        groups_of(groups@, outbound_models(packets@)),
{
    let ghost whole = packets@;
    let ghost models = outbound_models(whole);
    let ghost mut done: int = 0;
    let mut groups: Vec<(ShardId, Vec<RemotePacketEvent>)> = Vec::new();
    for packet in it: packets
        invariant
            models == outbound_models(whole),
            it.seq() == whole,
            it.index() == done,
            groups_of(groups@, models.take(done)),
    {
        let ghost model = packet@;
        let ghost before = groups@;
        let dst_shard = packet.dst_shard;
        let place: usize = find_group(&groups, dst_shard.0);
        if place < groups.len() && groups[place].0.0 == dst_shard.0 {
            groups[place].1.push(packet.event);
            proof {
                assert(event_models(groups@[place as int].1@) =~= event_models(
                    before[place as int].1@,
                ).push(model.event));
                lemma_groups_grow(before, groups@, place as int, models.take(done), model);
            }
        } else {
            let mut events: Vec<RemotePacketEvent> = Vec::new();
            events.push(packet.event);
            proof {
                assert(event_models(events@) =~= seq![model.event]);
                lemma_groups_insert(
                    before,
                    (dst_shard, events),
                    place as int,
                    models.take(done),
                    model,
                );
            }
            groups.insert(place, (dst_shard, events));
        }
        proof {
            assert(models.take(done + 1) =~= models.take(done).push(model));
            done = done + 1;
        }
    }
    assert(models.take(done) =~= models);
    groups
}

/// What is said where a shard is to receive what is for another.
pub open spec fn wrong_shard_text(current_shard: ShardId, shard: ShardId) -> Seq<char> {
    "IPC exchange for shard "@ + current_shard.shown() + " cannot receive packets for shard "@
        + shard.shown()
}

/// The events that come in for a shard, batch by batch.
#[derive(Debug)]
pub struct InboundPackets {
    shard: ShardId,
    packets: Vec<RemotePacketEvent>,
}

impl InboundPackets {
    /// The receiving shard.
    pub closed spec fn receiver(&self) -> ShardId {
        self.shard
    }

    /// The events that came in so far, in the order of arrival.
    pub closed spec fn arrived(&self) -> Seq<EventModel> {
        event_models(self.packets@)
    }

    /// Begins to receive for a shard, which must be the current one.
    pub fn begin(current_shard: ShardId, shard: ShardId) -> (inbound: Result<
        Self,
        RemotePacketExchangeError,
    >)
        ensures
            match inbound {
                Ok(i) => shard == current_shard && i.receiver() == shard && i.arrived() == Seq::<
                    EventModel,
                >::empty(),
                Err(e) => shard != current_shard && e@ == ExchangeFailure::Backend(
                    wrong_shard_text(current_shard, shard),
                ),
            },
    {
        if shard != current_shard {
            let mut text = String::new();
            text.append("IPC exchange for shard ");
            current_shard.push_shown(&mut text);
            text.append(" cannot receive packets for shard ");
            shard.push_shown(&mut text);
            assert(text@ =~= wrong_shard_text(current_shard, shard));
            return Err(RemotePacketExchangeError::Backend(text));
        }
        let inbound = InboundPackets { shard, packets: Vec::new() };
        assert(inbound.arrived() =~= Seq::<EventModel>::empty());
        Ok(inbound)
    }

    /// Takes in a batch. On bytes that are no batch nothing changes.
    pub fn accept(&mut self, payload: &[u8]) -> (accepted: Result<(), RemotePacketExchangeError>)
        ensures
            final(self).receiver() == old(self).receiver(),
            match (accepted, received_batch(payload@, old(self).receiver())) {
                (Ok(()), Ok(events)) => final(self).arrived() == old(self).arrived() + events,
                (Err(e), Err(failure)) => *final(self) == *old(self) && e@ == failure,
                _ => false,
            },
    {
        let list = decode_remote_packet_batch(payload, self.shard)?;
        let ghost models = event_models(list@);
        let mut more = list;
        self.packets.append(&mut more);
        assert(self.arrived() =~= old(self).arrived() + models);
        Ok(())
    }

    /// All events, sorted.
    pub fn finish(self) -> (events: Vec<RemotePacketEvent>)
        ensures
            is_sorted_version(self.arrived(), event_models(events@)),
            forall|i: int, j: int|
                0 <= i < j < events@.len() ==> {
                    ||| (#[trigger] events@[i]).deliver_time.0 < (#[trigger] events@[j]).deliver_time.0
                    ||| events@[i].deliver_time == events@[j].deliver_time && events@[i].src_host_id.0
                        < events@[j].src_host_id.0
                    ||| events@[i].deliver_time == events@[j].deliver_time && events@[i].src_host_id
                        == events@[j].src_host_id && events@[i].src_host_event_id
                        < events@[j].src_host_event_id
                    ||| events@[i].deliver_time == events@[j].deliver_time && events@[i].src_host_id
                        == events@[j].src_host_id && events@[i].src_host_event_id
                        == events@[j].src_host_event_id && events@[i].dst_host_id.0
                        <= events@[j].dst_host_id.0
                },
    {
        let mut events = self.packets;
        let ghost unsorted = events@;
        sort_by_order_key(&mut events);
        proof {
            lemma_sorted_event_models(unsorted, events@);
            assert forall|i: int, j: int| 0 <= i < j < events@.len() implies {
                ||| (#[trigger] events@[i]).deliver_time.0 < (#[trigger] events@[j]).deliver_time.0
                ||| events@[i].deliver_time == events@[j].deliver_time && events@[i].src_host_id.0
                    < events@[j].src_host_id.0
                ||| events@[i].deliver_time == events@[j].deliver_time && events@[i].src_host_id
                    == events@[j].src_host_id && events@[i].src_host_event_id < events@[j].src_host_event_id
                ||| events@[i].deliver_time == events@[j].deliver_time && events@[i].src_host_id
                    == events@[j].src_host_id && events@[i].src_host_event_id == events@[j].src_host_event_id
                    && events@[i].dst_host_id.0 <= events@[j].dst_host_id.0
            } by {
                law_sorted_events_are_in_delivery_order(event_models(unsorted), event_models(events@), i, j);
            }
        }
        events
    }
}

/// A name within a directory.
pub open spec fn within(dir: Seq<char>, name: Seq<char>) -> Seq<char> {
    if dir.len() == 0 || dir.last() == '/' {
        dir + name
    } else {
        dir + "/"@ + name
    }
}

fn join_name(dir: &str, name: &str) -> (path: String)
    ensures
        path@ == within(dir@, name@),
{
    let chars = crate::text::chars_of(dir);
    let mut path = String::new();
    path.append(dir);
    if chars.len() != 0 && chars[chars.len() - 1] != '/' {
        path.append("/");
    }
    path.append(name);
    assert(path@ =~= within(dir@, name@));
    path
}

/// The path of a shard's socket.
pub fn unix_socket_path(socket_dir: &str, shard: ShardId) -> (path: String)
    ensures
        path@ == within(socket_dir@, crate::transport::exchange::socket_name(shard)),
{
    let name = crate::transport::exchange::socket_file_name(shard);
    join_name(socket_dir, name.as_str())
}

/// The path of the socket that the control server listens on.
pub fn unix_control_socket_path(socket_dir: &str) -> (path: String)
    ensures
        path@ == within(socket_dir@, "shadow-control.sock"@),
{
    join_name(socket_dir, "shadow-control.sock")
}

/// What a shard sends for a group arrives: of a batch that could be written, the receiver gets the
/// events of the group, sorted.
pub proof fn law_sent_group_arrives(
    events: Seq<EventModel>,
    shard: ShardId,
    received: Seq<EventModel>,
)
    requires
        batch_fault(all_on_wire(events)) is None,
        forall|i: int| 0 <= i < events.len() ==> (#[trigger] events[i]).deliver_time.valid(),
        received_batch(batch_bytes(all_on_wire(events)), shard) matches Ok(arrived)
            && is_sorted_version(arrived, received),
    ensures
        is_sorted_version(events, received),
{
    crate::distributed::batch::law_batch_round_trip(events, shard);
}

/// Drained packets are grouped by receiving shard, with the shards ascending, and within a shard
/// they are in the order of their delivery: by time, then by sending host, by event number and by
/// receiving host.
pub proof fn law_drained_packets_are_in_delivery_order(
    input: Seq<OutboundModel>,
    output: Seq<OutboundModel>,
    i: int,
    j: int,
)
    requires
        is_sorted_version(input, output),
        0 <= i < j < output.len(),
    ensures
        output[i].dst_shard.0 <= output[j].dst_shard.0,
        output[i].dst_shard == output[j].dst_shard ==> {
            let a = output[i].event;
            let b = output[j].event;
            ||| a.deliver_time.0 < b.deliver_time.0
            ||| a.deliver_time == b.deliver_time && a.src_host_id.0 < b.src_host_id.0
            ||| a.deliver_time == b.deliver_time && a.src_host_id == b.src_host_id
                && a.src_host_event_id < b.src_host_event_id
            ||| a.deliver_time == b.deliver_time && a.src_host_id == b.src_host_id
                && a.src_host_event_id == b.src_host_event_id && a.dst_host_id.0
                <= b.dst_host_id.0
        },
        output.to_multiset() == input.to_multiset(),
{
    law_sorting_keeps_the_items(input, output);
    let order = choose|order: Seq<int>| sorts(input, output, order);
    assert(key_before(output[i].key(), output[j].key()) || output[i].key() == output[j].key());
}

/// Where the events that a shard is handed stood among the packets: the places ascend, they are
/// those of all packets that are bound for the shard, and each event is that of its packet.
pub proof fn law_shard_is_handed_its_packets_in_order(packets: Seq<OutboundModel>, shard: u32) -> (
    places: Seq<int>)
    ensures
        places.len() == events_for(packets, shard).len(),
        forall|k: int|
            0 <= k < places.len() ==> 0 <= #[trigger] places[k] < packets.len()
                && packets[places[k]].dst_shard.0 == shard && packets[places[k]].event
                == events_for(packets, shard)[k],
        forall|k: int, l: int|
            0 <= k < l < places.len() ==> #[trigger] places[k] < #[trigger] places[l],
        forall|i: int|
            0 <= i < packets.len() && (#[trigger] packets[i]).dst_shard.0 == shard
                ==> places.contains(i),
    decreases packets.len(),
{
    if packets.len() == 0 {
        Seq::empty()
    } else {
        let shorter = packets.drop_last();
        let earlier = law_shard_is_handed_its_packets_in_order(shorter, shard);
        let last = packets.len() - 1;
        let places = if packets[last].dst_shard.0 == shard {
            earlier.push(last)
        } else {
            earlier
        };
        assert forall|i: int|
            0 <= i < packets.len() && (#[trigger] packets[i]).dst_shard.0 == shard implies
            places.contains(i) by {
            if i < last {
                assert(shorter[i] == packets[i]);
                assert(earlier.contains(i));
                let k = choose|k: int| 0 <= k < earlier.len() && earlier[k] == i;
                assert(places[k] == i);
            } else {
                assert(places[earlier.len() as int] == i);
            }
        }
        assert forall|k: int| 0 <= k < places.len() implies 0 <= #[trigger] places[k]
            < packets.len() && packets[places[k]].dst_shard.0 == shard && packets[places[k]].event
            == events_for(packets, shard)[k] by {
            if k < earlier.len() {
                assert(places[k] == earlier[k]);
                assert(shorter[earlier[k]] == packets[earlier[k]]);
            }
        }
        assert forall|k: int, l: int| 0 <= k < l < places.len() implies #[trigger] places[k]
            < #[trigger] places[l] by {
            assert(places[k] == earlier[k]);
            if l < earlier.len() {
                assert(places[l] == earlier[l]);
            }
        }
        places
    }
}

/// A name stands behind its directory, and a slash stands between them.
pub proof fn law_names_stand_behind_their_directory(dir: Seq<char>, name: Seq<char>)
    ensures
        within(dir, name).len() >= name.len(),
        within(dir, name).subrange(
            within(dir, name).len() - name.len(),
            within(dir, name).len() as int,
        ) == name,
        dir.len() > 0 ==> within(dir, name)[within(dir, name).len() - name.len() - 1] == '/',
        within(dir, name).take(dir.len() as int) == dir,
        within(dir, name).len() <= dir.len() + 1 + name.len(),
{
    reveal_strlit("/");
    let path = within(dir, name);
    assert(path.subrange(path.len() - name.len(), path.len() as int) =~= name);
    assert(path.take(dir.len() as int) =~= dir);
}

/// What packets hold stands in the order of the packets.
pub proof fn law_models_stand_in_the_order_of_packets(packets: Seq<OutboundRemotePacket>, i: int)
    requires
        0 <= i < packets.len(),
    ensures
        outbound_models(packets).len() == packets.len(),
        outbound_models(packets)[i].dst_shard == packets[i].dst_shard,
        outbound_models(packets)[i].event == packets[i].event@,
{
}

/// What is said to packets that nothing can send, and to a shard that receives for another.
pub proof fn law_what_is_said_of_exchanges(count: nat, current_shard: ShardId, shard: ShardId)
    ensures
        no_backend_text(count) == decimal(count)
            + " remote packets were produced, but no remote packet exchange backend is configured"@,
        wrong_shard_text(current_shard, shard) == "IPC exchange for shard "@
            + current_shard.shown() + " cannot receive packets for shard "@ + shard.shown(),
{
}

} // verus!
