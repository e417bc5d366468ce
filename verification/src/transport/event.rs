//! Remote packet events: packets with the time, the order and the hosts of their delivery, and the
//! byte format of batches of them.

use vstd::prelude::*;
use vstd::string::*;

use crate::bytes::{
    be_bytes, copy_range, get_be, get_be_u32, lemma_be_bytes_len, lemma_byte_capacities,
    lemma_join_assoc, lemma_number_at, lemma_number_between, number_at, push_all, push_be,
};
use crate::ids::{HostId, ShardId};
use crate::sorting::{
    Key, Keyed, OrderKey, is_sorted_version, key_before, law_sorting_keeps_the_items, sorts,
};
use crate::text::{decimal, push_decimal};
use crate::time::{EMUTIME_MAX, EMUTIME_SIMULATION_START, EmulatedTime, SIMTIME_MAX};
use crate::transport::packet::{
    PacketModel, PacketSerializationError, SerializedPacket, law_packet_is_read_where_it_fits,
    law_packet_round_trip, lemma_header_len, parse_packet,
};
use crate::transport::partition::PartitionMap;

verus! {

/// A packet that a host of another shard receives. It carries what the receiving shard needs to
/// put it into the right place of the host's queue.
#[derive(Debug, PartialEq, Eq)]
pub struct RemotePacketEvent {
    /// When the packet arrives.
    pub deliver_time: EmulatedTime,
    /// The sending host.
    pub src_host_id: HostId,
    /// The number that the sending host gave to the event; it grows from event to event.
    pub src_host_event_id: u64,
    /// The receiving host.
    pub dst_host_id: HostId,
    /// The packet.
    pub packet: SerializedPacket,
}

/// What a remote packet event holds.
#[verifier::ext_equal]
pub struct EventModel {
    pub deliver_time: EmulatedTime,
    pub src_host_id: HostId,
    pub src_host_event_id: u64,
    pub dst_host_id: HostId,
    pub packet: PacketModel,
}

impl View for RemotePacketEvent {
    type V = EventModel;

    open spec fn view(&self) -> EventModel {
        EventModel {
            deliver_time: self.deliver_time,
            src_host_id: self.src_host_id,
            src_host_event_id: self.src_host_event_id,
            dst_host_id: self.dst_host_id,
            packet: self.packet@,
        }
    }
}

/// What the events of a list hold.
pub open spec fn event_models(events: Seq<RemotePacketEvent>) -> Seq<EventModel> {
    Seq::new(events.len(), |i: int| events[i]@)
}

impl Clone for RemotePacketEvent {
    fn clone(&self) -> (copy: Self)
        ensures
            copy@ == self@,
    {
        RemotePacketEvent {
            deliver_time: self.deliver_time,
            src_host_id: self.src_host_id,
            src_host_event_id: self.src_host_event_id,
            dst_host_id: self.dst_host_id,
            packet: self.packet.clone(),
        }
    }
}

/// Events are ordered by delivery time, sending host, event number and receiving host.
impl Keyed for EventModel {
    open spec fn key(self) -> Key {
        (0, self.deliver_time.0, self.src_host_id.0, self.src_host_event_id, self.dst_host_id.0)
    }
}

impl Keyed for RemotePacketEvent {
    open spec fn key(self) -> Key {
        self@.key()
    }
}

impl OrderKey for RemotePacketEvent {
    fn order_key(&self) -> (k: Key) {
        (0, self.deliver_time.0, self.src_host_id.0, self.src_host_event_id, self.dst_host_id.0)
    }
}

/// Sorting events sorts what they hold.
pub proof fn lemma_sorted_event_models(
    input: Seq<RemotePacketEvent>,
    output: Seq<RemotePacketEvent>,
)
    requires
        is_sorted_version(input, output),
    ensures
        is_sorted_version(event_models(input), event_models(output)),
{
    let order = choose|order: Seq<int>| sorts(input, output, order);
    let before = event_models(input);
    let after = event_models(output);
    assert forall|i: int| 0 <= i < after.len() implies #[trigger] after[i] == before[order[i]] by {
        assert(output[i] == input[order[i]]);
    }
    assert forall|i: int, j: int| 0 <= i < j < after.len() implies {
        ||| crate::sorting::key_before((#[trigger] after[i]).key(), (#[trigger] after[j]).key())
        ||| after[i].key() == after[j].key() && order[i] < order[j]
    } by {
        assert(output[i].key() == after[i].key());
        assert(output[j].key() == after[j].key());
    }
    assert(sorts(before, after, order));
}

/// The largest payload of one packet: 16 MiB.
pub const MAX_PAYLOAD_BYTES: usize = 16 * 1024 * 1024;

/// The largest packet that a batch is read with: the largest payload and room for the headers. A
/// packet of this length can carry more than the largest payload; such a packet is not read either.
pub const MAX_PACKET_BYTES: usize = MAX_PAYLOAD_BYTES + 1024;

/// The largest number of events in one batch.
pub const MAX_BATCH_EVENTS: u32 = 1_000_000;

/// The first bytes of every batch.
pub open spec fn batch_magic() -> Seq<u8> {
    seq![0x53u8, 0x48u8, 0x52u8, 0x42u8]
}

/// The version of the batch format.
pub const BATCH_VERSION: u8 = 1;

/// What stands in front of the packet of an event: time since the start of the simulation, hosts
/// and event number, and the length of the packet.
pub open spec fn event_head_bytes(nanos: nat, src: u32, id: u64, dst: u32, len: nat) -> Seq<u8> {
    be_bytes(nanos, 8) + be_bytes(src as nat, 4) + be_bytes(id as nat, 8) + be_bytes(dst as nat, 4)
        + be_bytes(len, 4)
}

/// The bytes of one event.
pub open spec fn event_bytes(event: EventModel) -> Seq<u8> {
    event_head_bytes(
        (event.deliver_time.0 - EMUTIME_SIMULATION_START) as nat,
        event.src_host_id.0,
        event.src_host_event_id,
        event.dst_host_id.0,
        event.packet.bytes().len(),
    ) + event.packet.bytes()
}

/// The bytes of a list of events, one after the other.
pub open spec fn events_bytes(events: Seq<EventModel>) -> Seq<u8>
    decreases events.len(),
{
    if events.len() == 0 {
        Seq::empty()
    } else {
        event_bytes(events[0]) + events_bytes(events.skip(1))
    }
}

/// What stands in front of the events of a batch.
pub open spec fn batch_head_bytes(count: nat) -> Seq<u8> {
    batch_magic() + seq![BATCH_VERSION] + be_bytes(count, 4)
}

/// The byte format of a batch of events.
pub open spec fn batch_bytes(events: Seq<EventModel>) -> Seq<u8> {
    batch_head_bytes(events.len()) + events_bytes(events)
}

/// The event that stands at `pos`, with the position behind it, or why none stands there: the bytes
/// end too early, the packet or its payload is too long, or its bytes are no packet.
pub open spec fn parse_event(data: Seq<u8>, pos: int) -> Result<
    (EventModel, int),
    PacketSerializationError,
> {
    let len = number_at(data, pos + 24, 4);
    if data.len() < pos + 28 {
        Err(PacketSerializationError::Truncated)
    } else if len > MAX_PACKET_BYTES {
        Err(PacketSerializationError::TooManySackBlocks(len as usize))
    } else if data.len() < pos + 28 + len {
        Err(PacketSerializationError::Truncated)
    } else {
        match parse_packet(data.subrange(pos + 28, pos + 28 + len)) {
            Err(e) => Err(e),
            Ok(packet) => if packet.payload_bytes().len() > MAX_PAYLOAD_BYTES {
                Err(
                    PacketSerializationError::TooManySackBlocks(
                        packet.payload_bytes().len() as usize,
                    ),
                )
            } else {
                Ok(
                    (
                        EventModel {
                            deliver_time: EmulatedTime(
                                (EMUTIME_SIMULATION_START + number_at(data, pos, 8)) as u64,
                            ),
                            src_host_id: HostId(number_at(data, pos + 8, 4) as u32),
                            src_host_event_id: number_at(data, pos + 12, 8) as u64,
                            dst_host_id: HostId(number_at(data, pos + 20, 4) as u32),
                            packet,
                        },
                        pos + 28 + len,
                    ),
                )
            },
        }
    }
}

/// The `count` events that stand from `pos` on, or why the first of them that cannot be read cannot.
pub open spec fn parse_events(data: Seq<u8>, pos: int, count: nat) -> Result<
    Seq<EventModel>,
    PacketSerializationError,
>
    decreases count,
{
    if count == 0 {
        Ok(Seq::empty())
    } else {
        match parse_event(data, pos) {
            Err(e) => Err(e),
            Ok((event, next)) => match parse_events(data, next, (count - 1) as nat) {
                Err(e) => Err(e),
                Ok(rest) => Ok(seq![event] + rest),
            },
        }
    }
}

/// The events of a batch, or why the bytes are no batch. Bytes behind the batch are allowed.
pub open spec fn parse_batch(data: Seq<u8>) -> Result<Seq<EventModel>, PacketSerializationError> {
    if data.len() < 9 {
        Err(PacketSerializationError::Truncated)
    } else if data.subrange(0, 4) != batch_magic() {
        Err(PacketSerializationError::EmptyData)
    } else if data[4] != BATCH_VERSION {
        Err(PacketSerializationError::UnknownTag(data[4]))
    } else if number_at(data, 5, 4) > MAX_BATCH_EVENTS {
        Err(PacketSerializationError::TooManySackBlocks(number_at(data, 5, 4) as usize))
    } else {
        parse_events(data, 9, number_at(data, 5, 4))
    }
}

/// Whether each event that is read from `pos` on, up to the first that cannot be, has a delivery
/// time that a simulation can reach.
pub open spec fn times_in_range(data: Seq<u8>, pos: int, count: nat) -> bool
    decreases count,
{
    count == 0 || match parse_event(data, pos) {
        Err(_) => true,
        Ok((_, next)) => number_at(data, pos, 8) <= SIMTIME_MAX && times_in_range(
            data,
            next,
            (count - 1) as nat,
        ),
    }
}

/// Whether each event that is read of a batch has a delivery time that a simulation can reach.
pub open spec fn batch_times_in_range(data: Seq<u8>) -> bool {
    data.len() >= 9 && data.subrange(0, 4) == batch_magic() && data[4] == BATCH_VERSION
        && number_at(data, 5, 4) <= MAX_BATCH_EVENTS ==> times_in_range(
        data,
        9,
        number_at(data, 5, 4),
    )
}

/// Events that can be written: none comes before the start of the simulation.
pub open spec fn after_start(events: Seq<EventModel>) -> bool {
    forall|i: int|
        0 <= i < events.len() ==> EMUTIME_SIMULATION_START <= (
        #[trigger] events[i]).deliver_time.0
}

/// Bytes that one more event adds stand behind the others.
proof fn lemma_events_bytes_push(events: Seq<EventModel>, event: EventModel)
    ensures
        events_bytes(events.push(event)) == events_bytes(events) + event_bytes(event),
    decreases events.len(),
{
    let longer = events.push(event);
    if events.len() == 0 {
        assert(longer.skip(1) =~= events);
        assert(events_bytes(events) =~= Seq::<u8>::empty());
        assert(event_bytes(event) + Seq::<u8>::empty() =~= Seq::<u8>::empty() + event_bytes(event));
    } else {
        assert(longer.skip(1) =~= events.skip(1).push(event));
        lemma_events_bytes_push(events.skip(1), event);
        lemma_join_assoc(
            event_bytes(events[0]),
            events_bytes(events.skip(1)),
            event_bytes(event),
        );
    }
}

/// What was read before, in front of what is read from here on.
spec fn prepend(
    done: Seq<EventModel>,
    rest: Result<Seq<EventModel>, PacketSerializationError>,
) -> Result<Seq<EventModel>, PacketSerializationError> {
    match rest {
        Ok(more) => Ok(done + more),
        Err(e) => Err(e),
    }
}

/// Whether the bytes begin as a batch does; `Ok` holds the number of its events.
fn read_batch_head(data: &[u8]) -> (count: Result<usize, PacketSerializationError>)
    ensures
        match count {
            Ok(n) => data.len() >= 9 && data@.subrange(0, 4) == batch_magic() && data@[4]
                == BATCH_VERSION && n == number_at(data@, 5, 4) && n <= MAX_BATCH_EVENTS,
            Err(e) => parse_batch(data@) == Err::<Seq<EventModel>, PacketSerializationError>(e)
                && !(data.len() >= 9 && data@.subrange(0, 4) == batch_magic() && data@[4]
                == BATCH_VERSION && number_at(data@, 5, 4) <= MAX_BATCH_EVENTS),
        },
{
    if data.len() < 9 {
        return Err(PacketSerializationError::Truncated);
    }
    if data[0] != 0x53 || data[1] != 0x48 || data[2] != 0x52 || data[3] != 0x42 {
        proof {
            if data@.subrange(0, 4) == batch_magic() {
                assert(data@.subrange(0, 4)[0] == data@[0]);
                assert(data@.subrange(0, 4)[1] == data@[1]);
                assert(data@.subrange(0, 4)[2] == data@[2]);
                assert(data@.subrange(0, 4)[3] == data@[3]);
            }
        }
        return Err(PacketSerializationError::EmptyData);
    }
    assert(data@.subrange(0, 4) =~= batch_magic());
    let version: u8 = data[4];
    if version != BATCH_VERSION {
        return Err(PacketSerializationError::UnknownTag(version));
    }
    let count: u32 = get_be_u32(data, 5);
    if count > MAX_BATCH_EVENTS {
        return Err(PacketSerializationError::TooManySackBlocks(count as usize));
    }
    Ok(count as usize)
}

/// What stands at `pos`: nanoseconds since the start of the simulation, the event's other parts,
/// and the position behind it.
fn read_event(data: &[u8], pos: usize) -> (found: Result<
    (u64, HostId, u64, HostId, SerializedPacket, usize),
    PacketSerializationError,
>)
    requires
        pos <= data.len(),
    ensures
        match found {
            Ok((nanos, src, id, dst, packet, next)) => {
                &&& parse_event(data@, pos as int) matches Ok((event, after))
                &&& next == after
                &&& pos <= next <= data.len()
                &&& nanos == number_at(data@, pos as int, 8)
                &&& event.deliver_time == EmulatedTime((EMUTIME_SIMULATION_START + nanos) as u64)
                &&& event.src_host_id == src
                &&& event.src_host_event_id == id
                &&& event.dst_host_id == dst
                &&& event.packet == packet@
            },
            Err(e) => parse_event(data@, pos as int) == Err::<
                (EventModel, int),
                PacketSerializationError,
            >(e),
        },
{
    if data.len() - pos < 28 {
        return Err(PacketSerializationError::Truncated);
    }
    let nanos: u64 = get_be(data, pos, 8);
    let src_host_id = HostId(get_be_u32(data, pos + 8));
    let src_host_event_id: u64 = get_be(data, pos + 12, 8);
    let dst_host_id = HostId(get_be_u32(data, pos + 20));
    let packet_len: usize = get_be_u32(data, pos + 24) as usize;
    if packet_len > MAX_PACKET_BYTES {
        return Err(PacketSerializationError::TooManySackBlocks(packet_len));
    }
    let start: usize = pos + 28;
    if data.len() - start < packet_len {
        return Err(PacketSerializationError::Truncated);
    }
    let bytes = copy_range(data, start, start + packet_len);
    let packet = match SerializedPacket::from_bytes(&bytes) {
        Ok(packet) => packet,
        Err(e) => {
            return Err(e);
        },
    };
    let payload_len: usize = packet.payload_len();
    if payload_len > MAX_PAYLOAD_BYTES {
        return Err(PacketSerializationError::TooManySackBlocks(payload_len));
    }
    Ok((nanos, src_host_id, src_host_event_id, dst_host_id, packet, start + packet_len))
}

impl RemotePacketEvent {
    /// A batch of events as bytes.
    pub fn encode_batch(events: &[Self]) -> (buf: Vec<u8>)
        requires
            after_start(event_models(events@)),
        ensures
            buf@ == batch_bytes(event_models(events@)),
    {
        let ghost models = event_models(events@);
        let mut buf: Vec<u8> = Vec::new();
        buf.push(0x53);
        buf.push(0x48);
        buf.push(0x52);
        buf.push(0x42);
        buf.push(BATCH_VERSION);
        push_be(&mut buf, events.len() as u64, 4);
        assert(buf@ =~= batch_head_bytes(models.len()));
        let mut i: usize = 0;
        assert(buf@ =~= batch_head_bytes(models.len()) + events_bytes(models.take(0)));
        while i < events.len()
            invariant
                i <= events.len(),
                models == event_models(events@),
                after_start(models),
                buf@ == batch_head_bytes(models.len()) + events_bytes(models.take(i as int)),
            decreases events.len() - i,
        {
            let event = &events[i];
            let ghost before = buf@;
            assert(event@ == models[i as int]);
            let packet_bytes = event.packet.to_bytes();
            let dt_nanos: u64 = event.deliver_time.duration_since(
                &EmulatedTime::simulation_start(),
            ).as_nanos();
            push_be(&mut buf, dt_nanos, 8);
            push_be(&mut buf, event.src_host_id.0 as u64, 4);
            push_be(&mut buf, event.src_host_event_id, 8);
            push_be(&mut buf, event.dst_host_id.0 as u64, 4);
            push_be(&mut buf, packet_bytes.len() as u64, 4);
            push_all(&mut buf, &packet_bytes);
            proof {
                assert(buf@ =~= before + event_bytes(event@));
                lemma_events_bytes_push(models.take(i as int), event@);
                assert(models.take(i + 1) =~= models.take(i as int).push(event@));
                lemma_join_assoc(
                    batch_head_bytes(models.len()),
                    events_bytes(models.take(i as int)),
                    event_bytes(event@),
                );
            }
            i += 1;
        }
        assert(models.take(i as int) =~= models);
        buf
    }

    /// Whether `decode_batch` may be called on the bytes.
    pub fn batch_is_decodable(data: &[u8]) -> (decodable: bool)
        ensures
            decodable == batch_times_in_range(data@),
    {
        let count: usize = match read_batch_head(data) {
            Ok(n) => n,
            Err(_) => {
                return true;
            },
        };
        let mut pos: usize = 9;
        let mut i: usize = 0;
        while i < count
            invariant
                i <= count,
                pos <= data.len(),
                batch_times_in_range(data@) == times_in_range(
                    data@,
                    pos as int,
                    (count - i) as nat,
                ),
            decreases count - i,
        {
            match read_event(data, pos) {
                Ok((nanos, _, _, _, _, next)) => {
                    if nanos > SIMTIME_MAX {
                        return false;
                    }
                    pos = next;
                },
                Err(_) => {
                    return true;
                },
            }
            i += 1;
        }
        true
    }

    /// The events of a batch. Bytes behind the batch are allowed.
    pub fn decode_batch(data: &[u8]) -> (events: Result<Vec<Self>, PacketSerializationError>)
        requires
            batch_times_in_range(data@),
        ensures
            match events {
                Ok(list) => parse_batch(data@) == Ok::<Seq<EventModel>, PacketSerializationError>(
                    event_models(list@),
                ),
                Err(e) => parse_batch(data@) == Err::<Seq<EventModel>, PacketSerializationError>(e),
            },
            events matches Ok(list) ==> after_start(event_models(list@)),
    {
        let count: usize = match read_batch_head(data) {
            Ok(n) => n,
            Err(e) => {
                return Err(e);
            },
        };
        let mut events: Vec<RemotePacketEvent> = Vec::new();
        let mut pos: usize = 9;
        let mut i: usize = 0;
        proof {
            let whole = parse_events(data@, 9, count as nat);
            if whole is Ok {
                assert(event_models(events@) + whole->Ok_0 =~= whole->Ok_0);
            }
        }
        while i < count
            invariant
                i <= count,
                pos <= data.len(),
                times_in_range(data@, pos as int, (count - i) as nat),
                parse_events(data@, 9, count as nat) == prepend(
                    event_models(events@),
                    parse_events(data@, pos as int, (count - i) as nat),
                ),
                parse_batch(data@) == parse_events(data@, 9, count as nat),
                after_start(event_models(events@)),
            decreases count - i,
        {
            match read_event(data, pos) {
                Ok((nanos, src_host_id, src_host_event_id, dst_host_id, packet, next)) => {
                    let ghost before = event_models(events@);
                    let event = RemotePacketEvent {
                        deliver_time: EmulatedTime::at_simulation_nanos(nanos),
                        src_host_id,
                        src_host_event_id,
                        dst_host_id,
                        packet,
                    };
                    let ghost model = event@;
                    events.push(event);
                    proof {
                        assert(event_models(events@) =~= before.push(model));
                        let rest = parse_events(data@, next as int, (count - i - 1) as nat);
                        if rest is Ok {
                            assert(before + (seq![model] + rest->Ok_0) =~= before.push(model)
                                + rest->Ok_0);
                        }
                    }
                    pos = next;
                },
                Err(e) => {
                    return Err(e);
                },
            }
            i += 1;
        }
        assert(event_models(events@) + Seq::<EventModel>::empty() =~= event_models(events@));
        Ok(events)
    }
}

/// Events that the format can carry.
pub open spec fn event_is_carried(event: EventModel) -> bool {
    &&& EMUTIME_SIMULATION_START <= event.deliver_time.0
    &&& event.packet.fits()
    &&& event.packet.payload_bytes().len() <= MAX_PAYLOAD_BYTES
}

/// Events that the format can carry and a simulation can deliver.
pub open spec fn event_fits(event: EventModel) -> bool {
    event_is_carried(event) && event.deliver_time.0 <= EMUTIME_MAX
}

/// Lists of events that the format can carry as one batch.
pub open spec fn batch_is_carried(events: Seq<EventModel>) -> bool {
    &&& events.len() <= MAX_BATCH_EVENTS
    &&& forall|i: int| 0 <= i < events.len() ==> event_is_carried(#[trigger] events[i])
}

/// What stands in front of a packet is read back, and the packet's bytes are found behind it.
proof fn lemma_event_head_round_trip(
    front: Seq<u8>,
    nanos: nat,
    src: u32,
    id: u64,
    dst: u32,
    packet: Seq<u8>,
    rest: Seq<u8>,
)
    requires
        nanos <= u64::MAX,
        packet.len() <= u32::MAX,
    ensures
        ({
            let head = event_head_bytes(nanos, src, id, dst, packet.len());
            let data = front + (head + packet) + rest;
            let pos = front.len() as int;
            &&& head.len() == 28
            &&& number_at(data, pos, 8) == nanos
            &&& number_at(data, pos + 8, 4) == src
            &&& number_at(data, pos + 12, 8) == id
            &&& number_at(data, pos + 20, 4) == dst
            &&& number_at(data, pos + 24, 4) == packet.len()
            &&& data.subrange(pos + 28, pos + 28 + packet.len()) == packet
        }),
{
    let time = be_bytes(nanos, 8);
    let from = be_bytes(src as nat, 4);
    let number = be_bytes(id as nat, 8);
    let to = be_bytes(dst as nat, 4);
    let len = be_bytes(packet.len(), 4);
    let data = front + (event_head_bytes(nanos, src, id, dst, packet.len()) + packet) + rest;
    let pos = front.len() as int;
    lemma_be_bytes_len(nanos, 8);
    lemma_be_bytes_len(src as nat, 4);
    lemma_be_bytes_len(id as nat, 8);
    lemma_be_bytes_len(dst as nat, 4);
    lemma_be_bytes_len(packet.len(), 4);
    lemma_byte_capacities();
    assert(data.subrange(pos, pos + 8) =~= time);
    assert(data.subrange(pos + 8, pos + 8 + 4) =~= from);
    assert(data.subrange(pos + 12, pos + 12 + 8) =~= number);
    assert(data.subrange(pos + 20, pos + 20 + 4) =~= to);
    assert(data.subrange(pos + 24, pos + 24 + 4) =~= len);
    assert(data.subrange(pos + 28, pos + 28 + packet.len()) =~= packet);
    lemma_number_at(data, pos, nanos, 8);
    lemma_number_at(data, pos + 8, src as nat, 4);
    lemma_number_at(data, pos + 12, id as nat, 8);
    lemma_number_at(data, pos + 20, dst as nat, 4);
    lemma_number_at(data, pos + 24, packet.len(), 4);
}

/// An event is read where its parts stand.
proof fn lemma_event_at(data: Seq<u8>, pos: int, event: EventModel, packet: Seq<u8>)
    requires
        0 <= pos,
        pos + 28 + packet.len() <= data.len(),
        packet.len() <= MAX_PACKET_BYTES,
        event.packet.payload_bytes().len() <= MAX_PAYLOAD_BYTES,
        EMUTIME_SIMULATION_START <= event.deliver_time.0,
        number_at(data, pos, 8) == event.deliver_time.0 - EMUTIME_SIMULATION_START,
        number_at(data, pos + 8, 4) == event.src_host_id.0,
        number_at(data, pos + 12, 8) == event.src_host_event_id,
        number_at(data, pos + 20, 4) == event.dst_host_id.0,
        number_at(data, pos + 24, 4) == packet.len(),
        data.subrange(pos + 28, pos + 28 + packet.len()) == packet,
        parse_packet(packet) == Ok::<PacketModel, PacketSerializationError>(event.packet),
    ensures
        parse_event(data, pos) == Ok::<(EventModel, int), PacketSerializationError>(
            (event, pos + 28 + packet.len()),
        ),
{
}

/// One event that was written between other bytes is read back, given that its packet is.
#[verifier::rlimit(60)]
#[verifier::spinoff_prover]
proof fn lemma_event_with_packet(
    front: Seq<u8>,
    event: EventModel,
    packet: Seq<u8>,
    rest: Seq<u8>,
)
    requires
        EMUTIME_SIMULATION_START <= event.deliver_time.0 <= EMUTIME_MAX,
        packet.len() <= MAX_PACKET_BYTES,
        event.packet.payload_bytes().len() <= MAX_PAYLOAD_BYTES,
        parse_packet(packet) == Ok::<PacketModel, PacketSerializationError>(event.packet),
    ensures
        ({
            let head = event_head_bytes(
                (event.deliver_time.0 - EMUTIME_SIMULATION_START) as nat,
                event.src_host_id.0,
                event.src_host_event_id,
                event.dst_host_id.0,
                packet.len(),
            );
            let data = front + (head + packet) + rest;
            &&& parse_event(data, front.len() as int) == Ok::<
                (EventModel, int),
                PacketSerializationError,
            >((event, (front + (head + packet)).len() as int))
            &&& number_at(data, front.len() as int, 8) <= SIMTIME_MAX
        }),
{
    let nanos = (event.deliver_time.0 - EMUTIME_SIMULATION_START) as nat;
    let head = event_head_bytes(
        nanos,
        event.src_host_id.0,
        event.src_host_event_id,
        event.dst_host_id.0,
        packet.len(),
    );
    lemma_event_head_round_trip(
        front,
        nanos,
        event.src_host_id.0,
        event.src_host_event_id,
        event.dst_host_id.0,
        packet,
        rest,
    );
    lemma_event_at(front + (head + packet) + rest, front.len() as int, event, packet);
}

/// One event that was written between other bytes is read back.
proof fn lemma_event_round_trip(front: Seq<u8>, event: EventModel, rest: Seq<u8>)
    requires
        event_fits(event),
    ensures
        parse_event(front + event_bytes(event) + rest, front.len() as int) == Ok::<
            (EventModel, int),
            PacketSerializationError,
        >((event, (front + event_bytes(event)).len() as int)),
        number_at(front + event_bytes(event) + rest, front.len() as int, 8) <= SIMTIME_MAX,
{
    let packet = event.packet.bytes();
    lemma_header_len(event.packet);
    law_packet_round_trip(event.packet, Seq::empty());
    assert(packet + Seq::<u8>::empty() =~= packet);
    lemma_event_with_packet(front, event, packet, rest);
}

/// An event and the events behind it are read as one list.
proof fn lemma_parse_step(
    data: Seq<u8>,
    pos: int,
    event: EventModel,
    next: int,
    others: Seq<EventModel>,
)
    requires
        parse_event(data, pos) == Ok::<(EventModel, int), PacketSerializationError>((event, next)),
        number_at(data, pos, 8) <= SIMTIME_MAX,
        parse_events(data, next, others.len()) == Ok::<Seq<EventModel>, PacketSerializationError>(
            others,
        ),
        times_in_range(data, next, others.len()),
    ensures
        parse_events(data, pos, others.len() + 1) == Ok::<
            Seq<EventModel>,
            PacketSerializationError,
        >(seq![event] + others),
        times_in_range(data, pos, others.len() + 1),
{
}

/// The bytes of the first event stand in front of those of the others.
proof fn lemma_first_event_bytes(front: Seq<u8>, events: Seq<EventModel>, rest: Seq<u8>)
    requires
        events.len() > 0,
    ensures
        ({
            let piece = event_bytes(events[0]);
            let more = events_bytes(events.skip(1));
            let data = front + events_bytes(events) + rest;
            &&& data == front + piece + (more + rest)
            &&& data == (front + piece) + more + rest
        }),
{
    let piece = event_bytes(events[0]);
    let more = events_bytes(events.skip(1));
    lemma_join_assoc(front, piece, more);
    lemma_join_assoc(front + piece, more, rest);
}

/// Events that were written between other bytes are read back.
#[verifier::rlimit(60)]
#[verifier::spinoff_prover]
proof fn lemma_events_round_trip(front: Seq<u8>, events: Seq<EventModel>, rest: Seq<u8>)
    requires
        forall|i: int| 0 <= i < events.len() ==> event_fits(#[trigger] events[i]),
    ensures
        parse_events(
            front + events_bytes(events) + rest,
            front.len() as int,
            events.len(),
        ) == Ok::<Seq<EventModel>, PacketSerializationError>(events),
        times_in_range(
            front + events_bytes(events) + rest,
            front.len() as int,
            events.len(),
        ),
    decreases events.len(),
{
    if events.len() > 0 {
        let event = events[0];
        let others = events.skip(1);
        let piece = event_bytes(event);
        let more = events_bytes(others);
        assert(event_fits(event));
        assert forall|i: int| 0 <= i < others.len() implies event_fits(#[trigger] others[i]) by {
            assert(others[i] == events[i + 1]);
        }
        lemma_event_round_trip(front, event, more + rest);
        lemma_events_round_trip(front + piece, others, rest);
        lemma_first_event_bytes(front, events, rest);
        lemma_parse_step(
            front + events_bytes(events) + rest,
            front.len() as int,
            event,
            (front + piece).len() as int,
            others,
        );
        assert(seq![event] + others =~= events);
    } else {
        assert(events =~= Seq::<EventModel>::empty());
    }
}

/// What stands in front of the events of a batch is read back.
proof fn lemma_batch_head(events: Seq<EventModel>, rest: Seq<u8>)
    requires
        events.len() <= u32::MAX,
    ensures
        ({
            let data = batch_bytes(events) + rest;
            &&& batch_head_bytes(events.len()).len() == 9
            &&& data.len() >= 9
            &&& data.subrange(0, 4) == batch_magic()
            &&& data[4] == BATCH_VERSION
            &&& number_at(data, 5, 4) == events.len()
        }),
{
    let data = batch_bytes(events) + rest;
    let front = batch_magic() + seq![BATCH_VERSION];
    lemma_be_bytes_len(events.len(), 4);
    lemma_byte_capacities();
    assert(data.subrange(0, 4) =~= batch_magic());
    assert(data =~= front + be_bytes(events.len(), 4) + (events_bytes(events) + rest));
    lemma_number_between(front, events.len(), 4, events_bytes(events) + rest);
}

/// Reading a batch that was written gives its events back, whatever stands behind it.
pub proof fn law_batch_round_trip(events: Seq<EventModel>, rest: Seq<u8>)
    requires
        forall|i: int| 0 <= i < events.len() ==> event_fits(#[trigger] events[i]),
        events.len() <= MAX_BATCH_EVENTS,
    ensures
        batch_times_in_range(batch_bytes(events) + rest),
        parse_batch(batch_bytes(events) + rest) == Ok::<Seq<EventModel>, PacketSerializationError>(
            events,
        ),
{
    lemma_batch_head(events, rest);
    lemma_events_round_trip(batch_head_bytes(events.len()), events, rest);
}

/// An event is read where its parts stand if the format can carry it, and else nothing is read.
proof fn lemma_event_at_where_it_is_carried(
    data: Seq<u8>,
    pos: int,
    event: EventModel,
    packet: Seq<u8>,
)
    requires
        0 <= pos,
        pos + 28 + packet.len() <= data.len(),
        EMUTIME_SIMULATION_START <= event.deliver_time.0,
        number_at(data, pos, 8) == event.deliver_time.0 - EMUTIME_SIMULATION_START,
        number_at(data, pos + 8, 4) == event.src_host_id.0,
        number_at(data, pos + 12, 8) == event.src_host_event_id,
        number_at(data, pos + 20, 4) == event.dst_host_id.0,
        number_at(data, pos + 24, 4) == packet.len(),
        data.subrange(pos + 28, pos + 28 + packet.len()) == packet,
        event.packet.fits() ==> packet.len() <= event.packet.payload_bytes().len() + 1024,
        match parse_packet(packet) {
            Ok(read) => event.packet.fits() && read == event.packet,
            Err(_) => !event.packet.fits(),
        },
    ensures
        match parse_event(data, pos) {
            Ok(read) => event_is_carried(event) && read == (event, pos + 28 + packet.len()),
            Err(_) => !event_is_carried(event),
        },
{
}

/// One event that was written between other bytes is read back if the format can carry it, given
/// that its packet is read back if it fits.
#[verifier::rlimit(60)]
#[verifier::spinoff_prover]
proof fn lemma_event_with_packet_where_it_is_carried(
    front: Seq<u8>,
    event: EventModel,
    packet: Seq<u8>,
    rest: Seq<u8>,
)
    requires
        EMUTIME_SIMULATION_START <= event.deliver_time.0,
        packet.len() <= u32::MAX,
        event.packet.fits() ==> packet.len() <= event.packet.payload_bytes().len() + 1024,
        match parse_packet(packet) {
            Ok(read) => event.packet.fits() && read == event.packet,
            Err(_) => !event.packet.fits(),
        },
    ensures
        ({
            let head = event_head_bytes(
                (event.deliver_time.0 - EMUTIME_SIMULATION_START) as nat,
                event.src_host_id.0,
                event.src_host_event_id,
                event.dst_host_id.0,
                packet.len(),
            );
            match parse_event(front + (head + packet) + rest, front.len() as int) {
                Ok(read) => event_is_carried(event) && read == (
                    event,
                    (front + (head + packet)).len() as int,
                ),
                Err(_) => !event_is_carried(event),
            }
        }),
{
    let nanos = (event.deliver_time.0 - EMUTIME_SIMULATION_START) as nat;
    let head = event_head_bytes(
        nanos,
        event.src_host_id.0,
        event.src_host_event_id,
        event.dst_host_id.0,
        packet.len(),
    );
    lemma_event_head_round_trip(
        front,
        nanos,
        event.src_host_id.0,
        event.src_host_event_id,
        event.dst_host_id.0,
        packet,
        rest,
    );
    lemma_event_at_where_it_is_carried(
        front + (head + packet) + rest,
        front.len() as int,
        event,
        packet,
    );
}

/// One event that was written between other bytes is read back if the format can carry it, and else
/// nothing is read.
proof fn lemma_event_is_read_where_it_is_carried(front: Seq<u8>, event: EventModel, rest: Seq<u8>)
    requires
        EMUTIME_SIMULATION_START <= event.deliver_time.0,
        event.packet.bytes().len() <= u32::MAX,
    ensures
        match parse_event(front + event_bytes(event) + rest, front.len() as int) {
            Ok(read) => event_is_carried(event) && read == (
                event,
                (front + event_bytes(event)).len() as int,
            ),
            Err(_) => !event_is_carried(event),
        },
{
    let packet = event.packet.bytes();
    law_packet_is_read_where_it_fits(event.packet, Seq::empty());
    assert(packet + Seq::<u8>::empty() =~= packet);
    if event.packet.fits() {
        lemma_header_len(event.packet);
    }
    lemma_event_with_packet_where_it_is_carried(front, event, packet, rest);
}

/// An event is no longer than the list that begins with it, and takes at least one byte.
proof fn lemma_events_bytes_len(events: Seq<EventModel>)
    ensures
        events.len() <= events_bytes(events).len(),
        events.len() > 0 ==> events[0].packet.bytes().len() <= events_bytes(events).len()
            && events_bytes(events.skip(1)).len() <= events_bytes(events).len(),
    decreases events.len(),
{
    broadcast use lemma_be_bytes_len;

    if events.len() > 0 {
        lemma_events_bytes_len(events.skip(1));
    }
}

/// Events that were written between other bytes are read back if the format can carry each of them,
/// and else nothing is read.
proof fn lemma_events_are_read_where_they_are_carried(
    front: Seq<u8>,
    events: Seq<EventModel>,
    rest: Seq<u8>,
)
    requires
        after_start(events),
        events_bytes(events).len() <= u32::MAX,
    ensures
        match parse_events(
            front + events_bytes(events) + rest,
            front.len() as int,
            events.len(),
        ) {
            Ok(read) => read == events && forall|i: int|
                0 <= i < events.len() ==> event_is_carried(#[trigger] events[i]),
            Err(_) => exists|i: int|
                0 <= i < events.len() && !event_is_carried(#[trigger] events[i]),
        },
    decreases events.len(),
{
    if events.len() > 0 {
        let event = events[0];
        let others = events.skip(1);
        let piece = event_bytes(event);
        let more = events_bytes(others);
        assert forall|i: int| 0 <= i < others.len() implies EMUTIME_SIMULATION_START <= (
        #[trigger] others[i]).deliver_time.0 by {
            assert(others[i] == events[i + 1]);
        }
        lemma_events_bytes_len(events);
        lemma_first_event_bytes(front, events, rest);
        lemma_event_is_read_where_it_is_carried(front, event, more + rest);
        lemma_events_are_read_where_they_are_carried(front + piece, others, rest);
        lemma_carried_step(
            parse_event(front + events_bytes(events) + rest, front.len() as int),
            parse_events(
                front + events_bytes(events) + rest,
                (front + piece).len() as int,
                others.len(),
            ),
            events,
            (front + piece).len() as int,
        );
    } else {
        assert(events =~= Seq::<EventModel>::empty());
    }
}

/// What is read of the first event and of the others makes up what is read of all.
proof fn lemma_carried_step(
    first: Result<(EventModel, int), PacketSerializationError>,
    behind: Result<Seq<EventModel>, PacketSerializationError>,
    events: Seq<EventModel>,
    next: int,
)
    requires
        events.len() > 0,
        match first {
            Ok(read) => event_is_carried(events[0]) && read == (events[0], next),
            Err(_) => !event_is_carried(events[0]),
        },
        match behind {
            Ok(read) => read == events.skip(1) && forall|i: int|
                0 <= i < events.skip(1).len() ==> event_is_carried(#[trigger] events.skip(1)[i]),
            Err(_) => exists|i: int|
                0 <= i < events.skip(1).len() && !event_is_carried(#[trigger] events.skip(1)[i]),
        },
    ensures
        first is Ok && behind is Ok <==> forall|i: int|
            0 <= i < events.len() ==> event_is_carried(#[trigger] events[i]),
        first is Ok ==> first->Ok_0 == (events[0], next),
        behind is Ok ==> seq![events[0]] + behind->Ok_0 == events,
{
    let others = events.skip(1);
    if first is Ok && behind is Ok {
        assert forall|i: int| 0 <= i < events.len() implies event_is_carried(
            #[trigger] events[i],
        ) by {
            if i > 0 {
                assert(others[i - 1] == events[i]);
            }
        }
    }
    if behind is Ok {
        assert(seq![events[0]] + others =~= events);
    } else {
        let i = choose|i: int| 0 <= i < others.len() && !event_is_carried(#[trigger] others[i]);
        assert(!event_is_carried(events[i + 1]));
    }
}

/// A batch that was written is read back if the format can carry it, whatever stands behind it, and
/// else nothing is read: no batch is taken for another.
pub proof fn law_batch_is_read_where_it_is_carried(events: Seq<EventModel>, rest: Seq<u8>)
    requires
        after_start(events),
        batch_bytes(events).len() <= u32::MAX,
    ensures
        match parse_batch(batch_bytes(events) + rest) {
            Ok(read) => batch_is_carried(events) && read == events,
            Err(_) => !batch_is_carried(events),
        },
{
    lemma_events_bytes_len(events);
    lemma_batch_head(events, rest);
    lemma_events_are_read_where_they_are_carried(batch_head_bytes(events.len()), events, rest);
}

/// As many events are read as are asked for, and they carry no more than the largest payload.
proof fn lemma_read_events_are_limited(data: Seq<u8>, pos: int, count: nat)
    ensures
        parse_events(data, pos, count) matches Ok(events) ==> events.len() == count && forall|i: int|
            0 <= i < events.len() ==> (#[trigger] events[i]).packet.payload_bytes().len()
                <= MAX_PAYLOAD_BYTES,
    decreases count,
{
    if count > 0 {
        if let Ok((_, next)) = parse_event(data, pos) {
            lemma_read_events_are_limited(data, next, (count - 1) as nat);
        }
    }
}

/// No packet that is read from a batch carries more than the largest payload, and no batch that is
/// read holds more than the largest number of events.
pub proof fn law_read_batches_are_limited(data: Seq<u8>)
    ensures
        parse_batch(data) matches Ok(events) ==> events.len() <= MAX_BATCH_EVENTS && forall|i: int|
            0 <= i < events.len() ==> (#[trigger] events[i]).packet.payload_bytes().len()
                <= MAX_PAYLOAD_BYTES,
{
    lemma_read_events_are_limited(data, 9, number_at(data, 5, 4));
}

/// A remote packet whose destination was checked.
#[derive(Debug)]
pub struct RemotePacketDelivery {
    pub deliver_time: EmulatedTime,
    pub src_host_id: HostId,
    pub src_host_event_id: u64,
    pub dst_host_id: HostId,
    pub packet: SerializedPacket,
}

/// Why a remote packet is not delivered here.
#[derive(Clone, Copy, Debug, PartialEq, Eq, Structural)]
pub enum RemotePacketDeliveryError {
    UnknownDestinationHost(HostId),
    NonLocalDestination { host: HostId, expected_shard: ShardId, actual_shard: ShardId },
}

impl RemotePacketDeliveryError {
    /// The message for users.
    pub open spec fn message(self) -> Seq<char> {
        match self {
            RemotePacketDeliveryError::UnknownDestinationHost(host) => "Unknown destination host "@
                + host.shown(),
            RemotePacketDeliveryError::NonLocalDestination {
                host,
                expected_shard,
                actual_shard,
            } => "Non-local destination: host "@ + host.shown() + " belongs to shard "@ + decimal(
                actual_shard.0 as nat,
            ) + ", not "@ + decimal(expected_shard.0 as nat),
        }
    }

    /// The message as a string.
    pub fn to_string(&self) -> (text: String)
        ensures
            text@ == self.message(),
    {
        let mut text = String::new();
        match *self {
            RemotePacketDeliveryError::UnknownDestinationHost(host) => {
                text.append("Unknown destination host ");
                host.push_shown(&mut text);
            },
            RemotePacketDeliveryError::NonLocalDestination {
                host,
                expected_shard,
                actual_shard,
            } => {
                text.append("Non-local destination: host ");
                host.push_shown(&mut text);
                text.append(" belongs to shard ");
                push_decimal(&mut text, actual_shard.0 as u64);
                text.append(", not ");
                push_decimal(&mut text, expected_shard.0 as u64);
            },
        }
        assert(text@ =~= self.message());
        text
    }
}

impl RemotePacketEvent {
    /// The event as a delivery to a host of this shard, if the host is one.
    pub fn into_local_event(self, local_shard: ShardId, partition_map: &PartitionMap) -> (delivery:
        Result<RemotePacketDelivery, RemotePacketDeliveryError>)
        ensures
            match delivery {
                Ok(d) => {
                    &&& partition_map@.contains_key(self.dst_host_id.0)
                    &&& partition_map@[self.dst_host_id.0] == local_shard
                    &&& d.deliver_time == self.deliver_time
                    &&& d.src_host_id == self.src_host_id
                    &&& d.src_host_event_id == self.src_host_event_id
                    &&& d.dst_host_id == self.dst_host_id
                    &&& d.packet == self.packet
                },
                Err(RemotePacketDeliveryError::UnknownDestinationHost(host)) => {
                    &&& host == self.dst_host_id
                    &&& !partition_map@.contains_key(host.0)
                },
                Err(
                    RemotePacketDeliveryError::NonLocalDestination {
                        host,
                        expected_shard,
                        actual_shard,
                    },
                ) => {
                    &&& host == self.dst_host_id
                    &&& expected_shard == local_shard
                    &&& partition_map@.contains_key(host.0)
                    &&& partition_map@[host.0] == actual_shard
                    &&& actual_shard != local_shard
                },
            },
    {
        match partition_map.shard_for_host(self.dst_host_id) {
            None => Err(RemotePacketDeliveryError::UnknownDestinationHost(self.dst_host_id)),
            Some(dst_shard) => {
                if dst_shard != local_shard {
                    Err(
                        RemotePacketDeliveryError::NonLocalDestination {
                            host: self.dst_host_id,
                            expected_shard: local_shard,
                            actual_shard: dst_shard,
                        },
                    )
                } else {
                    Ok(
                        RemotePacketDelivery {
                            deliver_time: self.deliver_time,
                            src_host_id: self.src_host_id,
                            src_host_event_id: self.src_host_event_id,
                            dst_host_id: self.dst_host_id,
                            packet: self.packet,
                        },
                    )
                }
            },
        }
    }
}

/// Sorted events are delivered one after the other: delivery times never descend; events of one time
/// ascend by sending host, those of one host by event number, and those of one number by receiving
/// host.
pub proof fn law_sorted_events_are_in_delivery_order(
    input: Seq<EventModel>,
    output: Seq<EventModel>,
    i: int,
    j: int,
)
    requires
        is_sorted_version(input, output),
        0 <= i < j < output.len(),
    ensures
        output[i].deliver_time.0 <= output[j].deliver_time.0,
        output[i].deliver_time == output[j].deliver_time ==> output[i].src_host_id.0
            <= output[j].src_host_id.0,
        output[i].deliver_time == output[j].deliver_time && output[i].src_host_id
            == output[j].src_host_id ==> output[i].src_host_event_id
            <= output[j].src_host_event_id,
        output[i].deliver_time == output[j].deliver_time && output[i].src_host_id
            == output[j].src_host_id && output[i].src_host_event_id == output[j].src_host_event_id
            ==> output[i].dst_host_id.0 <= output[j].dst_host_id.0,
        output.to_multiset() == input.to_multiset(),
{
    law_sorting_keeps_the_items(input, output);
    let order = choose|order: Seq<int>| sorts(input, output, order);
    assert(key_before(output[i].key(), output[j].key()) || output[i].key() == output[j].key());
}

/// An event goes as the nanoseconds from the start of the simulation to its delivery, the sending
/// host, the number of the event, the receiving host, the length of the packet and the packet.
pub proof fn law_event_layout(event: RemotePacketEvent)
    requires
        946_684_800_000_000_000 <= event.deliver_time.0,
    ensures
        ({
            let data = event_bytes(event@);
            let packet = event.packet@.bytes();
            &&& data.len() == 28 + packet.len()
            &&& data.subrange(0, 8) == be_bytes(
                (event.deliver_time.0 - 946_684_800_000_000_000) as nat,
                8,
            )
            &&& data.subrange(8, 12) == be_bytes(event.src_host_id.0 as nat, 4)
            &&& data.subrange(12, 20) == be_bytes(event.src_host_event_id as nat, 8)
            &&& data.subrange(20, 24) == be_bytes(event.dst_host_id.0 as nat, 4)
            &&& data.subrange(24, 28) == be_bytes(packet.len(), 4)
            &&& data.skip(28) == packet
        }),
{
    broadcast use lemma_be_bytes_len;

    let data = event_bytes(event@);
    let packet = event.packet@.bytes();
    let nanos = (event.deliver_time.0 - 946_684_800_000_000_000) as nat;
    let head = event_head_bytes(
        nanos,
        event.src_host_id.0,
        event.src_host_event_id,
        event.dst_host_id.0,
        packet.len(),
    );
    assert(head.len() == 28);
    assert(head.subrange(0, 8) =~= be_bytes(nanos, 8));
    assert(head.subrange(8, 12) =~= be_bytes(event.src_host_id.0 as nat, 4));
    assert(head.subrange(12, 20) =~= be_bytes(event.src_host_event_id as nat, 8));
    assert(head.subrange(20, 24) =~= be_bytes(event.dst_host_id.0 as nat, 4));
    assert(head.subrange(24, 28) =~= be_bytes(packet.len(), 4));
    assert(data == head + packet);
    assert(data.subrange(0, 8) =~= head.subrange(0, 8));
    assert(data.subrange(8, 12) =~= head.subrange(8, 12));
    assert(data.subrange(12, 20) =~= head.subrange(12, 20));
    assert(data.subrange(20, 24) =~= head.subrange(20, 24));
    assert(data.subrange(24, 28) =~= head.subrange(24, 28));
    assert(data.skip(28) =~= packet);
}

/// A batch begins with the letters `SHRB`, the number 1 and the number of its events.
pub proof fn law_batch_head_layout(events: Seq<EventModel>)
    ensures
        ({
            let data = batch_bytes(events);
            &&& data.len() >= 9
            &&& data[0] == 0x53
            &&& data[1] == 0x48
            &&& data[2] == 0x52
            &&& data[3] == 0x42
            &&& data[4] == 1
            &&& data.subrange(5, 9) == be_bytes(events.len(), 4)
            &&& events.len() == 0 ==> data.len() == 9
        }),
{
    lemma_be_bytes_len(events.len(), 4);
    let data = batch_bytes(events);
    let head = batch_head_bytes(events.len());
    assert(head.len() == 9);
    assert(head.subrange(5, 9) =~= be_bytes(events.len(), 4));
    assert(data.subrange(5, 9) =~= head.subrange(5, 9));
}

/// Behind its head a batch holds its events one after the other: one more event adds its bytes at
/// the end.
pub proof fn law_batch_holds_its_events_in_order(events: Seq<EventModel>, event: EventModel)
    ensures
        batch_bytes(events.push(event)).skip(9) == batch_bytes(events).skip(9) + event_bytes(event),
{
    lemma_be_bytes_len(events.len(), 4);
    lemma_be_bytes_len(events.push(event).len(), 4);
    lemma_events_bytes_push(events, event);
    assert(batch_bytes(events).skip(9) =~= events_bytes(events));
    assert(batch_bytes(events.push(event)).skip(9) =~= events_bytes(events.push(event)));
}

/// Bytes are refused as a batch where they are fewer than 9, do not begin with `SHRB`, are of
/// another version than 1, or announce more than a million events, and each with an error of its
/// own.
pub proof fn law_refused_batches(data: Seq<u8>)
    ensures
        data.len() < 9 ==> parse_batch(data) == Err::<Seq<EventModel>, PacketSerializationError>(
            PacketSerializationError::Truncated,
        ),
        data.len() >= 9 && !(data[0] == 0x53 && data[1] == 0x48 && data[2] == 0x52 && data[3]
            == 0x42) ==> parse_batch(data) == Err::<Seq<EventModel>, PacketSerializationError>(
            PacketSerializationError::EmptyData,
        ),
        data.len() >= 9 && data[0] == 0x53 && data[1] == 0x48 && data[2] == 0x52 && data[3] == 0x42
            && data[4] != 1 ==> parse_batch(data) == Err::<
            Seq<EventModel>,
            PacketSerializationError,
        >(PacketSerializationError::UnknownTag(data[4])),
        data.len() >= 9 && data[0] == 0x53 && data[1] == 0x48 && data[2] == 0x52 && data[3] == 0x42
            && data[4] == 1 && number_at(data, 5, 4) > 1_000_000 ==> parse_batch(data) == Err::<
            Seq<EventModel>,
            PacketSerializationError,
        >(PacketSerializationError::TooManySackBlocks(number_at(data, 5, 4) as usize)),
        parse_batch(data) matches Ok(events) ==> events.len() == number_at(data, 5, 4)
            && events.len() <= 1_000_000,
{
    if data.len() >= 9 {
        let front = data.subrange(0, 4);
        assert(front[0] == data[0] && front[1] == data[1] && front[2] == data[2] && front[3]
            == data[3]);
        if data[0] == 0x53 && data[1] == 0x48 && data[2] == 0x52 && data[3] == 0x42 {
            assert(front =~= batch_magic());
            lemma_as_many_events_as_announced(data, 9, number_at(data, 5, 4));
        }
    }
}

proof fn lemma_as_many_events_as_announced(data: Seq<u8>, pos: int, count: nat)
    ensures
        parse_events(data, pos, count) matches Ok(events) ==> events.len() == count,
    decreases count,
{
    if count > 0 {
        if let Ok((_, next)) = parse_event(data, pos) {
            lemma_as_many_events_as_announced(data, next, (count - 1) as nat);
        }
    }
}

/// An event is read exactly where its head is there, its packet is there, is at most 16 MiB and
/// 1024 bytes long, is a packet, and has a payload of at most 16 MiB.
pub proof fn law_readable_events(data: Seq<u8>, pos: int)
    requires
        0 <= pos,
    ensures
        parse_event(data, pos) is Ok <==> {
            let len = number_at(data, pos + 24, 4);
            &&& pos + 28 + len <= data.len()
            &&& len <= 0x100_0400
            &&& parse_packet(data.subrange(pos + 28, pos + 28 + len)) matches Ok(packet)
                && packet.payload_bytes().len() <= 0x100_0000
        },
        parse_event(data, pos) matches Ok((event, next)) ==> {
            &&& next == pos + 28 + number_at(data, pos + 24, 4)
            &&& event.deliver_time.0 == (946_684_800_000_000_000 + number_at(data, pos, 8)) as u64
            &&& event.src_host_id.0 == number_at(data, pos + 8, 4)
            &&& event.src_host_event_id == number_at(data, pos + 12, 8)
            &&& event.dst_host_id.0 == number_at(data, pos + 20, 4)
            &&& Ok::<PacketModel, PacketSerializationError>(event.packet) == parse_packet(
                data.subrange(pos + 28, next),
            )
        },
{
    lemma_byte_capacities();
    if pos + 28 <= data.len() {
        crate::bytes::lemma_be_value_round_trip(data.subrange(pos + 8, pos + 12));
        crate::bytes::lemma_be_value_round_trip(data.subrange(pos + 12, pos + 20));
        crate::bytes::lemma_be_value_round_trip(data.subrange(pos + 20, pos + 24));
    }
}

/// An event holds its own time, hosts, number and packet.
pub proof fn law_events_hold_their_fields(event: RemotePacketEvent)
    ensures
        event@.deliver_time == event.deliver_time,
        event@.src_host_id == event.src_host_id,
        event@.src_host_event_id == event.src_host_event_id,
        event@.dst_host_id == event.dst_host_id,
        event@.packet == event.packet@,
{
}

/// What events hold stands in the order of the events.
pub proof fn law_models_stand_in_the_order_of_events(events: Seq<RemotePacketEvent>, i: int)
    requires
        0 <= i < events.len(),
    ensures
        event_models(events).len() == events.len(),
        event_models(events)[i].deliver_time == events[i].deliver_time,
        event_models(events)[i].src_host_id == events[i].src_host_id,
        event_models(events)[i].src_host_event_id == events[i].src_host_event_id,
        event_models(events)[i].dst_host_id == events[i].dst_host_id,
        event_models(events)[i].packet == events[i].packet@,
{
}

/// What is said to users of events for hosts that are not here.
pub proof fn law_messages_for_users(host: HostId, expected_shard: ShardId, actual_shard: ShardId)
    ensures
        RemotePacketDeliveryError::UnknownDestinationHost(host).message()
            == "Unknown destination host "@ + host.shown(),
        (RemotePacketDeliveryError::NonLocalDestination {
            host,
            expected_shard,
            actual_shard,
        }).message() == "Non-local destination: host "@ + host.shown() + " belongs to shard "@
            + decimal(actual_shard.0 as nat) + ", not "@ + decimal(expected_shard.0 as nat),
{
}

} // verus!
