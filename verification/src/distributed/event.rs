//! Remote packet events: packets with the time, the order and the hosts of their delivery.

use vstd::prelude::*;
use vstd::string::*;

use crate::bytes::{be_bytes, lemma_be_bytes_len, lemma_join_assoc};
use crate::distributed::error::{
    ExchangeFailure, PacketSerializationError, RemotePacketDeliveryError,
    RemotePacketExchangeError, decode_failure,
};
use crate::distributed::packet::{
    PacketModel, SerializedPacket, WireSerializedPacket, law_packet_bijection, serialized_form,
    take_packet,
};
use crate::distributed::partition::PartitionMap;
use crate::distributed::wire::{
    Parsed, Reader, lemma_u32_bijection, lemma_u64_bijection, take_u32, take_u64, write_u32,
    write_u64,
};
use crate::ids::{HostId, ShardId};
use crate::packet::{MAX_HEADER_SELECTIVE_ACKS, Packet};
use crate::sorting::{
    Key, Keyed, OrderKey, is_sorted_version, key_before, law_sorting_keeps_the_items, sorts,
};
use crate::text::{decimal, push_decimal};
use crate::time::EmulatedTime;

verus! {

/// A packet arrival that another shard delivers in a later window.
#[derive(Debug, PartialEq, Eq)]
pub struct RemotePacketEvent {
    pub deliver_time: EmulatedTime,
    pub src_host_id: HostId,
    pub src_host_event_id: u64,
    pub dst_host_id: HostId,
    pub packet: SerializedPacket,
}

/// What a remote packet event holds.
#[verifier::ext_equal]
pub struct EventModel {
    pub deliver_time: EmulatedTime,
    pub src_host_id: HostId,
    pub src_host_event_id: u64,
    pub dst_host_id: HostId,
    pub packet: PacketModel,
}

impl View for RemotePacketEvent {
    type V = EventModel;

    open spec fn view(&self) -> EventModel {
        EventModel {
            deliver_time: self.deliver_time,
            src_host_id: self.src_host_id,
            src_host_event_id: self.src_host_event_id,
            dst_host_id: self.dst_host_id,
            packet: self.packet@,
        }
    }
}

/// What the events of a list hold.
pub open spec fn event_models(events: Seq<RemotePacketEvent>) -> Seq<EventModel> {
    Seq::new(events.len(), |i: int| events[i]@)
}

impl Clone for RemotePacketEvent {
    fn clone(&self) -> (copy: Self)
        ensures
            copy@ == self@,
    {
        RemotePacketEvent {
            deliver_time: self.deliver_time,
            src_host_id: self.src_host_id,
            src_host_event_id: self.src_host_event_id,
            dst_host_id: self.dst_host_id,
            packet: self.packet.clone(),
        }
    }
}

/// Events are ordered by delivery time, sending host, event number and receiving host.
impl Keyed for EventModel {
    open spec fn key(self) -> Key {
        (0, self.deliver_time.0, self.src_host_id.0, self.src_host_event_id, self.dst_host_id.0)
    }
}

impl Keyed for RemotePacketEvent {
    open spec fn key(self) -> Key {
        self@.key()
    }
}

impl OrderKey for RemotePacketEvent {
    fn order_key(&self) -> (k: Key) {
        (0, self.deliver_time.0, self.src_host_id.0, self.src_host_event_id, self.dst_host_id.0)
    }
}

/// Sorting events sorts what they hold.
pub proof fn lemma_sorted_event_models(
    input: Seq<RemotePacketEvent>,
    output: Seq<RemotePacketEvent>,
)
    requires
        is_sorted_version(input, output),
    ensures
        is_sorted_version(event_models(input), event_models(output)),
{
    let order = choose|order: Seq<int>| sorts(input, output, order);
    let before = event_models(input);
    let after = event_models(output);
    assert forall|i: int| 0 <= i < after.len() implies #[trigger] after[i] == before[order[i]] by {
        assert(output[i] == input[order[i]]);
    }
    assert forall|i: int, j: int| 0 <= i < j < after.len() implies {
        ||| key_before((#[trigger] after[i]).key(), (#[trigger] after[j]).key())
        ||| after[i].key() == after[j].key() && order[i] < order[j]
    } by {
        assert(output[i].key() == after[i].key());
        assert(output[j].key() == after[j].key());
    }
    assert(sorts(before, after, order));
}

/// A packet event of a host of this shard.
#[derive(Debug, PartialEq, Eq)]
pub struct Event {
    time: EmulatedTime,
    packet: Packet,
    src_host_id: HostId,
    src_host_event_id: u64,
}

impl Event {
    /// When the event is due.
    pub closed spec fn due(&self) -> EmulatedTime {
        self.time
    }

    /// The packet that arrives.
    pub closed spec fn arriving(&self) -> Packet {
        self.packet
    }

    /// The sending host and the number that it gave to the event.
    pub closed spec fn source(&self) -> (HostId, u64) {
        (self.src_host_id, self.src_host_event_id)
    }

    /// The arrival of a packet, with the order that the sending host gave to it.
    pub fn new_packet_with_meta(
        packet: Packet,
        time: EmulatedTime,
        src_host_id: HostId,
        src_host_event_id: u64,
    ) -> (event: Self)
        ensures
            event.due() == time,
            event.arriving() == packet,
            event.source() == (src_host_id, src_host_event_id),
    {
        Event { time, packet, src_host_id, src_host_event_id }
    }

    /// When the event is due.
    pub fn time(&self) -> (time: EmulatedTime)
        ensures
            time == self.due(),
    {
        self.time
    }

    /// The sending host and the number that it gave to the event.
    pub fn packet_source_metadata(&self) -> (source: Option<(HostId, u64)>)
        ensures
            source == Some(self.source()),
    {
        Some((self.src_host_id, self.src_host_event_id))
    }

    /// The packet that arrives.
    pub fn into_packet(self) -> (packet: Packet)
        ensures
            packet == self.arriving(),
    {
        self.packet
    }
}

impl RemotePacketEvent {
    /// The arrival of a packet at a host of another shard.
    pub fn new(
        deliver_time: EmulatedTime,
        src_host_id: HostId,
        src_host_event_id: u64,
        dst_host_id: HostId,
        packet: &Packet,
    ) -> (event: Result<Self, PacketSerializationError>)
        ensures
            match (event, serialized_form(*packet)) {
                (Ok(e), Ok(model)) => e@ == (EventModel {
                    deliver_time,
                    src_host_id,
                    src_host_event_id,
                    dst_host_id,
                    packet: model,
                }),
                (Err(e), Err(expected)) => e == expected,
                _ => false,
            },
            event matches Ok(e) ==> e.deliver_time == deliver_time && e.src_host_id == src_host_id
                && e.src_host_event_id == src_host_event_id && e.dst_host_id == dst_host_id,
    {
        match SerializedPacket::try_from_packet(packet) {
            Ok(packet) => Ok(
                RemotePacketEvent {
                    deliver_time,
                    src_host_id,
                    src_host_event_id,
                    dst_host_id,
                    packet,
                },
            ),
            Err(e) => Err(e),
        }
    }

    /// The event as one of a host of this shard, if the host is one.
    pub fn into_local_event(self, current_shard: ShardId, partition_map: &PartitionMap) -> (local:
        Result<(HostId, Event), RemotePacketDeliveryError>)
        requires
            partition_map@.contains_key(self.dst_host_id.0) && partition_map@[self.dst_host_id.0]
                == current_shard ==> self@.packet.ack_range_count() <= MAX_HEADER_SELECTIVE_ACKS,
        ensures
            match local {
                Ok((host, event)) => {
                    &&& partition_map@.contains_key(self.dst_host_id.0)
                    &&& partition_map@[self.dst_host_id.0] == current_shard
                    &&& host == self.dst_host_id
                    &&& event.due() == self.deliver_time
                    &&& event.source() == (self.src_host_id, self.src_host_event_id)
                    &&& serialized_form(event.arriving()) == Ok::<
                        PacketModel,
                        PacketSerializationError,
                    >(self@.packet)
                },
                Err(RemotePacketDeliveryError::UnknownDestinationHost(host)) => {
                    &&& host == self.dst_host_id
                    &&& !partition_map@.contains_key(host.0)
                },
                Err(
                    RemotePacketDeliveryError::NonLocalDestination {
                        host_id,
                        host_shard,
                        current_shard: here,
                    },
                ) => {
                    &&& host_id == self.dst_host_id
                    &&& here == current_shard
                    &&& partition_map@.contains_key(host_id.0)
                    &&& partition_map@[host_id.0] == host_shard
                    &&& host_shard != current_shard
                },
            },
    {
        match partition_map.shard_for_host(self.dst_host_id) {
            None => Err(RemotePacketDeliveryError::UnknownDestinationHost(self.dst_host_id)),
            Some(host_shard) => {
                if host_shard != current_shard {
                    return Err(
                        RemotePacketDeliveryError::NonLocalDestination {
                            host_id: self.dst_host_id,
                            host_shard,
                            current_shard,
                        },
                    );
                }
                let dst_host_id = self.dst_host_id;
                let event = Event::new_packet_with_meta(
                    self.packet.into_packet(),
                    self.deliver_time,
                    self.src_host_id,
                    self.src_host_event_id,
                );
                Ok((dst_host_id, event))
            },
        }
    }

    /// The number of payload bytes of the packet.
    pub fn packet_payload_len(&self) -> (len: usize)
        ensures
            len == self@.packet.payload_of().len(),
    {
        self.packet.payload_len()
    }
}

/// A remote packet event in the fields of the wire format. The delivery time is a plain number.
#[derive(Debug, PartialEq, Eq)]
pub struct WireRemotePacketEvent {
    pub deliver_time: u64,
    pub src_host_id: u32,
    pub src_host_event_id: u64,
    pub dst_host_id: u32,
    pub packet: WireSerializedPacket,
}

/// What the fields of the wire format hold.
#[verifier::ext_equal]
pub struct WireEventModel {
    pub deliver_time: u64,
    pub src_host_id: u32,
    pub src_host_event_id: u64,
    pub dst_host_id: u32,
    pub packet: PacketModel,
}

impl View for WireRemotePacketEvent {
    type V = WireEventModel;

    open spec fn view(&self) -> WireEventModel {
        WireEventModel {
            deliver_time: self.deliver_time,
            src_host_id: self.src_host_id,
            src_host_event_id: self.src_host_event_id,
            dst_host_id: self.dst_host_id,
            packet: self.packet@,
        }
    }
}

impl EventModel {
    /// The event in the fields of the wire format.
    pub open spec fn on_wire(self) -> WireEventModel {
        WireEventModel {
            deliver_time: EmulatedTime::number(Some(self.deliver_time)),
            src_host_id: self.src_host_id.0,
            src_host_event_id: self.src_host_event_id,
            dst_host_id: self.dst_host_id.0,
            packet: self.packet,
        }
    }
}

/// What is said to a delivery time that is none.
pub open spec fn invalid_time_text(deliver_time: u64) -> Seq<char> {
    "invalid emulated delivery time "@ + decimal(deliver_time as nat) + " in IPC packet batch"@
}

impl WireEventModel {
    /// The event that the fields stand for, unless the delivery time is none.
    pub open spec fn off_wire(self) -> Result<EventModel, Seq<char>> {
        match EmulatedTime::instant(self.deliver_time) {
            None => Err(invalid_time_text(self.deliver_time)),
            Some(deliver_time) => Ok(
                EventModel {
                    deliver_time,
                    src_host_id: HostId(self.src_host_id),
                    src_host_event_id: self.src_host_event_id,
                    dst_host_id: HostId(self.dst_host_id),
                    packet: self.packet,
                },
            ),
        }
    }

    /// The wire format of an event.
    pub open spec fn bytes(self) -> Seq<u8> {
        event_head_bytes(
            self.deliver_time,
            self.src_host_id,
            self.src_host_event_id,
            self.dst_host_id,
        ) + self.packet.bytes()
    }

    /// What is written of an event whose packet cannot be written.
    pub open spec fn bytes_before_fault(self) -> Seq<u8> {
        event_head_bytes(
            self.deliver_time,
            self.src_host_id,
            self.src_host_event_id,
            self.dst_host_id,
        ) + self.packet.bytes_before_fault()
    }
}

/// An event goes through the fields of the wire format unchanged.
pub proof fn law_event_survives_the_wire_fields(event: EventModel)
    requires
        event.deliver_time.valid(),
    ensures
        event.on_wire().off_wire() == Ok::<EventModel, Seq<char>>(event),
{
}

/// What stands in front of the packet of an event.
pub open spec fn event_head_bytes(
    deliver_time: u64,
    src_host_id: u32,
    src_host_event_id: u64,
    dst_host_id: u32,
) -> Seq<u8> {
    be_bytes(deliver_time as nat, 8) + be_bytes(src_host_id as nat, 4) + be_bytes(
        src_host_event_id as nat,
        8,
    ) + be_bytes(dst_host_id as nat, 4)
}

/// What stands in front of the packet of an event, at the front of the bytes.
pub open spec fn take_event_head(s: Seq<u8>) -> Parsed<(u64, u32, u64, u32)> {
    match take_u64(s) {
        Err(reason) => Err(reason),
        Ok((deliver_time, a)) => match take_u32(a) {
            Err(reason) => Err(reason),
            Ok((src_host_id, b)) => match take_u64(b) {
                Err(reason) => Err(reason),
                Ok((src_host_event_id, c)) => match take_u32(c) {
                    Err(reason) => Err(reason),
                    Ok((dst_host_id, after)) => Ok(
                        ((deliver_time, src_host_id, src_host_event_id, dst_host_id), after),
                    ),
                },
            },
        },
    }
}

/// The event at the front of the bytes.
pub open spec fn take_event(s: Seq<u8>) -> Parsed<WireEventModel> {
    match take_event_head(s) {
        Err(reason) => Err(reason),
        Ok(((deliver_time, src_host_id, src_host_event_id, dst_host_id), behind)) => match take_packet(
            behind,
        ) {
            Err(reason) => Err(reason),
            Ok((packet, after)) => Ok(
                (
                    WireEventModel {
                        deliver_time,
                        src_host_id,
                        src_host_event_id,
                        dst_host_id,
                        packet,
                    },
                    after,
                ),
            ),
        },
    }
}

/// What stands in front of a packet is read back, and was read from nothing else.
proof fn lemma_event_head_bijection(
    deliver_time: u64,
    src_host_id: u32,
    src_host_event_id: u64,
    dst_host_id: u32,
    rest: Seq<u8>,
    s: Seq<u8>,
)
    ensures
        take_event_head(
            event_head_bytes(deliver_time, src_host_id, src_host_event_id, dst_host_id) + rest,
        ) == Ok::<((u64, u32, u64, u32), Seq<u8>), Seq<char>>(
            ((deliver_time, src_host_id, src_host_event_id, dst_host_id), rest),
        ),
        take_event_head(s) == Ok::<((u64, u32, u64, u32), Seq<u8>), Seq<char>>(
            ((deliver_time, src_host_id, src_host_event_id, dst_host_id), rest),
        ) ==> s == event_head_bytes(deliver_time, src_host_id, src_host_event_id, dst_host_id)
            + rest,
{
    let a = be_bytes(deliver_time as nat, 8);
    let b = be_bytes(src_host_id as nat, 4);
    let c = be_bytes(src_host_event_id as nat, 8);
    let d = be_bytes(dst_host_id as nat, 4);
    let from_d = d + rest;
    let from_c = c + from_d;
    let from_b = b + from_c;
    lemma_join_assoc(a + b + c, d, rest);
    lemma_join_assoc(a + b, c, from_d);
    lemma_join_assoc(a, b, from_c);
    lemma_u64_bijection(deliver_time, from_b, s);
    lemma_u32_bijection(src_host_id, from_c, from_b);
    lemma_u64_bijection(src_host_event_id, from_d, from_c);
    lemma_u32_bijection(dst_host_id, rest, from_d);
    if take_event_head(s) is Ok {
        let s1 = take_u64(s)->Ok_0.1;
        let s2 = take_u32(s1)->Ok_0.1;
        let s3 = take_u64(s2)->Ok_0.1;
        lemma_u32_bijection(src_host_id, from_c, s1);
        lemma_u64_bijection(src_host_event_id, from_d, s2);
        lemma_u32_bijection(dst_host_id, rest, s3);
    }
}

/// An event whose packet can be written is read back, whatever stands behind it; and what an event
/// was read from is the event's bytes.
pub proof fn law_event_bijection(event: WireEventModel, rest: Seq<u8>, s: Seq<u8>)
    ensures
        event.packet.fault() is None ==> take_event(event.bytes() + rest) == Ok::<
            (WireEventModel, Seq<u8>),
            Seq<char>,
        >((event, rest)),
        take_event(s) == Ok::<(WireEventModel, Seq<u8>), Seq<char>>((event, rest)) ==> s
            == event.bytes() + rest && event.packet.fault() is None,
{
    let head = event_head_bytes(
        event.deliver_time,
        event.src_host_id,
        event.src_host_event_id,
        event.dst_host_id,
    );
    let packet = event.packet.bytes();
    let behind = if take_event_head(s) is Ok {
        take_event_head(s)->Ok_0.1
    } else {
        Seq::empty()
    };
    lemma_join_assoc(head, packet, rest);
    lemma_event_head_bijection(
        event.deliver_time,
        event.src_host_id,
        event.src_host_event_id,
        event.dst_host_id,
        packet + rest,
        s,
    );
    law_packet_bijection(event.packet, rest, behind);
}

impl WireRemotePacketEvent {
    /// Writes the event. Of an event whose packet cannot be written, the fields in front of the
    /// refused one are written.
    pub fn encode_into(&self, out: &mut Vec<u8>) -> (written: Result<
        (),
        RemotePacketExchangeError,
    >)
        ensures
            match (written, self@.packet.fault()) {
                (Ok(()), None) => final(out)@ == old(out)@ + self@.bytes(),
                (Err(e), Some(text)) => final(out)@ == old(out)@ + self@.bytes_before_fault() && e@
                    == ExchangeFailure::Backend(text),
                _ => false,
            },
    {
        let ghost before = out@;
        write_u64(out, self.deliver_time);
        write_u32(out, self.src_host_id);
        write_u64(out, self.src_host_event_id);
        write_u32(out, self.dst_host_id);
        let ghost head = event_head_bytes(
            self.deliver_time,
            self.src_host_id,
            self.src_host_event_id,
            self.dst_host_id,
        );
        proof {
            assert(out@ =~= before + head);
            lemma_join_assoc(before, head, self@.packet.bytes());
            lemma_join_assoc(before, head, self@.packet.bytes_before_fault());
        }
        self.packet.encode_into(out)
    }

    /// Reads an event.
    pub fn decode_from(reader: &mut Reader, context: &str) -> (event: Result<
        Self,
        RemotePacketExchangeError,
    >)
        requires
            old(reader).wf(),
        ensures
            final(reader).wf(),
            match (event, take_event(old(reader)@)) {
                (Ok(found), Ok((expected, rest))) => found@ == expected && final(reader)@ == rest,
                (Err(e), Err(reason)) => e@ == decode_failure(context@, reason),
                _ => false,
            },
    {
        let deliver_time: u64 = reader.read_u64(context)?;
        let src_host_id: u32 = reader.read_u32(context)?;
        let src_host_event_id: u64 = reader.read_u64(context)?;
        let dst_host_id: u32 = reader.read_u32(context)?;
        let packet = WireSerializedPacket::decode_from(reader, context)?;
        Ok(
            WireRemotePacketEvent {
                deliver_time,
                src_host_id,
                src_host_event_id,
                dst_host_id,
                packet,
            },
        )
    }
}

impl RemotePacketEvent {
    /// The event in the fields of the wire format.
    pub fn into_wire(self) -> (wire: WireRemotePacketEvent)
        ensures
            wire@ == self@.on_wire(),
    {
        WireRemotePacketEvent {
            deliver_time: EmulatedTime::to_c_emutime(Some(self.deliver_time)),
            src_host_id: self.src_host_id.0,
            src_host_event_id: self.src_host_event_id,
            dst_host_id: self.dst_host_id.0,
            packet: WireSerializedPacket::from(self.packet),
        }
    }

    /// The event that the fields of the wire format stand for.
    pub fn from_wire(value: WireRemotePacketEvent) -> (event: Result<
        Self,
        RemotePacketExchangeError,
    >)
        ensures
            match (event, value@.off_wire()) {
                (Ok(e), Ok(model)) => e@ == model && e.deliver_time.valid(),
                (Err(e), Err(text)) => e@ == ExchangeFailure::Backend(text),
                _ => false,
            },
    {
        match EmulatedTime::from_c_emutime(value.deliver_time) {
            Some(deliver_time) => Ok(
                RemotePacketEvent {
                    deliver_time,
                    src_host_id: HostId::from(value.src_host_id),
                    src_host_event_id: value.src_host_event_id,
                    dst_host_id: HostId::from(value.dst_host_id),
                    packet: SerializedPacket::from(value.packet),
                },
            ),
            None => {
                let mut text = String::new();
                text.append("invalid emulated delivery time ");
                push_decimal(&mut text, value.deliver_time);
                text.append(" in IPC packet batch");
                assert(text@ =~= invalid_time_text(value.deliver_time));
                Err(RemotePacketExchangeError::Backend(text))
            },
        }
    }
}

/// Sorted events are delivered one after the other: delivery times never descend; events of one time
/// ascend by sending host, those of one host by event number, and those of one number by receiving
/// host.
pub proof fn law_sorted_events_are_in_delivery_order(
    input: Seq<EventModel>,
    output: Seq<EventModel>,
    i: int,
    j: int,
)
    requires
        is_sorted_version(input, output),
        0 <= i < j < output.len(),
    ensures
        output[i].deliver_time.0 <= output[j].deliver_time.0,
        output[i].deliver_time == output[j].deliver_time ==> output[i].src_host_id.0
            <= output[j].src_host_id.0,
        output[i].deliver_time == output[j].deliver_time && output[i].src_host_id
            == output[j].src_host_id ==> output[i].src_host_event_id
            <= output[j].src_host_event_id,
        output[i].deliver_time == output[j].deliver_time && output[i].src_host_id
            == output[j].src_host_id && output[i].src_host_event_id == output[j].src_host_event_id
            ==> output[i].dst_host_id.0 <= output[j].dst_host_id.0,
        output.to_multiset() == input.to_multiset(),
{
    law_sorting_keeps_the_items(input, output);
    let order = choose|order: Seq<int>| sorts(input, output, order);
    assert(key_before(output[i].key(), output[j].key()) || output[i].key() == output[j].key());
}

/// The fields of the wire format are those of the event, its delivery time as a number.
pub proof fn law_wire_fields_are_those_of_the_event(event: RemotePacketEvent)
    ensures
        event@.on_wire().deliver_time == event.deliver_time.0,
        event@.on_wire().src_host_id == event.src_host_id.0,
        event@.on_wire().src_host_event_id == event.src_host_event_id,
        event@.on_wire().dst_host_id == event.dst_host_id.0,
        event@.on_wire().packet == event.packet@,
        event@.deliver_time == event.deliver_time,
        event@.src_host_id == event.src_host_id,
        event@.src_host_event_id == event.src_host_event_id,
        event@.dst_host_id == event.dst_host_id,
        event@.packet == event.packet@,
{
}

/// An event is made of wire fields exactly where the delivery time is not the highest number, and
/// then has those fields.
pub proof fn law_events_are_made_of_their_wire_fields(wire: WireRemotePacketEvent)
    ensures
        wire@.off_wire() is Ok <==> wire.deliver_time != 0xffff_ffff_ffff_ffff,
        wire@.off_wire() matches Ok(event) ==> {
            &&& event.deliver_time.0 == wire.deliver_time
            &&& event.src_host_id.0 == wire.src_host_id
            &&& event.src_host_event_id == wire.src_host_event_id
            &&& event.dst_host_id.0 == wire.dst_host_id
            &&& event.packet == wire.packet@
        },
{
}

/// An event goes as the time of its delivery, the sending host, the number of the event, the
/// receiving host and the packet.
pub proof fn law_event_layout(wire: WireRemotePacketEvent)
    ensures
        ({
            let data = wire@.bytes();
            &&& data.len() == 24 + wire.packet@.bytes().len()
            &&& data.subrange(0, 8) == be_bytes(wire.deliver_time as nat, 8)
            &&& data.subrange(8, 12) == be_bytes(wire.src_host_id as nat, 4)
            &&& data.subrange(12, 20) == be_bytes(wire.src_host_event_id as nat, 8)
            &&& data.subrange(20, 24) == be_bytes(wire.dst_host_id as nat, 4)
            &&& data.skip(24) == wire.packet@.bytes()
        }),
{
    broadcast use lemma_be_bytes_len;

    let data = wire@.bytes();
    let packet = wire.packet@.bytes();
    let head = event_head_bytes(
        wire.deliver_time,
        wire.src_host_id,
        wire.src_host_event_id,
        wire.dst_host_id,
    );
    assert(head.len() == 24);
    assert(head.subrange(0, 8) =~= be_bytes(wire.deliver_time as nat, 8));
    assert(head.subrange(8, 12) =~= be_bytes(wire.src_host_id as nat, 4));
    assert(head.subrange(12, 20) =~= be_bytes(wire.src_host_event_id as nat, 8));
    assert(head.subrange(20, 24) =~= be_bytes(wire.dst_host_id as nat, 4));
    assert(data == head + packet);
    assert(data.subrange(0, 8) =~= head.subrange(0, 8));
    assert(data.subrange(8, 12) =~= head.subrange(8, 12));
    assert(data.subrange(12, 20) =~= head.subrange(12, 20));
    assert(data.subrange(20, 24) =~= head.subrange(20, 24));
    assert(data.skip(24) =~= packet);
}

/// What events hold stands in the order of the events.
pub proof fn law_models_stand_in_the_order_of_events(events: Seq<RemotePacketEvent>, i: int)
    requires
        0 <= i < events.len(),
    ensures
        event_models(events).len() == events.len(),
        event_models(events)[i].deliver_time == events[i].deliver_time,
        event_models(events)[i].src_host_id == events[i].src_host_id,
        event_models(events)[i].src_host_event_id == events[i].src_host_event_id,
        event_models(events)[i].dst_host_id == events[i].dst_host_id,
        event_models(events)[i].packet == events[i].packet@,
{
}

} // verus!
