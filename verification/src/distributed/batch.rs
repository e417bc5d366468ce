//! Batches of remote packet events, as they are sent from one shard to another.

use vstd::prelude::*;
use vstd::string::*;

use crate::bytes::{be_bytes, lemma_be_bytes_len, lemma_join_assoc};
use crate::distributed::error::{
    ExchangeFailure, RemotePacketExchangeError, decode_error, decode_failure,
};
use crate::distributed::event::{
    EventModel, RemotePacketEvent, WireEventModel, WireRemotePacketEvent, event_models,
    law_event_bijection, law_event_survives_the_wire_fields, take_event,
};
use crate::distributed::wire::{
    Parsed, Reader, WIRE_KIND_PACKET_BATCH, decode_wire_message, encode_wire_message,
    law_message_bijection, lemma_u32_bijection, message_body, message_bytes, take_u32,
    trailing_bytes, write_len,
};
use crate::ids::ShardId;
use crate::text::{decimal, push_decimal};

verus! {

/// The largest batch: 64 MiB.
pub const MAX_PACKET_BATCH_BYTES: usize = 64 * 1024 * 1024;

/// The most events in a batch.
pub const MAX_PACKET_BATCH_EVENTS: usize = 1_000_000;

/// What the fields of a list of events hold.
pub open spec fn wire_models(events: Seq<WireRemotePacketEvent>) -> Seq<WireEventModel> {
    Seq::new(events.len(), |i: int| events[i]@)
}

/// The bytes of a list of events, one after the other.
pub open spec fn events_bytes(events: Seq<WireEventModel>) -> Seq<u8>
    decreases events.len(),
{
    if events.len() == 0 {
        Seq::empty()
    } else {
        events[0].bytes() + events_bytes(events.skip(1))
    }
}

/// The number of events, then the events.
pub open spec fn batch_body(events: Seq<WireEventModel>) -> Seq<u8> {
    be_bytes(events.len(), 4) + events_bytes(events)
}

/// The wire format of a batch.
pub open spec fn batch_bytes(events: Seq<WireEventModel>) -> Seq<u8> {
    message_bytes(WIRE_KIND_PACKET_BATCH, batch_body(events))
}

/// What is said to the first packet that cannot be written, if there is one.
pub open spec fn first_fault(events: Seq<WireEventModel>) -> Option<Seq<char>>
    decreases events.len(),
{
    if events.len() == 0 {
        None
    } else {
        match first_fault(events.drop_last()) {
            Some(text) => Some(text),
            None => events.last().packet.fault(),
        }
    }
}

/// What is said to a batch that cannot be written, if it cannot.
pub open spec fn batch_fault(events: Seq<WireEventModel>) -> Option<Seq<char>> {
    if events.len() > MAX_PACKET_BATCH_EVENTS {
        Some(
            "remote packet batch has "@ + decimal(events.len()) + " events, exceeding limit "@
                + decimal(MAX_PACKET_BATCH_EVENTS as nat),
        )
    } else if first_fault(events) is Some {
        first_fault(events)
    } else if batch_bytes(events).len() > MAX_PACKET_BATCH_BYTES {
        Some(
            "remote packet batch is too large: "@ + decimal(batch_bytes(events).len())
                + " bytes exceeds "@ + decimal(MAX_PACKET_BATCH_BYTES as nat),
        )
    } else {
        None
    }
}

/// How a batch is called in messages about it.
pub open spec fn batch_context(shard: ShardId) -> Seq<char> {
    "IPC packet batch for shard "@ + shard.shown()
}

/// A number of events at the front of the bytes.
pub open spec fn take_events(s: Seq<u8>, count: nat) -> Parsed<Seq<WireEventModel>>
    decreases count,
{
    if count == 0 {
        Ok((Seq::empty(), s))
    } else {
        match take_event(s) {
            Err(reason) => Err(reason),
            Ok((event, rest)) => match take_events(rest, (count - 1) as nat) {
                Err(reason) => Err(reason),
                Ok((others, after)) => Ok((seq![event] + others, after)),
            },
        }
    }
}

/// The events of a batch body, or why it is none.
pub open spec fn parse_body(body: Seq<u8>) -> Result<Seq<WireEventModel>, Seq<char>> {
    match take_u32(body) {
        Err(reason) => Err(reason),
        Ok((count, rest)) => if count > MAX_PACKET_BATCH_EVENTS {
            Err(
                "packet count "@ + decimal(count as nat) + " exceeds limit "@ + decimal(
                    MAX_PACKET_BATCH_EVENTS as nat,
                ),
            )
        } else {
            match take_events(rest, count as nat) {
                Err(reason) => Err(reason),
                Ok((events, after)) => if after.len() != 0 {
                    Err(trailing_bytes(after.len()))
                } else {
                    Ok(events)
                },
            }
        },
    }
}

/// The events of a batch for a shard, or the failure to read it.
pub open spec fn parse_batch(payload: Seq<u8>, shard: ShardId) -> Result<
    Seq<WireEventModel>,
    ExchangeFailure,
> {
    if payload.len() > MAX_PACKET_BATCH_BYTES {
        Err(
            ExchangeFailure::Backend(
                batch_context(shard) + " is too large: "@ + decimal(payload.len())
                    + " bytes exceeds "@ + decimal(MAX_PACKET_BATCH_BYTES as nat),
            ),
        )
    } else {
        match message_body(payload, WIRE_KIND_PACKET_BATCH) {
            Err(reason) => Err(decode_failure(batch_context(shard), reason)),
            Ok(body) => match parse_body(body) {
                Err(reason) => Err(decode_failure(batch_context(shard), reason)),
                Ok(events) => Ok(events),
            },
        }
    }
}

/// The events that a list of wire fields stands for, or what is said to the first whose delivery
/// time is none.
pub open spec fn all_off_wire(events: Seq<WireEventModel>) -> Result<Seq<EventModel>, Seq<char>>
    decreases events.len(),
{
    if events.len() == 0 {
        Ok(Seq::empty())
    } else {
        match all_off_wire(events.drop_last()) {
            Err(text) => Err(text),
            Ok(done) => match events.last().off_wire() {
                Err(text) => Err(text),
                Ok(event) => Ok(done.push(event)),
            },
        }
    }
}

/// The events of a list in the fields of the wire format.
pub open spec fn all_on_wire(events: Seq<EventModel>) -> Seq<WireEventModel> {
    Seq::new(events.len(), |i: int| events[i].on_wire())
}

proof fn lemma_events_bytes_push(events: Seq<WireEventModel>, event: WireEventModel)
    ensures
        events_bytes(events.push(event)) == events_bytes(events) + event.bytes(),
    decreases events.len(),
{
    let longer = events.push(event);
    if events.len() == 0 {
        assert(longer.skip(1) =~= events);
        assert(events_bytes(events) =~= Seq::<u8>::empty());
        assert(event.bytes() + Seq::<u8>::empty() =~= Seq::<u8>::empty() + event.bytes());
    } else {
        assert(longer.skip(1) =~= events.skip(1).push(event));
        lemma_events_bytes_push(events.skip(1), event);
        lemma_join_assoc(events[0].bytes(), events_bytes(events.skip(1)), event.bytes());
    }
}

proof fn lemma_first_fault_of_prefix(events: Seq<WireEventModel>, n: int)
    requires
        0 <= n <= events.len(),
        first_fault(events.take(n)) is Some,
    ensures
        first_fault(events) == first_fault(events.take(n)),
    decreases events.len() - n,
{
    if n < events.len() {
        assert(events.take(n + 1).drop_last() =~= events.take(n));
        lemma_first_fault_of_prefix(events, n + 1);
    } else {
        assert(events.take(n) =~= events);
    }
}

/// A batch as bytes.
pub fn encode_wire_packet_batch(packets: &[WireRemotePacketEvent]) -> (payload: Result<
    Vec<u8>,
    RemotePacketExchangeError,
>)
    ensures
        match (payload, batch_fault(wire_models(packets@))) {
            (Ok(bytes), None) => bytes@ == batch_bytes(wire_models(packets@)),
            (Err(e), Some(text)) => e@ == ExchangeFailure::Backend(text),
            _ => false,
        },
{
    let ghost models = wire_models(packets@);
    if packets.len() > MAX_PACKET_BATCH_EVENTS {
        let mut text = String::new();
        text.append("remote packet batch has ");
        push_decimal(&mut text, packets.len() as u64);
        text.append(" events, exceeding limit ");
        push_decimal(&mut text, MAX_PACKET_BATCH_EVENTS as u64);
        assert(text@ =~= "remote packet batch has "@ + decimal(models.len())
            + " events, exceeding limit "@ + decimal(MAX_PACKET_BATCH_EVENTS as nat));
        return Err(RemotePacketExchangeError::Backend(text));
    }
    let mut body: Vec<u8> = Vec::new();
    write_len(&mut body, packets.len())?;
    assert(body@ =~= be_bytes(models.len(), 4) + events_bytes(models.take(0)));
    let mut i: usize = 0;
    while i < packets.len()
        invariant
            i <= packets@.len(),
            packets@.len() <= MAX_PACKET_BATCH_EVENTS,
            models == wire_models(packets@),
            first_fault(models.take(i as int)) is None,
            body@ == be_bytes(models.len(), 4) + events_bytes(models.take(i as int)),
        decreases packets@.len() - i,
    {
        let ghost model = packets@[i as int]@;
        let ghost before = body@;
        proof {
            assert(models.take(i + 1) =~= models.take(i as int).push(model));
            assert(models.take(i + 1).drop_last() =~= models.take(i as int));
            assert(first_fault(models.take(i + 1)) == model.packet.fault());
            if first_fault(models.take(i + 1)) is Some {
                lemma_first_fault_of_prefix(models, i + 1);
            }
            lemma_events_bytes_push(models.take(i as int), model);
            lemma_join_assoc(
                be_bytes(models.len(), 4),
                events_bytes(models.take(i as int)),
                model.bytes(),
            );
        }
        packets[i].encode_into(&mut body)?;
        i += 1;
    }
    assert(models.take(i as int) =~= models);
    let payload = encode_wire_message(WIRE_KIND_PACKET_BATCH, &body);
    if payload.len() > MAX_PACKET_BATCH_BYTES {
        let mut text = String::new();
        text.append("remote packet batch is too large: ");
        push_decimal(&mut text, payload.len() as u64);
        text.append(" bytes exceeds ");
        push_decimal(&mut text, MAX_PACKET_BATCH_BYTES as u64);
        assert(text@ =~= "remote packet batch is too large: "@ + decimal(batch_bytes(models).len())
            + " bytes exceeds "@ + decimal(MAX_PACKET_BATCH_BYTES as nat));
        return Err(RemotePacketExchangeError::Backend(text));
    }
    Ok(payload)
}

/// Reads a number of events.
fn read_events(reader: &mut Reader, count: usize, context: &str) -> (events: Result<
    Vec<WireRemotePacketEvent>,
    RemotePacketExchangeError,
>)
    requires
        old(reader).wf(),
    ensures
        final(reader).wf(),
        match (events, take_events(old(reader)@, count as nat)) {
            (Ok(list), Ok((expected, rest))) => wire_models(list@) == expected && final(reader)@
                == rest,
            (Err(e), Err(reason)) => e@ == decode_failure(context@, reason),
            _ => false,
        },
{
    let ghost whole = take_events(reader@, count as nat);
    let mut events: Vec<WireRemotePacketEvent> = Vec::new();
    let mut i: usize = 0;
    proof {
        if whole is Ok {
            assert(wire_models(events@) + whole->Ok_0.0 =~= whole->Ok_0.0);
        }
    }
    while i < count
        invariant
            i <= count,
            reader.wf(),
            whole == take_events(old(reader)@, count as nat),
            match (whole, take_events(reader@, (count - i) as nat)) {
                (Ok((all, after)), Ok((others, rest))) => all == wire_models(events@) + others
                    && after == rest,
                (Err(e), Err(reason)) => e == reason,
                _ => false,
            },
        decreases count - i,
    {
        let ghost before = wire_models(events@);
        let event = WireRemotePacketEvent::decode_from(reader, context)?;
        let ghost model = event@;
        events.push(event);
        proof {
            assert(wire_models(events@) =~= before.push(model));
            let rest = take_events(reader@, (count - i - 1) as nat);
            if rest is Ok {
                assert(before + (seq![model] + rest->Ok_0.0) =~= wire_models(events@)
                    + rest->Ok_0.0);
            }
        }
        i += 1;
    }
    assert(wire_models(events@) + Seq::<WireEventModel>::empty() =~= wire_models(events@));
    Ok(events)
}

/// The events of a batch for a shard, in the fields of the wire format.
pub fn decode_wire_packet_batch(payload: &[u8], shard: ShardId) -> (events: Result<
    Vec<WireRemotePacketEvent>,
    RemotePacketExchangeError,
>)
    ensures
        match (events, parse_batch(payload@, shard)) {
            (Ok(list), Ok(expected)) => wire_models(list@) == expected,
            (Err(e), Err(failure)) => e@ == failure,
            _ => false,
        },
{
    let mut context = String::new();
    context.append("IPC packet batch for shard ");
    shard.push_shown(&mut context);
    assert(context@ =~= batch_context(shard));
    if payload.len() > MAX_PACKET_BATCH_BYTES {
        let mut text = String::new();
        text.append(context.as_str());
        text.append(" is too large: ");
        push_decimal(&mut text, payload.len() as u64);
        text.append(" bytes exceeds ");
        push_decimal(&mut text, MAX_PACKET_BATCH_BYTES as u64);
        assert(text@ =~= batch_context(shard) + " is too large: "@ + decimal(payload@.len())
            + " bytes exceeds "@ + decimal(MAX_PACKET_BATCH_BYTES as nat));
        return Err(RemotePacketExchangeError::Backend(text));
    }
    let body = decode_wire_message(payload, WIRE_KIND_PACKET_BATCH, context.as_str())?;
    let mut reader = Reader::new(&body);
    let count: usize = reader.read_len(context.as_str())?;
    if count > MAX_PACKET_BATCH_EVENTS {
        let mut reason = String::new();
        reason.append("packet count ");
        push_decimal(&mut reason, count as u64);
        reason.append(" exceeds limit ");
        push_decimal(&mut reason, MAX_PACKET_BATCH_EVENTS as u64);
        assert(reason@ =~= "packet count "@ + decimal(count as nat) + " exceeds limit "@ + decimal(
            MAX_PACKET_BATCH_EVENTS as nat,
        ));
        return Err(decode_error(context.as_str(), reason.as_str()));
    }
    let events = read_events(&mut reader, count, context.as_str())?;
    reader.reject_trailing_bytes(context.as_str())?;
    Ok(events)
}

/// A batch as bytes.
pub fn encode_remote_packet_batch(packets: &[RemotePacketEvent]) -> (payload: Result<
    Vec<u8>,
    RemotePacketExchangeError,
>)
    ensures
        match (payload, batch_fault(all_on_wire(event_models(packets@)))) {
            (Ok(bytes), None) => bytes@ == batch_bytes(all_on_wire(event_models(packets@))),
            (Err(e), Some(text)) => e@ == ExchangeFailure::Backend(text),
            _ => false,
        },
{
    let ghost models = all_on_wire(event_models(packets@));
    let mut wire: Vec<WireRemotePacketEvent> = Vec::new();
    let mut i: usize = 0;
    while i < packets.len()
        invariant
            i <= packets@.len(),
            models == all_on_wire(event_models(packets@)),
            wire_models(wire@) == models.take(i as int),
        decreases packets@.len() - i,
    {
        let ghost before = wire@;
        let next = packets[i].clone().into_wire();
        wire.push(next);
        proof {
            assert(models[i as int] == event_models(packets@)[i as int].on_wire());
            assert(wire_models(wire@) =~= wire_models(before).push(next@));
            assert(models.take(i + 1) =~= models.take(i as int).push(models[i as int]));
        }
        i += 1;
    }
    assert(models.take(i as int) =~= models);
    encode_wire_packet_batch(&wire)
}

/// What is read of a batch for a shard, or the failure to read it.
pub open spec fn received_batch(payload: Seq<u8>, shard: ShardId) -> Result<
    Seq<EventModel>,
    ExchangeFailure,
> {
    match parse_batch(payload, shard) {
        Err(failure) => Err(failure),
        Ok(wire) => match all_off_wire(wire) {
            Err(text) => Err(ExchangeFailure::Backend(text)),
            Ok(events) => Ok(events),
        },
    }
}

proof fn lemma_off_wire_error_stays(events: Seq<WireEventModel>, n: int)
    requires
        0 <= n <= events.len(),
        all_off_wire(events.take(n)) is Err,
    ensures
        all_off_wire(events) == all_off_wire(events.take(n)),
    decreases events.len() - n,
{
    if n < events.len() {
        assert(events.take(n + 1).drop_last() =~= events.take(n));
        lemma_off_wire_error_stays(events, n + 1);
    } else {
        assert(events.take(n) =~= events);
    }
}

/// The events of a batch for a shard.
pub fn decode_remote_packet_batch(payload: &[u8], shard: ShardId) -> (events: Result<
    Vec<RemotePacketEvent>,
    RemotePacketExchangeError,
>)
    ensures
        match (events, received_batch(payload@, shard)) {
            (Ok(list), Ok(expected)) => event_models(list@) == expected,
            (Err(e), Err(failure)) => e@ == failure,
            _ => false,
        },
{
    let wire = decode_wire_packet_batch(payload, shard)?;
    let ghost whole = wire@;
    let ghost models = wire_models(whole);
    let mut events: Vec<RemotePacketEvent> = Vec::new();
    let ghost mut done: int = 0;
    assert(event_models(events@) =~= Seq::<EventModel>::empty());
    for next in it: wire
        invariant
            models == wire_models(whole),
            it.seq() == whole,
            it.index() == done,
            parse_batch(payload@, shard) == Ok::<Seq<WireEventModel>, ExchangeFailure>(models),
            all_off_wire(models.take(done)) == Ok::<Seq<EventModel>, Seq<char>>(
                event_models(events@),
            ),
    {
        let ghost before = event_models(events@);
        proof {
            assert(next == whole[done]);
            assert(models[done] == next@);
            assert(models.take(done + 1) =~= models.take(done).push(next@));
            assert(models.take(done + 1).drop_last() =~= models.take(done));
            if all_off_wire(models.take(done + 1)) is Err {
                lemma_off_wire_error_stays(models, done + 1);
            }
        }
        let event = RemotePacketEvent::from_wire(next)?;
        let ghost model = event@;
        events.push(event);
        proof {
            assert(event_models(events@) =~= before.push(model));
            done = done + 1;
        }
    }
    assert(models.take(done) =~= models);
    Ok(events)
}

proof fn lemma_no_fault_of_any(events: Seq<WireEventModel>, i: int)
    requires
        first_fault(events) is None,
        0 <= i < events.len(),
    ensures
        events[i].packet.fault() is None,
    decreases events.len(),
{
    if i < events.len() - 1 {
        lemma_no_fault_of_any(events.drop_last(), i);
        assert(events.drop_last()[i] == events[i]);
    }
}

proof fn lemma_no_fault_of_all(events: Seq<WireEventModel>)
    requires
        forall|i: int| 0 <= i < events.len() ==> (#[trigger] events[i]).packet.fault() is None,
    ensures
        first_fault(events) is None,
    decreases events.len(),
{
    if events.len() > 0 {
        let shorter = events.drop_last();
        assert forall|i: int| 0 <= i < shorter.len() implies (
        #[trigger] shorter[i]).packet.fault() is None by {
            assert(shorter[i] == events[i]);
        }
        lemma_no_fault_of_all(shorter);
        assert(events[events.len() - 1].packet.fault() is None);
    }
}

/// An event and the events behind it are read as one list.
proof fn lemma_take_step(
    s: Seq<u8>,
    event: WireEventModel,
    behind: Seq<u8>,
    others: Seq<WireEventModel>,
    rest: Seq<u8>,
)
    requires
        take_event(s) == Ok::<(WireEventModel, Seq<u8>), Seq<char>>((event, behind)),
        take_events(behind, others.len()) == Ok::<(Seq<WireEventModel>, Seq<u8>), Seq<char>>(
            (others, rest),
        ),
    ensures
        take_events(s, others.len() + 1) == Ok::<(Seq<WireEventModel>, Seq<u8>), Seq<char>>(
            (seq![event] + others, rest),
        ),
{
}

/// An event whose packet can be written is read back, whatever stands behind it.
proof fn lemma_event_is_read(event: WireEventModel, behind: Seq<u8>)
    requires
        event.packet.fault() is None,
    ensures
        take_event(event.bytes() + behind) == Ok::<(WireEventModel, Seq<u8>), Seq<char>>(
            (event, behind),
        ),
{
    law_event_bijection(event, behind, Seq::empty());
}

/// Where the bytes of an event and those of others are read back, both are read back together.
proof fn lemma_event_before_others(
    piece: Seq<u8>,
    event: WireEventModel,
    more: Seq<u8>,
    others: Seq<WireEventModel>,
    rest: Seq<u8>,
)
    requires
        take_event(piece + (more + rest)) == Ok::<(WireEventModel, Seq<u8>), Seq<char>>(
            (event, more + rest),
        ),
        take_events(more + rest, others.len()) == Ok::<(Seq<WireEventModel>, Seq<u8>), Seq<char>>(
            (others, rest),
        ),
    ensures
        take_events(piece + more + rest, others.len() + 1) == Ok::<
            (Seq<WireEventModel>, Seq<u8>),
            Seq<char>,
        >((seq![event] + others, rest)),
{
    lemma_join_assoc(piece, more, rest);
    lemma_take_step(piece + (more + rest), event, more + rest, others, rest);
}

/// Events whose packets can be written are read back.
proof fn lemma_events_round_trip(events: Seq<WireEventModel>, rest: Seq<u8>)
    requires
        forall|i: int| 0 <= i < events.len() ==> (#[trigger] events[i]).packet.fault() is None,
    ensures
        take_events(events_bytes(events) + rest, events.len()) == Ok::<
            (Seq<WireEventModel>, Seq<u8>),
            Seq<char>,
        >((events, rest)),
    decreases events.len(),
{
    if events.len() == 0 {
        lemma_no_events(events, rest);
    } else {
        let event = events[0];
        let others = events.skip(1);
        let more = events_bytes(others);
        assert(event.packet.fault() is None);
        assert forall|i: int| 0 <= i < others.len() implies (
        #[trigger] others[i]).packet.fault() is None by {
            assert(others[i] == events[i + 1]);
        }
        lemma_events_round_trip(others, rest);
        lemma_event_is_read(event, more + rest);
        lemma_event_before_others(event.bytes(), event, more, others, rest);
        lemma_first_and_others(events);
    }
}

proof fn lemma_no_events(events: Seq<WireEventModel>, rest: Seq<u8>)
    requires
        events.len() == 0,
    ensures
        take_events(events_bytes(events) + rest, events.len()) == Ok::<
            (Seq<WireEventModel>, Seq<u8>),
            Seq<char>,
        >((events, rest)),
{
    assert(events_bytes(events) + rest =~= rest);
    assert(events =~= Seq::<WireEventModel>::empty());
}

proof fn lemma_first_and_others(events: Seq<WireEventModel>)
    requires
        events.len() > 0,
    ensures
        seq![events[0]] + events.skip(1) == events,
{
    assert(seq![events[0]] + events.skip(1) =~= events);
}

/// What events were read from is their bytes.
proof fn lemma_events_bytes_unique(
    s: Seq<u8>,
    count: nat,
    events: Seq<WireEventModel>,
    rest: Seq<u8>,
)
    requires
        take_events(s, count) == Ok::<(Seq<WireEventModel>, Seq<u8>), Seq<char>>((events, rest)),
    ensures
        events.len() == count,
        s == events_bytes(events) + rest,
        forall|i: int| 0 <= i < events.len() ==> (#[trigger] events[i]).packet.fault() is None,
    decreases count,
{
    if count == 0 {
        assert(events_bytes(events) + rest =~= rest);
    } else {
        let (event, behind) = take_event(s)->Ok_0;
        let (others, after) = take_events(behind, (count - 1) as nat)->Ok_0;
        law_event_bijection(event, behind, s);
        lemma_events_bytes_unique(behind, (count - 1) as nat, others, rest);
        assert(events.skip(1) =~= others);
        lemma_join_assoc(event.bytes(), events_bytes(others), rest);
        assert forall|i: int| 0 <= i < events.len() implies (
        #[trigger] events[i]).packet.fault() is None by {
            if i > 0 {
                assert(events[i] == others[i - 1]);
            }
        }
    }
}

/// The events of a body are read back.
proof fn lemma_body_round_trip(events: Seq<WireEventModel>)
    requires
        events.len() <= MAX_PACKET_BATCH_EVENTS,
        first_fault(events) is None,
    ensures
        parse_body(batch_body(events)) == Ok::<Seq<WireEventModel>, Seq<char>>(events),
{
    assert forall|i: int| 0 <= i < events.len() implies (
    #[trigger] events[i]).packet.fault() is None by {
        lemma_no_fault_of_any(events, i);
    }
    let tail = events_bytes(events);
    lemma_u32_bijection(events.len() as u32, tail, Seq::empty());
    lemma_events_round_trip(events, Seq::empty());
    assert(tail + Seq::<u8>::empty() =~= tail);
}

/// A batch that can be written is read back by the shard that it is for.
pub proof fn law_batch_round_trip(events: Seq<EventModel>, shard: ShardId)
    requires
        batch_fault(all_on_wire(events)) is None,
        forall|i: int| 0 <= i < events.len() ==> (#[trigger] events[i]).deliver_time.valid(),
    ensures
        received_batch(batch_bytes(all_on_wire(events)), shard) == Ok::<
            Seq<EventModel>,
            ExchangeFailure,
        >(events),
{
    let wire = all_on_wire(events);
    lemma_body_round_trip(wire);
    law_message_bijection(WIRE_KIND_PACKET_BATCH, batch_body(wire), Seq::empty());
    lemma_all_off_wire(events);
}

proof fn lemma_all_off_wire(events: Seq<EventModel>)
    requires
        forall|i: int| 0 <= i < events.len() ==> (#[trigger] events[i]).deliver_time.valid(),
    ensures
        all_off_wire(all_on_wire(events)) == Ok::<Seq<EventModel>, Seq<char>>(events),
    decreases events.len(),
{
    let wire = all_on_wire(events);
    if events.len() == 0 {
        assert(events =~= Seq::<EventModel>::empty());
    } else {
        let shorter = events.drop_last();
        assert forall|i: int| 0 <= i < shorter.len() implies (
        #[trigger] shorter[i]).deliver_time.valid() by {
            assert(shorter[i] == events[i]);
        }
        lemma_all_off_wire(shorter);
        assert(wire.drop_last() =~= all_on_wire(shorter));
        assert(events[events.len() - 1].deliver_time.valid());
        law_event_survives_the_wire_fields(events.last());
        assert(shorter.push(events.last()) =~= events);
    }
}

/// Each batch has one form: what a batch was read from are the bytes that its events are written
/// as.
pub proof fn law_batch_bytes_unique(payload: Seq<u8>, shard: ShardId, events: Seq<WireEventModel>)
    requires
        parse_batch(payload, shard) == Ok::<Seq<WireEventModel>, ExchangeFailure>(events),
    ensures
        payload == batch_bytes(events),
        batch_fault(events) is None,
{
    let body = message_body(payload, WIRE_KIND_PACKET_BATCH)->Ok_0;
    let (count, rest) = take_u32(body)->Ok_0;
    let (found, after) = take_events(rest, count as nat)->Ok_0;
    law_message_bijection(WIRE_KIND_PACKET_BATCH, body, payload);
    lemma_u32_bijection(count, rest, body);
    lemma_events_bytes_unique(rest, count as nat, events, after);
    assert(events_bytes(events) + after =~= events_bytes(events));
    lemma_no_fault_of_all(events);
}

/// A batch goes as a batch message that begins with the number of its events.
pub proof fn law_batch_head_layout(events: Seq<WireEventModel>)
    ensures
        batch_bytes(events).len() >= 10,
        batch_bytes(events).take(6) == seq![0x53u8, 0x48, 0x44, 0x57, 1, 3],
        batch_bytes(events).subrange(6, 10) == be_bytes(events.len(), 4),
        events.len() == 0 ==> batch_bytes(events).len() == 10,
{
    lemma_be_bytes_len(events.len(), 4);
    assert(batch_bytes(events).take(6) =~= seq![0x53u8, 0x48, 0x44, 0x57, 1, 3]);
    assert(batch_bytes(events).subrange(6, 10) =~= be_bytes(events.len(), 4));
}

/// Behind its head a batch holds its events one after the other: one more event adds its bytes at
/// the end.
pub proof fn law_batch_holds_its_events_in_order(
    events: Seq<WireEventModel>,
    event: WireEventModel,
)
    ensures
        batch_bytes(events.push(event)).skip(10) == batch_bytes(events).skip(10) + event.bytes(),
{
    lemma_be_bytes_len(events.len(), 4);
    lemma_be_bytes_len(events.push(event).len(), 4);
    lemma_events_bytes_push(events, event);
    assert(batch_bytes(events).skip(10) =~= events_bytes(events));
    assert(batch_bytes(events.push(event)).skip(10) =~= events_bytes(events.push(event)));
}

/// A batch can be written exactly where it has at most a million events, each packet can be
/// written, and its bytes are at most 64 MiB.
pub proof fn law_batches_that_can_be_written(events: Seq<WireEventModel>)
    ensures
        batch_fault(events) is None <==> {
            &&& events.len() <= 1_000_000
            &&& forall|i: int|
                0 <= i < events.len() ==> (#[trigger] events[i]).packet.fault() is None
            &&& batch_bytes(events).len() <= 0x400_0000
        },
{
    lemma_first_fault_of_some(events);
}

proof fn lemma_first_fault_of_some(events: Seq<WireEventModel>)
    ensures
        first_fault(events) is None <==> (forall|i: int|
            0 <= i < events.len() ==> (#[trigger] events[i]).packet.fault() is None),
    decreases events.len(),
{
    if events.len() > 0 {
        let shorter = events.drop_last();
        lemma_first_fault_of_some(shorter);
        assert(forall|i: int| 0 <= i < shorter.len() ==> #[trigger] shorter[i] == events[i]);
        assert(events.last() == events[events.len() - 1]);
        if first_fault(events) is None {
            assert forall|i: int| 0 <= i < events.len() implies (
            #[trigger] events[i]).packet.fault() is None by {
                if i < shorter.len() {
                    assert(shorter[i] == events[i]);
                }
            }
        }
    }
}

/// The fault of a batch with few enough events is the one of the first packet that cannot be
/// written.
pub proof fn law_first_packet_at_fault_is_named(events: Seq<WireEventModel>, i: int)
    requires
        events.len() <= 1_000_000,
        0 <= i < events.len(),
        events[i].packet.fault() is Some,
        forall|j: int| 0 <= j < i ==> (#[trigger] events[j]).packet.fault() is None,
    ensures
        batch_fault(events) == events[i].packet.fault(),
{
    lemma_first_fault_is_first(events, i);
}

proof fn lemma_first_fault_is_first(events: Seq<WireEventModel>, i: int)
    requires
        0 <= i < events.len(),
        events[i].packet.fault() is Some,
        forall|j: int| 0 <= j < i ==> (#[trigger] events[j]).packet.fault() is None,
    ensures
        first_fault(events) == events[i].packet.fault(),
    decreases events.len(),
{
    let shorter = events.drop_last();
    if i < shorter.len() {
        lemma_first_fault_is_first(shorter, i);
    } else {
        lemma_first_fault_of_some(shorter);
        assert(forall|j: int| 0 <= j < shorter.len() ==> #[trigger] shorter[j] == events[j]);
    }
}

/// The events of a list go in the order of the list, each in its own wire fields.
pub proof fn law_events_keep_their_order_on_the_wire(events: Seq<EventModel>)
    ensures
        all_on_wire(events).len() == events.len(),
        forall|i: int|
            #![trigger events[i]]
            0 <= i < events.len() ==> all_on_wire(events)[i].deliver_time
                == events[i].deliver_time.0 && all_on_wire(events)[i].src_host_id
                == events[i].src_host_id.0 && all_on_wire(events)[i].src_host_event_id
                == events[i].src_host_event_id && all_on_wire(events)[i].dst_host_id
                == events[i].dst_host_id.0 && all_on_wire(events)[i].packet == events[i].packet,
{
}

/// What the fields of events hold stands in the order of the events.
pub proof fn law_wire_models_stand_in_the_order_of_events(
    events: Seq<WireRemotePacketEvent>,
    i: int,
)
    requires
        0 <= i < events.len(),
    ensures
        wire_models(events).len() == events.len(),
        wire_models(events)[i].deliver_time == events[i].deliver_time,
        wire_models(events)[i].src_host_id == events[i].src_host_id,
        wire_models(events)[i].src_host_event_id == events[i].src_host_event_id,
        wire_models(events)[i].dst_host_id == events[i].dst_host_id,
        wire_models(events)[i].packet == events[i].packet@,
{
}

/// Events are read off their wire fields exactly where no delivery time is the highest number, and
/// then stand in the order of the fields.
pub proof fn law_events_keep_their_order_off_the_wire(wire: Seq<WireEventModel>)
    ensures
        all_off_wire(wire) is Ok <==> (forall|i: int|
            0 <= i < wire.len() ==> (#[trigger] wire[i]).deliver_time != 0xffff_ffff_ffff_ffff),
        all_off_wire(wire) matches Ok(events) ==> events.len() == wire.len() && (forall|i: int|
            #![trigger wire[i]]
            0 <= i < wire.len() ==> events[i].deliver_time.0 == wire[i].deliver_time
                && events[i].src_host_id.0 == wire[i].src_host_id && events[i].src_host_event_id
                == wire[i].src_host_event_id && events[i].dst_host_id.0 == wire[i].dst_host_id
                && events[i].packet == wire[i].packet),
    decreases wire.len(),
{
    if wire.len() > 0 {
        let shorter = wire.drop_last();
        let last = wire.len() - 1;
        law_events_keep_their_order_off_the_wire(shorter);
        assert(wire.last() == wire[last]);
        assert(forall|i: int| 0 <= i < last ==> #[trigger] shorter[i] == wire[i]);
        if all_off_wire(wire) is Ok {
            assert forall|i: int| 0 <= i < wire.len() implies (#[trigger] wire[i]).deliver_time
                != 0xffff_ffff_ffff_ffff by {
                if i < last {
                    assert(shorter[i] == wire[i]);
                }
            }
            let events = all_off_wire(wire)->Ok_0;
            assert forall|i: int|
                #![trigger wire[i]]
                0 <= i < wire.len() implies events[i].deliver_time.0 == wire[i].deliver_time
                && events[i].src_host_id.0 == wire[i].src_host_id && events[i].src_host_event_id
                == wire[i].src_host_event_id && events[i].dst_host_id.0 == wire[i].dst_host_id
                && events[i].packet == wire[i].packet by {
                if i < last {
                    assert(shorter[i] == wire[i]);
                }
            }
        }
    }
}

/// Too many events are what is said of a batch first, then a packet that cannot be written, then
/// its size.
pub proof fn law_what_is_said_of_batches(events: Seq<WireEventModel>)
    ensures
        events.len() > 1_000_000 ==> batch_fault(events) == Some(
            "remote packet batch has "@ + decimal(events.len()) + " events, exceeding limit "@
                + decimal(1_000_000),
        ),
        events.len() <= 1_000_000 && (forall|i: int|
            0 <= i < events.len() ==> (#[trigger] events[i]).packet.fault() is None)
            && batch_bytes(events).len() > 0x400_0000 ==> batch_fault(events) == Some(
            "remote packet batch is too large: "@ + decimal(batch_bytes(events).len())
                + " bytes exceeds "@ + decimal(0x400_0000),
        ),
{
    lemma_first_fault_of_some(events);
}

/// Bytes for a shard that are more than 64 MiB are refused unread.
pub proof fn law_oversized_batches_are_refused(payload: Seq<u8>, shard: ShardId)
    requires
        payload.len() > 0x400_0000,
    ensures
        received_batch(payload, shard) == Err::<Seq<EventModel>, ExchangeFailure>(
            ExchangeFailure::Backend(
                "IPC packet batch for shard "@ + shard.shown() + " is too large: "@ + decimal(
                    payload.len(),
                ) + " bytes exceeds "@ + decimal(0x400_0000),
            ),
        ),
{
}

} // verus!
