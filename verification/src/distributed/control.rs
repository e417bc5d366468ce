//! The control protocol: in every round each shard sends a request, and when all have come in, each
//! is sent the same response. Requests may report the shard's next event; the response then holds
//! the earliest report.

use std::collections::HashSet;

use vstd::prelude::*;
use vstd::std_specs::hash::group_hash_axioms;
use vstd::string::*;

use crate::bytes::{be_bytes, lemma_be_bytes_len, lemma_join_assoc, push_all, push_be};
use crate::distributed::error::{
    ExchangeFailure, RemotePacketExchangeError, decode_failure,
};
use crate::distributed::wire::{
    Reader, WIRE_KIND_CONTROL_REQUEST, WIRE_KIND_CONTROL_RESPONSE, decode_wire_message,
    encode_wire_message, lemma_optional_u64_bijection, lemma_u32_bijection,
    lemma_u64_bijection, message_body, message_bytes, optional_u64_bytes, take_optional_u64,
    take_u32, take_u64, trailing_bytes, write_optional_u64, write_u32, write_u64,
};
use crate::ids::ShardId;
use crate::sorting::is_arrangement;
use crate::text::{begins_with, decimal, has_text, push_decimal, text_contains};
use crate::time::EmulatedTime;

verus! {

/// The longest control message.
pub const MAX_CONTROL_MESSAGE_BYTES: usize = 1024;

/// Messages with a body of their own.
pub trait BinaryWire: Sized {
    /// The number that tells the message from others.
    spec fn wire_kind() -> u8;

    /// The body of the message.
    spec fn body(&self) -> Seq<u8>;

    /// The message that a body stands for, or why it stands for none.
    spec fn parse(body: Seq<u8>) -> Result<Self, Seq<char>>;

    /// The number that tells the message from others.
    fn kind() -> (kind: u8)
        ensures
            kind == Self::wire_kind(),
    ;

    /// The body of the message.
    fn encode(&self) -> (body: Vec<u8>)
        ensures
            body@ == self.body(),
    ;

    /// The message that a body stands for.
    fn decode(payload: &[u8], context: &str) -> (message: Result<Self, RemotePacketExchangeError>)
        ensures
            match (message, Self::parse(payload@)) {
                (Ok(m), Ok(expected)) => m == expected,
                (Err(e), Err(reason)) => e@ == decode_failure(context@, reason),
                _ => false,
            },
    ;
}

/// What a shard sends in a round.
#[derive(Clone, Copy, Debug, PartialEq, Eq, Structural)]
pub struct WireControlRequest {
    pub shard_id: u32,
    pub round: u64,
    pub min_next_event_time: Option<u64>,
}

/// What every shard is sent when a round is complete.
#[derive(Clone, Copy, Debug, PartialEq, Eq, Structural)]
pub struct WireControlResponse {
    pub min_next_event_time: Option<u64>,
}

impl BinaryWire for WireControlRequest {
    open spec fn wire_kind() -> u8 {
        WIRE_KIND_CONTROL_REQUEST
    }

    open spec fn body(&self) -> Seq<u8> {
        be_bytes(self.shard_id as nat, 4) + be_bytes(self.round as nat, 8) + optional_u64_bytes(
            self.min_next_event_time,
        )
    }

    open spec fn parse(body: Seq<u8>) -> Result<Self, Seq<char>> {
        match take_u32(body) {
            Err(reason) => Err(reason),
            Ok((shard_id, a)) => match take_u64(a) {
                Err(reason) => Err(reason),
                Ok((round, b)) => match take_optional_u64(b) {
                    Err(reason) => Err(reason),
                    Ok((min_next_event_time, rest)) => if rest.len() != 0 {
                        Err(trailing_bytes(rest.len()))
                    } else {
                        Ok(WireControlRequest { shard_id, round, min_next_event_time })
                    },
                },
            },
        }
    }

    fn kind() -> (kind: u8) {
        WIRE_KIND_CONTROL_REQUEST
    }

    fn encode(&self) -> (body: Vec<u8>) {
        let mut out: Vec<u8> = Vec::new();
        write_u32(&mut out, self.shard_id);
        write_u64(&mut out, self.round);
        write_optional_u64(&mut out, self.min_next_event_time);
        assert(out@ =~= self.body());
        out
    }

    fn decode(payload: &[u8], context: &str) -> (message: Result<Self, RemotePacketExchangeError>) {
        let mut reader = Reader::new(payload);
        let shard_id: u32 = reader.read_u32(context)?;
        let round: u64 = reader.read_u64(context)?;
        let min_next_event_time = reader.read_optional_u64(context)?;
        reader.reject_trailing_bytes(context)?;
        Ok(WireControlRequest { shard_id, round, min_next_event_time })
    }
}

impl BinaryWire for WireControlResponse {
    open spec fn wire_kind() -> u8 {
        WIRE_KIND_CONTROL_RESPONSE
    }

    open spec fn body(&self) -> Seq<u8> {
        optional_u64_bytes(self.min_next_event_time)
    }

    open spec fn parse(body: Seq<u8>) -> Result<Self, Seq<char>> {
        match take_optional_u64(body) {
            Err(reason) => Err(reason),
            Ok((min_next_event_time, rest)) => if rest.len() != 0 {
                Err(trailing_bytes(rest.len()))
            } else {
                Ok(WireControlResponse { min_next_event_time })
            },
        }
    }

    fn kind() -> (kind: u8) {
        WIRE_KIND_CONTROL_RESPONSE
    }

    fn encode(&self) -> (body: Vec<u8>) {
        let mut out: Vec<u8> = Vec::new();
        write_optional_u64(&mut out, self.min_next_event_time);
        assert(out@ =~= self.body());
        out
    }

    fn decode(payload: &[u8], context: &str) -> (message: Result<Self, RemotePacketExchangeError>) {
        let mut reader = Reader::new(payload);
        let min_next_event_time = reader.read_optional_u64(context)?;
        reader.reject_trailing_bytes(context)?;
        Ok(WireControlResponse { min_next_event_time })
    }
}

/// A request is read back, and was read from nothing else.
pub proof fn law_request_bijection(request: WireControlRequest, body: Seq<u8>)
    ensures
        WireControlRequest::parse(request.body()) == Ok::<WireControlRequest, Seq<char>>(request),
        WireControlRequest::parse(body) == Ok::<WireControlRequest, Seq<char>>(request) ==> body
            == request.body(),
{
    let a = be_bytes(request.shard_id as nat, 4);
    let b = be_bytes(request.round as nat, 8);
    let c = optional_u64_bytes(request.min_next_event_time);
    let nothing = Seq::<u8>::empty();
    lemma_join_assoc(a, b, c);
    assert(c + nothing =~= c);
    lemma_u32_bijection(request.shard_id, b + c, body);
    lemma_u64_bijection(request.round, c, b + c);
    lemma_optional_u64_bijection(request.min_next_event_time, nothing, c);
    if WireControlRequest::parse(body) is Ok {
        let s1 = take_u32(body)->Ok_0.1;
        let s2 = take_u64(s1)->Ok_0.1;
        let s3 = take_optional_u64(s2)->Ok_0.1;
        assert(s3 =~= nothing);
        lemma_u64_bijection(request.round, c, s1);
        lemma_optional_u64_bijection(request.min_next_event_time, nothing, s2);
    }
}

/// A response is read back, and was read from nothing else.
pub proof fn law_response_bijection(response: WireControlResponse, body: Seq<u8>)
    ensures
        WireControlResponse::parse(response.body()) == Ok::<WireControlResponse, Seq<char>>(
            response,
        ),
        WireControlResponse::parse(body) == Ok::<WireControlResponse, Seq<char>>(response) ==> body
            == response.body(),
{
    let nothing = Seq::<u8>::empty();
    assert(response.body() + nothing =~= response.body());
    lemma_optional_u64_bijection(response.min_next_event_time, nothing, body);
    if take_optional_u64(body) is Ok && take_optional_u64(body)->Ok_0.1.len() == 0 {
        assert(take_optional_u64(body)->Ok_0.1 =~= nothing);
    }
}

/// A control message as it is sent: its length, then the message.
pub open spec fn control_frame_bytes<T: BinaryWire>(message: T) -> Seq<u8> {
    let payload = message_bytes(T::wire_kind(), message.body());
    be_bytes(payload.len(), 4) + payload
}

/// A control message as it is sent, if four bytes can hold its length.
pub fn control_frame<T: BinaryWire>(message: &T) -> (frame: Result<
    Vec<u8>,
    RemotePacketExchangeError,
>)
    ensures
        match frame {
            Ok(bytes) => message_bytes(T::wire_kind(), message.body()).len() <= u32::MAX && bytes@
                == control_frame_bytes(*message),
            Err(e) => message_bytes(T::wire_kind(), message.body()).len() > u32::MAX && e@
                == ExchangeFailure::Backend(
                "distributed control message is too large: "@ + decimal(
                    message_bytes(T::wire_kind(), message.body()).len(),
                ) + " bytes"@,
            ),
        },
{
    let body = message.encode();
    let payload = encode_wire_message(T::kind(), &body);
    if payload.len() > u32::MAX as usize {
        let mut text = String::new();
        text.append("distributed control message is too large: ");
        push_decimal(&mut text, payload.len() as u64);
        text.append(" bytes");
        assert(text@ =~= "distributed control message is too large: "@ + decimal(
            message_bytes(T::wire_kind(), message.body()).len(),
        ) + " bytes"@);
        return Err(RemotePacketExchangeError::Backend(text));
    }
    let mut frame: Vec<u8> = Vec::new();
    push_be(&mut frame, payload.len() as u64, 4);
    push_all(&mut frame, &payload);
    assert(frame@ =~= control_frame_bytes(*message));
    Ok(frame)
}

/// How a control message is called in messages about it.
pub open spec fn control_context(message_kind: Seq<char>) -> Seq<char> {
    "distributed control "@ + message_kind
}

/// The number of bytes to read behind the length of a control message.
pub fn accept_control_len(len: u32, message_kind: &str) -> (bytes: Result<
    usize,
    RemotePacketExchangeError,
>)
    ensures
        match bytes {
            Ok(n) => len <= MAX_CONTROL_MESSAGE_BYTES && n == len,
            Err(e) => len > MAX_CONTROL_MESSAGE_BYTES && e@ == ExchangeFailure::Backend(
                control_context(message_kind@) + " is too large: "@ + decimal(len as nat)
                    + " bytes exceeds "@ + decimal(MAX_CONTROL_MESSAGE_BYTES as nat),
            ),
        },
        bytes is Ok <==> len <= 1024,
{
    if len as usize > MAX_CONTROL_MESSAGE_BYTES {
        let mut text = String::new();
        text.append("distributed control ");
        text.append(message_kind);
        text.append(" is too large: ");
        push_decimal(&mut text, len as u64);
        text.append(" bytes exceeds ");
        push_decimal(&mut text, MAX_CONTROL_MESSAGE_BYTES as u64);
        assert(text@ =~= control_context(message_kind@) + " is too large: "@ + decimal(len as nat)
            + " bytes exceeds "@ + decimal(MAX_CONTROL_MESSAGE_BYTES as nat));
        return Err(RemotePacketExchangeError::Backend(text));
    }
    Ok(len as usize)
}

/// The control message that bytes stand for, or why they stand for none.
pub open spec fn parse_control<T: BinaryWire>(payload: Seq<u8>) -> Result<T, Seq<char>> {
    match message_body(payload, T::wire_kind()) {
        Err(reason) => Err(reason),
        Ok(body) => T::parse(body),
    }
}

/// The control message that bytes stand for.
pub fn decode_control_message<T: BinaryWire>(payload: &[u8], message_kind: &str) -> (message:
    Result<T, RemotePacketExchangeError>)
    ensures
        match (message, parse_control::<T>(payload@)) {
            (Ok(m), Ok(expected)) => m == expected,
            (Err(e), Err(reason)) => e@ == decode_failure(control_context(message_kind@), reason),
            _ => false,
        },
{
    let mut context = String::new();
    context.append("distributed control ");
    context.append(message_kind);
    assert(context@ =~= control_context(message_kind@));
    let body = decode_wire_message(payload, T::kind(), context.as_str())?;
    T::decode(&body, context.as_str())
}

/// What is said where the other side went away.
pub open spec fn channel_closed_text() -> Seq<char> {
    "distributed control channel closed"@
}

/// The failure where the other side went away.
pub fn channel_closed_error() -> (error: RemotePacketExchangeError)
    ensures
        error@ == ExchangeFailure::Backend(channel_closed_text()),
{
    RemotePacketExchangeError::Backend("distributed control channel closed".to_owned())
}

/// Whether a failure to read means that the other side went away.
pub open spec fn means_closed(failure: ExchangeFailure) -> bool {
    match failure {
        ExchangeFailure::Backend(text) => has_text(text, "control channel closed"@),
        ExchangeFailure::Delivery(_) => false,
    }
}

/// Whether a failure to read means that the other side went away.
pub fn is_channel_closed(error: &RemotePacketExchangeError) -> (closed: bool)
    ensures
        closed == means_closed(error@),
{
    match error {
        RemotePacketExchangeError::Backend(text) => text_contains(
            text.as_str(),
            "control channel closed",
        ),
        RemotePacketExchangeError::Delivery(_) => false,
    }
}

/// The failure that is reported where the other side went away means just that.
pub proof fn law_closed_channel_is_recognized()
    ensures
        means_closed(ExchangeFailure::Backend(channel_closed_text())),
{
    reveal_strlit("distributed control channel closed");
    reveal_strlit("control channel closed");
    let text = "distributed control channel closed"@;
    let needle = "control channel closed"@;
    assert(text.skip(12).take(needle.len() as int) =~= needle);
    assert(crate::text::begins_with(text.skip(12), needle));
}

/// What is said to the last request of a list whose other requests are in order, if it is not.
pub open spec fn last_request_fault(
    requests: Seq<WireControlRequest>,
    expected_round: u64,
    shard_count: u32,
) -> Option<Seq<char>> {
    let request = requests.last();
    if request.round != expected_round {
        Some(
            "distributed control expected round "@ + decimal(expected_round as nat)
                + ", got round "@ + decimal(request.round as nat) + " from shard "@ + decimal(
                request.shard_id as nat,
            ),
        )
    } else if request.shard_id >= shard_count {
        Some(
            "distributed control got invalid shard id "@ + decimal(request.shard_id as nat)
                + " for shard count "@ + decimal(shard_count as nat),
        )
    } else if exists|i: int|
        0 <= i < requests.len() - 1 && (#[trigger] requests[i]).shard_id == request.shard_id {
        Some(
            "distributed control got duplicate request from shard "@ + decimal(
                request.shard_id as nat,
            ) + " in round "@ + decimal(expected_round as nat),
        )
    } else {
        None
    }
}

/// What is said to the first request that is not in order, if there is one.
pub open spec fn round_fault(
    requests: Seq<WireControlRequest>,
    expected_round: u64,
    shard_count: u32,
) -> Option<Seq<char>>
    decreases requests.len(),
{
    if requests.len() == 0 {
        None
    } else {
        match round_fault(requests.drop_last(), expected_round, shard_count) {
            Some(text) => Some(text),
            None => last_request_fault(requests, expected_round, shard_count),
        }
    }
}

/// The lesser of two numbers, where an absent one does not count.
pub open spec fn lesser(a: Option<u64>, b: Option<u64>) -> Option<u64> {
    match (a, b) {
        (Some(x), Some(y)) => if y < x {
            Some(y)
        } else {
            Some(x)
        },
        (Some(x), None) => Some(x),
        (None, _) => b,
    }
}

/// The least of the reported times, if any is reported.
pub open spec fn least_report(requests: Seq<WireControlRequest>) -> Option<u64>
    decreases requests.len(),
{
    if requests.len() == 0 {
        None
    } else {
        lesser(least_report(requests.drop_last()), requests.last().min_next_event_time)
    }
}

fn round_error(expected_round: u64, request: WireControlRequest) -> (error:
    RemotePacketExchangeError)
    ensures
        error@ == ExchangeFailure::Backend(
            "distributed control expected round "@ + decimal(expected_round as nat)
                + ", got round "@ + decimal(request.round as nat) + " from shard "@ + decimal(
                request.shard_id as nat,
            ),
        ),
{
    let mut text = String::new();
    text.append("distributed control expected round ");
    push_decimal(&mut text, expected_round);
    text.append(", got round ");
    push_decimal(&mut text, request.round);
    text.append(" from shard ");
    push_decimal(&mut text, request.shard_id as u64);
    assert(text@ =~= "distributed control expected round "@ + decimal(expected_round as nat)
        + ", got round "@ + decimal(request.round as nat) + " from shard "@ + decimal(
        request.shard_id as nat,
    ));
    RemotePacketExchangeError::Backend(text)
}

fn shard_error(shard_id: u32, shard_count: u32) -> (error: RemotePacketExchangeError)
    ensures
        error@ == ExchangeFailure::Backend(
            "distributed control got invalid shard id "@ + decimal(shard_id as nat)
                + " for shard count "@ + decimal(shard_count as nat),
        ),
{
    let mut text = String::new();
    text.append("distributed control got invalid shard id ");
    push_decimal(&mut text, shard_id as u64);
    text.append(" for shard count ");
    push_decimal(&mut text, shard_count as u64);
    assert(text@ =~= "distributed control got invalid shard id "@ + decimal(shard_id as nat)
        + " for shard count "@ + decimal(shard_count as nat));
    RemotePacketExchangeError::Backend(text)
}

fn duplicate_error(shard_id: u32, expected_round: u64) -> (error: RemotePacketExchangeError)
    ensures
        error@ == ExchangeFailure::Backend(
            "distributed control got duplicate request from shard "@ + decimal(shard_id as nat)
                + " in round "@ + decimal(expected_round as nat),
        ),
{
    let mut text = String::new();
    text.append("distributed control got duplicate request from shard ");
    push_decimal(&mut text, shard_id as u64);
    text.append(" in round ");
    push_decimal(&mut text, expected_round);
    assert(text@ =~= "distributed control got duplicate request from shard "@ + decimal(
        shard_id as nat,
    ) + " in round "@ + decimal(expected_round as nat));
    RemotePacketExchangeError::Backend(text)
}

proof fn lemma_round_fault_of_prefix(
    requests: Seq<WireControlRequest>,
    expected_round: u64,
    shard_count: u32,
    n: int,
)
    requires
        0 <= n <= requests.len(),
        round_fault(requests.take(n), expected_round, shard_count) is Some,
    ensures
        round_fault(requests, expected_round, shard_count) == round_fault(
            requests.take(n),
            expected_round,
            shard_count,
        ),
    decreases requests.len() - n,
{
    if n < requests.len() {
        assert(requests.take(n + 1).drop_last() =~= requests.take(n));
        lemma_round_fault_of_prefix(requests, expected_round, shard_count, n + 1);
    } else {
        assert(requests.take(n) =~= requests);
    }
}

/// The response to the requests of a round, if they are in order: each is for the expected round,
/// and each comes from another shard below the shard count.
pub fn control_response_for_round(
    requests: &[WireControlRequest],
    expected_round: u64,
    shard_count: u32,
) -> (response: Result<WireControlResponse, RemotePacketExchangeError>)
    ensures
        match (response, round_fault(requests@, expected_round, shard_count)) {
            (Ok(r), None) => r.min_next_event_time == least_report(requests@),
            (Err(e), Some(text)) => e@ == ExchangeFailure::Backend(text),
            _ => false,
        },
{
    broadcast use group_hash_axioms;

    let mut seen_shards: HashSet<u32> = HashSet::new();
    let mut min_next_event_time: Option<u64> = None;
    let mut i: usize = 0;
    while i < requests.len()
        invariant
            i <= requests@.len(),
            round_fault(requests@.take(i as int), expected_round, shard_count) is None,
            forall|shard: u32| #[trigger]
                seen_shards@.contains(shard) <==> exists|j: int|
                    0 <= j < i && (#[trigger] requests@[j]).shard_id == shard,
            min_next_event_time == least_report(requests@.take(i as int)),
        decreases requests@.len() - i,
    {
        let request = requests[i];
        let ghost before = requests@.take(i as int);
        let ghost upto = requests@.take(i + 1);
        proof {
            assert(upto.drop_last() =~= before);
            assert(upto.last() == request);
            assert(round_fault(upto, expected_round, shard_count) == last_request_fault(
                upto,
                expected_round,
                shard_count,
            ));
            if round_fault(upto, expected_round, shard_count) is Some {
                lemma_round_fault_of_prefix(requests@, expected_round, shard_count, i + 1);
            }
        }
        if request.round != expected_round {
            return Err(round_error(expected_round, request));
        }
        if request.shard_id >= shard_count {
            return Err(shard_error(request.shard_id, shard_count));
        }
        let ghost seen = seen_shards@;
        if !seen_shards.insert(request.shard_id) {
            proof {
                assert(seen.contains(request.shard_id));
                let j = choose|j: int|
                    0 <= j < i && (#[trigger] requests@[j]).shard_id == request.shard_id;
                assert(upto[j].shard_id == request.shard_id);
            }
            return Err(duplicate_error(request.shard_id, expected_round));
        }
        proof {
            assert(!seen.contains(request.shard_id));
            if exists|j: int|
                0 <= j < upto.len() - 1 && (#[trigger] upto[j]).shard_id == request.shard_id {
                let j = choose|j: int|
                    0 <= j < upto.len() - 1 && (#[trigger] upto[j]).shard_id == request.shard_id;
                assert(requests@[j].shard_id == request.shard_id);
                assert(seen.contains(request.shard_id));
            }
            assert forall|shard: u32| #[trigger]
                seen_shards@.contains(shard) <==> exists|j: int|
                    0 <= j < i + 1 && (#[trigger] requests@[j]).shard_id == shard by {
                if shard == request.shard_id {
                    assert(requests@[i as int].shard_id == shard);
                } else if exists|j: int|
                    0 <= j < i + 1 && (#[trigger] requests@[j]).shard_id == shard {
                    let j = choose|j: int|
                        0 <= j < i + 1 && (#[trigger] requests@[j]).shard_id == shard;
                    assert(j < i);
                    assert(seen.contains(shard));
                }
            }
        }
        min_next_event_time = match (min_next_event_time, request.min_next_event_time) {
            (Some(x), Some(y)) => if y < x {
                Some(y)
            } else {
                Some(x)
            },
            (Some(x), None) => Some(x),
            (None, other) => other,
        };
        i += 1;
    }
    assert(requests@.take(i as int) =~= requests@);
    Ok(WireControlResponse { min_next_event_time })
}

/// No report is below the least report, and some request reported it.
pub proof fn law_least_report_is_least(requests: Seq<WireControlRequest>, i: int)
    requires
        0 <= i < requests.len(),
    ensures
        requests[i].min_next_event_time matches Some(t) ==> least_report(requests) matches Some(m)
            && m <= t,
        least_report(requests) matches Some(m) ==> exists|k: int|
            0 <= k < requests.len() && (#[trigger] requests[k]).min_next_event_time == Some(m),
    decreases requests.len(),
{
    let shorter = requests.drop_last();
    if i < shorter.len() {
        law_least_report_is_least(shorter, i);
        assert(shorter[i] == requests[i]);
    }
    if let Some(m) = least_report(requests) {
        if least_report(shorter) == Some(m) {
            assert(shorter.len() > 0);
            law_least_report_is_least(shorter, 0);
            let k = choose|k: int|
                0 <= k < shorter.len() && (#[trigger] shorter[k]).min_next_event_time == Some(m);
            assert(requests[k].min_next_event_time == Some(m));
        } else {
            assert(requests[requests.len() - 1].min_next_event_time == Some(m));
        }
    }
}

/// The least report does not depend on the order in which the requests come in.
pub proof fn law_least_report_ignores_order(
    requests: Seq<WireControlRequest>,
    order: Seq<int>,
    other: Seq<WireControlRequest>,
)
    requires
        is_arrangement(order, requests.len()),
        other.len() == requests.len(),
        forall|i: int| 0 <= i < other.len() ==> #[trigger] other[i] == requests[order[i]],
    ensures
        least_report(other) == least_report(requests),
{
    if requests.len() > 0 {
        law_least_report_is_least(requests, 0);
        law_least_report_is_least(other, 0);
        if let Some(m) = least_report(requests) {
            let k = choose|k: int|
                0 <= k < requests.len() && (#[trigger] requests[k]).min_next_event_time == Some(m);
            assert(order.contains(k));
            let i = choose|i: int| 0 <= i < order.len() && order[i] == k;
            assert(other[i].min_next_event_time == Some(m));
            law_least_report_is_least(other, i);
        }
        if let Some(n) = least_report(other) {
            let k = choose|k: int|
                0 <= k < other.len() && (#[trigger] other[k]).min_next_event_time == Some(n);
            assert(other[k] == requests[order[k]]);
            law_least_report_is_least(requests, order[k]);
        }
    }
}

/// In a round that is in order every request is for the round and comes from another shard below
/// the shard count.
pub proof fn law_round_in_order(
    requests: Seq<WireControlRequest>,
    expected_round: u64,
    shard_count: u32,
)
    ensures
        round_fault(requests, expected_round, shard_count) is None <==> {
            &&& forall|i: int|
                0 <= i < requests.len() ==> (#[trigger] requests[i]).round == expected_round
                    && requests[i].shard_id < shard_count
            &&& forall|i: int, j: int|
                0 <= i < j < requests.len() ==> (#[trigger] requests[i]).shard_id != (
                #[trigger] requests[j]).shard_id
        },
    decreases requests.len(),
{
    if requests.len() > 0 {
        let shorter = requests.drop_last();
        let last = requests.len() - 1;
        law_round_in_order(shorter, expected_round, shard_count);
        assert(forall|i: int| 0 <= i < last ==> shorter[i] == requests[i]);
        assert(requests.last() == requests[last]);
        if round_fault(requests, expected_round, shard_count) is None {
            assert forall|i: int| 0 <= i < requests.len() implies (#[trigger] requests[i]).round
                == expected_round && requests[i].shard_id < shard_count by {
                if i < last {
                    assert(shorter[i].round == expected_round);
                }
            }
            assert forall|i: int, j: int| 0 <= i < j < requests.len() implies (
            #[trigger] requests[i]).shard_id != (#[trigger] requests[j]).shard_id by {
                if j < last {
                    assert(shorter[i].shard_id != shorter[j].shard_id);
                }
            }
        } else if round_fault(shorter, expected_round, shard_count) is None {
            if requests[last].round == expected_round && requests[last].shard_id < shard_count {
                let i = choose|i: int|
                    0 <= i < requests.len() - 1 && (#[trigger] requests[i]).shard_id
                        == requests.last().shard_id;
                assert(requests[i].shard_id == requests[last].shard_id);
            }
        } else {
            if forall|i: int|
                0 <= i < requests.len() ==> (#[trigger] requests[i]).round == expected_round
                    && requests[i].shard_id < shard_count {
                assert forall|i: int| 0 <= i < shorter.len() implies (#[trigger] shorter[i]).round
                    == expected_round && shorter[i].shard_id < shard_count by {
                    assert(requests[i].round == expected_round);
                }
                let (i, j) = choose|i: int, j: int|
                    0 <= i < j < shorter.len() && (#[trigger] shorter[i]).shard_id == (
                    #[trigger] shorter[j]).shard_id;
                assert(requests[i].shard_id == requests[j].shard_id);
            }
        }
    }
}

/// What comes in at the control server from the connection that it reads.
#[derive(Debug)]
pub enum ControlInput {
    Request(WireControlRequest),
    Failure(RemotePacketExchangeError),
}

/// What the control server does next.
#[derive(Debug)]
pub enum ControlAction {
    /// Read a request from a connection; connections are numbered in the order of their arrival.
    Read { connection: usize },
    /// Send a response over every connection, then read from the first.
    Respond(WireControlResponse),
    /// Stop; a shard went away.
    Stop,
    /// Stop, and report a failure.
    Fail(RemotePacketExchangeError),
}

/// The control server between two reads.
#[derive(Debug)]
pub struct ControlServerState {
    shard_count: u32,
    expected_round: u64,
    requests: Vec<WireControlRequest>,
}

impl ControlServerState {
    /// How many shards take part.
    pub closed spec fn shards(&self) -> u32 {
        self.shard_count
    }

    /// The number of the current round.
    pub closed spec fn round(&self) -> u64 {
        self.expected_round
    }

    /// The requests of the current round that came in so far.
    pub closed spec fn collected(&self) -> Seq<WireControlRequest> {
        self.requests@
    }

    /// The current round is not complete.
    pub open spec fn wf(&self) -> bool {
        self.collected().len() < self.shards()
    }

    /// The server before the first round, for as many connections as there are shards.
    pub fn new(shard_count: u32) -> (state: Self)
        requires
            shard_count > 0,
        ensures
            state.wf(),
            state.shards() == shard_count,
            state.round() == 0,
            state.collected() == Seq::<WireControlRequest>::empty(),
    {
        ControlServerState { shard_count, expected_round: 0, requests: Vec::new() }
    }

    /// Takes in what came over the connection that was to be read.
    pub fn receive(&mut self, input: ControlInput) -> (action: ControlAction)
        requires
            old(self).wf(),
            old(self).round() < u64::MAX,
        ensures
            final(self).shards() == old(self).shards(),
            match input {
                ControlInput::Failure(e) => {
                    &&& *final(self) == *old(self)
                    &&& if means_closed(e@) {
                        action is Stop
                    } else {
                        action matches ControlAction::Fail(f) && f == e
                    }
                },
                ControlInput::Request(request) => {
                    let requests = old(self).collected().push(request);
                    if requests.len() < old(self).shards() {
                        &&& action matches ControlAction::Read { connection }
                        &&& connection == requests.len()
                        &&& final(self).round() == old(self).round()
                        &&& final(self).collected() == requests
                        &&& final(self).wf()
                    } else {
                        match round_fault(requests, old(self).round(), old(self).shards()) {
                            Some(text) => {
                                &&& action matches ControlAction::Fail(e)
                                &&& e@ == ExchangeFailure::Backend(text)
                                &&& final(self).round() == old(self).round()
                                &&& final(self).collected() == requests
                            },
                            None => {
                                &&& action matches ControlAction::Respond(response)
                                &&& response.min_next_event_time == least_report(requests)
                                &&& final(self).round() == old(self).round() + 1
                                &&& final(self).collected() == Seq::<WireControlRequest>::empty()
                                &&& final(self).wf()
                            },
                        }
                    }
                },
            },
    {
        match input {
            ControlInput::Failure(e) => {
                if is_channel_closed(&e) {
                    ControlAction::Stop
                } else {
                    ControlAction::Fail(e)
                }
            },
            ControlInput::Request(request) => {
                self.requests.push(request);
                if self.requests.len() < self.shard_count as usize {
                    return ControlAction::Read { connection: self.requests.len() };
                }
                match control_response_for_round(
                    &self.requests,
                    self.expected_round,
                    self.shard_count,
                ) {
                    Err(e) => ControlAction::Fail(e),
                    Ok(response) => {
                        self.expected_round = self.expected_round + 1;
                        self.requests = Vec::new();
                        ControlAction::Respond(response)
                    },
                }
            },
        }
    }
}

/// The side of one shard.
#[derive(Debug)]
pub struct ControlClientState {
    pub current_shard: ShardId,
    pub next_round: u64,
}

/// What is said to a response without a time.
pub open spec fn missing_time_text() -> Seq<char> {
    "distributed control response did not include a global minimum next-event time"@
}

/// The time that a response gives, or what is said to one that gives none.
pub open spec fn global_time(response: WireControlResponse) -> Result<EmulatedTime, Seq<char>> {
    match response.min_next_event_time {
        None => Err(missing_time_text()),
        Some(value) => match EmulatedTime::instant(value) {
            None => Err(
                "invalid emulated time "@ + decimal(value as nat)
                    + " in distributed control response"@,
            ),
            Some(time) => Ok(time),
        },
    }
}

impl ControlClientState {
    /// A shard before the first round.
    pub fn new(current_shard: ShardId) -> (state: Self)
        ensures
            state.current_shard == current_shard,
            state.next_round == 0,
    {
        ControlClientState { current_shard, next_round: 0 }
    }

    /// The request of the next round. `min_next_event_time` is the shard's next event, where it is
    /// to be reported.
    pub fn begin_round(&mut self, min_next_event_time: Option<EmulatedTime>) -> (request:
        WireControlRequest)
        requires
            old(self).next_round < u64::MAX,
        ensures
            request.shard_id == old(self).current_shard.0,
            request.round == old(self).next_round,
            request.min_next_event_time == (match min_next_event_time {
                Some(time) => Some(EmulatedTime::number(Some(time))),
                None => None,
            }),
            final(self).next_round == old(self).next_round + 1,
            final(self).current_shard == old(self).current_shard,
    {
        let round: u64 = self.next_round;
        self.next_round = round + 1;
        let reported = match min_next_event_time {
            Some(time) => Some(EmulatedTime::to_c_emutime(Some(time))),
            None => None,
        };
        WireControlRequest {
            shard_id: self.current_shard.0,
            round,
            min_next_event_time: reported,
        }
    }

    /// The earliest next event of all shards, as a response gives it.
    pub fn global_min_next_event(response: &WireControlResponse) -> (time: Result<
        EmulatedTime,
        RemotePacketExchangeError,
    >)
        ensures
            match (time, global_time(*response)) {
                (Ok(t), Ok(expected)) => t == expected && t.valid(),
                (Err(e), Err(text)) => e@ == ExchangeFailure::Backend(text),
                _ => false,
            },
    {
        match response.min_next_event_time {
            None => Err(
                RemotePacketExchangeError::Backend(
                    "distributed control response did not include a global minimum next-event time".to_owned(),
                ),
            ),
            Some(value) => match EmulatedTime::from_c_emutime(value) {
                Some(time) => Ok(time),
                None => {
                    let mut text = String::new();
                    text.append("invalid emulated time ");
                    push_decimal(&mut text, value);
                    text.append(" in distributed control response");
                    assert(text@ =~= "invalid emulated time "@ + decimal(value as nat)
                        + " in distributed control response"@);
                    Err(RemotePacketExchangeError::Backend(text))
                },
            },
        }
    }
}

/// When all shards report a next event, each is given the earliest: none is reported before it, and
/// some shard reported it.
pub proof fn law_shards_agree_on_the_earliest_event(
    requests: Seq<WireControlRequest>,
    times: Seq<EmulatedTime>,
)
    requires
        requests.len() > 0,
        times.len() == requests.len(),
        forall|i: int| 0 <= i < times.len() ==> (#[trigger] times[i]).valid(),
        forall|i: int|
            0 <= i < requests.len() ==> (#[trigger] requests[i]).min_next_event_time == Some(
                EmulatedTime::number(Some(times[i])),
            ),
    ensures
        global_time(WireControlResponse { min_next_event_time: least_report(requests) }) matches Ok(
            earliest,
        ) && times.contains(earliest) && (forall|i: int|
            0 <= i < times.len() ==> earliest.0 <= (#[trigger] times[i]).0),
{
    law_least_report_is_least(requests, 0);
    let m = least_report(requests)->0;
    let k = choose|k: int|
        0 <= k < requests.len() && (#[trigger] requests[k]).min_next_event_time == Some(m);
    assert(times[k].valid());
    assert(times[k].0 == m);
    assert(EmulatedTime(m) == times[k]);
    assert forall|i: int| 0 <= i < times.len() implies m <= (#[trigger] times[i]).0 by {
        law_least_report_is_least(requests, i);
        assert(requests[i].min_next_event_time == Some(times[i].0));
    }
}

/// A request says who reports, in which round, and the time of the next event, in this order. It
/// goes as a request message, behind its length.
pub proof fn law_request_layout(request: WireControlRequest)
    ensures
        request.body().subrange(0, 4) == be_bytes(request.shard_id as nat, 4),
        request.body().subrange(4, 12) == be_bytes(request.round as nat, 8),
        request.min_next_event_time matches Some(time) ==> request.body().len() == 21
            && request.body()[12] == 1 && request.body().subrange(13, 21) == be_bytes(
            time as nat,
            8,
        ),
        request.min_next_event_time is None ==> request.body().len() == 13 && request.body()[12]
            == 0,
        control_frame_bytes(request).take(4) == be_bytes(6 + request.body().len(), 4),
        control_frame_bytes(request).skip(4) == seq![0x53u8, 0x48, 0x44, 0x57, 1, 1]
            + request.body(),
{
    let body = request.body();
    lemma_be_bytes_len(request.shard_id as nat, 4);
    lemma_be_bytes_len(request.round as nat, 8);
    assert(body.subrange(0, 4) =~= be_bytes(request.shard_id as nat, 4));
    assert(body.subrange(4, 12) =~= be_bytes(request.round as nat, 8));
    if let Some(time) = request.min_next_event_time {
        lemma_be_bytes_len(time as nat, 8);
        assert(body.subrange(13, 21) =~= be_bytes(time as nat, 8));
    }
    lemma_frame_layout(request);
}

/// An answer holds the time of the next event, and goes as an answer message, behind its
/// length.
pub proof fn law_response_layout(response: WireControlResponse)
    ensures
        response.min_next_event_time matches Some(time) ==> response.body() == seq![1u8]
            + be_bytes(time as nat, 8),
        response.min_next_event_time is None ==> response.body() == seq![0u8],
        control_frame_bytes(response).take(4) == be_bytes(6 + response.body().len(), 4),
        control_frame_bytes(response).skip(4) == seq![0x53u8, 0x48, 0x44, 0x57, 1, 2]
            + response.body(),
{
    lemma_frame_layout(response);
}

proof fn lemma_frame_layout<T: BinaryWire>(message: T)
    ensures
        control_frame_bytes(message).take(4) == be_bytes(6 + message.body().len(), 4),
        control_frame_bytes(message).skip(4) == seq![
            0x53u8,
            0x48,
            0x44,
            0x57,
            1,
            T::wire_kind(),
        ] + message.body(),
{
    let payload = message_bytes(T::wire_kind(), message.body());
    lemma_be_bytes_len(payload.len(), 4);
    assert(payload =~= seq![0x53u8, 0x48, 0x44, 0x57, 1, T::wire_kind()] + message.body());
    assert(control_frame_bytes(message).take(4) =~= be_bytes(payload.len(), 4));
    assert(control_frame_bytes(message).skip(4) =~= payload);
}

/// A failure means that the other side went away exactly where it is one of the backend and its
/// text holds the words `control channel closed`.
pub proof fn law_failures_that_mean_closed(failure: ExchangeFailure)
    ensures
        failure is Delivery ==> !means_closed(failure),
        failure matches ExchangeFailure::Backend(text) ==> (means_closed(failure) <==> (exists|
            i: int,
        |
            0 <= i && i + 22 <= text.len() && #[trigger] text.subrange(i, i + 22)
                == "control channel closed"@)),
{
    reveal_strlit("control channel closed");
    let needle = "control channel closed"@;
    if let ExchangeFailure::Backend(text) = failure {
        if means_closed(failure) {
            let i = choose|i: int|
                0 <= i <= text.len() && #[trigger] begins_with(text.skip(i), needle);
            assert(text.subrange(i, i + 22) =~= text.skip(i).take(22));
            assert(text.subrange(i, i + 22) == needle);
        }
        if exists|i: int|
            0 <= i && i + 22 <= text.len() && #[trigger] text.subrange(i, i + 22) == needle {
            let i = choose|i: int|
                0 <= i && i + 22 <= text.len() && #[trigger] text.subrange(i, i + 22) == needle;
            assert(text.skip(i).take(22) =~= text.subrange(i, i + 22));
            assert(begins_with(text.skip(i), needle));
        }
    }
}

/// A response gives the time that it holds, unless it holds none or the highest number, which
/// stands for no instant.
pub proof fn law_response_gives_its_time(response: WireControlResponse)
    ensures
        global_time(response) is Ok <==> response.min_next_event_time is Some
            && response.min_next_event_time != Some(0xffff_ffff_ffff_ffffu64),
        global_time(response) matches Ok(time) ==> response.min_next_event_time == Some(time.0),
{
}

/// The fault of the last request of a round names what was expected in front of what came: a wrong
/// round first, then a shard that is none of the run, then a second request of one shard.
pub proof fn law_faulty_requests_are_named(
    requests: Seq<WireControlRequest>,
    request: WireControlRequest,
    expected_round: u64,
    shard_count: u32,
)
    requires
        round_fault(requests, expected_round, shard_count) is None,
    ensures
        request.round != expected_round ==> round_fault(
            requests.push(request),
            expected_round,
            shard_count,
        ) == Some(
            "distributed control expected round "@ + decimal(expected_round as nat)
                + ", got round "@ + decimal(request.round as nat) + " from shard "@ + decimal(
                request.shard_id as nat,
            ),
        ),
        request.round == expected_round && request.shard_id >= shard_count ==> round_fault(
            requests.push(request),
            expected_round,
            shard_count,
        ) == Some(
            "distributed control got invalid shard id "@ + decimal(request.shard_id as nat)
                + " for shard count "@ + decimal(shard_count as nat),
        ),
        request.round == expected_round && request.shard_id < shard_count && (exists|i: int|
            0 <= i < requests.len() && (#[trigger] requests[i]).shard_id == request.shard_id)
            ==> round_fault(requests.push(request), expected_round, shard_count) == Some(
            "distributed control got duplicate request from shard "@ + decimal(
                request.shard_id as nat,
            ) + " in round "@ + decimal(expected_round as nat),
        ),
{
    let longer = requests.push(request);
    assert(longer.drop_last() =~= requests);
    assert(longer.last() == request);
    assert(forall|i: int| 0 <= i < requests.len() ==> #[trigger] longer[i] == requests[i]);
    if exists|i: int|
        0 <= i < requests.len() && (#[trigger] requests[i]).shard_id == request.shard_id {
        let i = choose|i: int|
            0 <= i < requests.len() && (#[trigger] requests[i]).shard_id == request.shard_id;
        assert(longer[i].shard_id == request.shard_id);
    }
}

} // verus!
