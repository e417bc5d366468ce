//! How shards agree on barriers and on the earliest next event.

use vstd::prelude::*;
use vstd::string::*;

use crate::bytes::{be_bytes, copy_range, get_be, number_at, push_be};
use crate::text::{decimal, lossy_text, lossy_utf8, push_decimal};
use crate::time::{EMUTIME_SIMULATION_START, EmulatedTime, SIMTIME_MAX};
use crate::transport::error::TransportError;

verus! {

/// The coordination of shards. All shards make the same calls in the same order.
pub trait DistributedSynchronizer {
    /// Whether a time may be reported as the next event of this shard.
    spec fn can_report(&self, local_min: EmulatedTime) -> bool;

    /// Returns when all shards have reached the call.
    fn wait(&mut self) -> Result<(), TransportError>;

    /// The earliest of the next-event times that the shards report.
    fn global_min_next_event(&mut self, local_min: EmulatedTime) -> Result<
        EmulatedTime,
        TransportError,
    >
        requires
            old(self).can_report(local_min),
    ;
}

/// The coordination of a run that is not split.
#[derive(Debug)]
pub struct SingleShardSynchronizer;

impl DistributedSynchronizer for SingleShardSynchronizer {
    open spec fn can_report(&self, local_min: EmulatedTime) -> bool {
        true
    }

    fn wait(&mut self) -> (waited: Result<(), TransportError>)
        ensures
            waited is Ok,
    {
        Ok(())
    }

    fn global_min_next_event(&mut self, local_min: EmulatedTime) -> (time: Result<
        EmulatedTime,
        TransportError,
    >)
        ensures
            time matches Ok(t) && t == local_min,
    {
        Ok(local_min)
    }
}

/// What a shard tells the coordinator.
#[derive(Clone, Copy, Debug, PartialEq, Eq, Structural)]
pub enum ControlMessage {
    Wait,
    /// The shard's next event, in nanoseconds since the start of the simulation.
    NextEventTime(u64),
}

/// The first bytes of every control message.
pub open spec fn control_magic() -> Seq<u8> {
    seq![0x53u8, 0x43u8, 0x54u8, 0x4cu8]
}

impl ControlMessage {
    /// The byte format: magic, version 1, what the message is, and its time.
    pub open spec fn bytes(self) -> Seq<u8> {
        match self {
            ControlMessage::Wait => control_magic() + seq![1u8, 0u8],
            ControlMessage::NextEventTime(nanos) => control_magic() + seq![1u8, 1u8] + be_bytes(
                nanos as nat,
                8,
            ),
        }
    }

    /// The message as bytes.
    pub fn to_bytes(&self) -> (buf: Vec<u8>)
        ensures
            buf@ == self.bytes(),
    {
        let mut buf: Vec<u8> = Vec::new();
        buf.push(0x53);
        buf.push(0x43);
        buf.push(0x54);
        buf.push(0x4c);
        buf.push(1);
        match *self {
            ControlMessage::Wait => {
                buf.push(0);
            },
            ControlMessage::NextEventTime(nanos) => {
                buf.push(1);
                push_be(&mut buf, nanos, 8);
            },
        }
        assert(buf@ =~= self.bytes());
        buf
    }

    /// The report of a next-event time.
    pub fn report(local_min: EmulatedTime) -> (message: Self)
        requires
            EMUTIME_SIMULATION_START <= local_min.0,
        ensures
            message == ControlMessage::NextEventTime(
                (local_min.0 - EMUTIME_SIMULATION_START) as u64,
            ),
    {
        ControlMessage::NextEventTime(
            local_min.duration_since(&EmulatedTime::simulation_start()).as_nanos(),
        )
    }
}

/// What the coordinator answers.
#[derive(Debug)]
pub enum ControlResponse {
    Ack,
    /// The earliest next event, in nanoseconds since the start of the simulation.
    NextEventTime(u64),
    Error(String),
}

/// What an answer holds, with its text as a sequence.
pub enum ResponseModel {
    Ack,
    NextEventTime(u64),
    Error(Seq<char>),
}

impl View for ControlResponse {
    type V = ResponseModel;

    open spec fn view(&self) -> ResponseModel {
        match *self {
            ControlResponse::Ack => ResponseModel::Ack,
            ControlResponse::NextEventTime(nanos) => ResponseModel::NextEventTime(nanos),
            ControlResponse::Error(text) => ResponseModel::Error(text@),
        }
    }
}

/// The longest answer that is read: 1 MiB.
pub const MAX_RESPONSE_BYTES: u32 = 1024 * 1024;

/// The number of bytes to read behind the length of an answer.
pub fn accept_response_len(len: u32) -> (bytes: Result<usize, TransportError>)
    ensures
        match bytes {
            Ok(n) => len <= MAX_RESPONSE_BYTES && n == len,
            Err(e) => len > MAX_RESPONSE_BYTES && e@ == "Control response too large: "@ + decimal(
                len as nat,
            ),
        },
        bytes is Ok <==> len <= 0x10_0000,
{
    if len > MAX_RESPONSE_BYTES {
        let mut text = String::new();
        text.append("Control response too large: ");
        push_decimal(&mut text, len as u64);
        assert(text@ =~= "Control response too large: "@ + decimal(len as nat));
        return Err(TransportError::new(text));
    }
    Ok(len as usize)
}

/// The answer that bytes stand for, or what is said to bytes that stand for none. `error_text` is
/// the text of an error answer.
pub open spec fn parse_response(data: Seq<u8>, error_text: Seq<char>) -> Result<
    ResponseModel,
    Seq<char>,
> {
    if data.len() < 6 {
        Err("Control response too short"@)
    } else if data.subrange(0, 4) != control_magic() {
        Err("Bad control response magic"@)
    } else if data[4] != 1 {
        Err("Bad control response version"@)
    } else if data[5] == 0 {
        Ok(ResponseModel::Ack)
    } else if data[5] == 1 {
        if data.len() < 14 {
            Err("NextEventTime response too short"@)
        } else {
            Ok(ResponseModel::NextEventTime(number_at(data, 6, 8) as u64))
        }
    } else if data[5] == 0xff {
        Ok(ResponseModel::Error(error_text))
    } else {
        Err("Unknown control response kind: "@ + decimal(data[5] as nat))
    }
}

fn failure(text: &str) -> (error: TransportError)
    ensures
        error@ == text@,
{
    TransportError::new(text.to_owned())
}

impl ControlResponse {
    /// The answer that bytes stand for, given the text of an error answer.
    pub fn with_error_text(data: &[u8], error_text: String) -> (response: Result<
        Self,
        TransportError,
    >)
        ensures
            match (response, parse_response(data@, error_text@)) {
                (Ok(r), Ok(model)) => r@ == model,
                (Err(e), Err(text)) => e@ == text,
                _ => false,
            },
    {
        if data.len() < 6 {
            return Err(failure("Control response too short"));
        }
        if data[0] != 0x53 || data[1] != 0x43 || data[2] != 0x54 || data[3] != 0x4c {
            proof {
                let start = data@.subrange(0, 4);
                assert(start[0] == data@[0] && start[1] == data@[1] && start[2] == data@[2]
                    && start[3] == data@[3]);
            }
            return Err(failure("Bad control response magic"));
        }
        assert(data@.subrange(0, 4) =~= control_magic());
        if data[4] != 1 {
            return Err(failure("Bad control response version"));
        }
        match data[5] {
            0 => Ok(ControlResponse::Ack),
            1 => {
                if data.len() < 14 {
                    return Err(failure("NextEventTime response too short"));
                }
                Ok(ControlResponse::NextEventTime(get_be(data, 6, 8)))
            },
            0xff => Ok(ControlResponse::Error(error_text)),
            other => {
                let mut text = String::new();
                text.append("Unknown control response kind: ");
                push_decimal(&mut text, other as u64);
                assert(text@ =~= "Unknown control response kind: "@ + decimal(other as nat));
                Err(TransportError::new(text))
            },
        }
    }

    /// The answer that bytes stand for. The text of an error answer is what stands behind the
    /// sixth byte.
    pub fn from_bytes(data: &[u8]) -> (response: Result<Self, TransportError>)
        ensures
            match (
                response,
                parse_response(
                    data@,
                    lossy_utf8(
                        if data@.len() < 6 {
                            Seq::empty()
                        } else {
                            data@.skip(6)
                        },
                    ),
                ),
            ) {
                (Ok(r), Ok(model)) => r@ == model,
                (Err(e), Err(text)) => e@ == text,
                _ => false,
            },
    {
        let tail: Vec<u8> = if data.len() < 6 {
            Vec::new()
        } else {
            copy_range(data, 6, data.len())
        };
        proof {
            if data@.len() < 6 {
                assert(tail@ =~= Seq::empty());
            } else {
                assert(tail@ =~= data@.skip(6));
            }
        }
        let error_text = lossy_text(&tail);
        ControlResponse::with_error_text(data, error_text)
    }

    /// The instant that an answer to a report gives.
    pub fn global_min(self) -> (time: Result<EmulatedTime, TransportError>)
        requires
            self@ matches ResponseModel::NextEventTime(nanos) ==> nanos <= SIMTIME_MAX,
        ensures
            match time {
                Ok(t) => self@ matches ResponseModel::NextEventTime(nanos) && t.0
                    == EMUTIME_SIMULATION_START + nanos,
                Err(e) => !(self@ is NextEventTime) && e@ == "Unexpected control response"@,
            },
    {
        match self {
            ControlResponse::NextEventTime(nanos) => Ok(EmulatedTime::at_simulation_nanos(nanos)),
            _ => Err(failure("Unexpected control response")),
        }
    }
}

/// A coordinator that answers every report with the time that was reported leaves it unchanged.
pub proof fn law_reported_time_comes_back(local_min: EmulatedTime)
    requires
        EMUTIME_SIMULATION_START <= local_min.0,
        local_min.valid(),
    ensures
        ({
            let nanos = (local_min.0 - EMUTIME_SIMULATION_START) as u64;
            let answer = ControlMessage::NextEventTime(nanos).bytes();
            forall|error_text: Seq<char>| #[trigger]
                parse_response(answer, error_text) == Ok::<ResponseModel, Seq<char>>(
                    ResponseModel::NextEventTime(nanos),
                )
        }),
        EMUTIME_SIMULATION_START + (local_min.0 - EMUTIME_SIMULATION_START) as u64 == local_min.0,
{
    let nanos = (local_min.0 - EMUTIME_SIMULATION_START) as u64;
    let answer = ControlMessage::NextEventTime(nanos).bytes();
    let front = control_magic() + seq![1u8, 1u8];
    crate::bytes::lemma_be_bytes_len(nanos as nat, 8);
    crate::bytes::lemma_byte_capacities();
    assert(answer.subrange(0, 4) =~= control_magic());
    assert(answer =~= front + be_bytes(nanos as nat, 8) + Seq::<u8>::empty());
    crate::bytes::lemma_number_between(front, nanos as nat, 8, Seq::empty());
}

/// A message to the coordinator begins with the letters `SCTL`, the number 1 and what it is: 0
/// where it waits, 1 where the time of the next event follows in eight bytes.
pub proof fn law_message_layout(nanos: u64)
    ensures
        ControlMessage::Wait.bytes() == seq![0x53u8, 0x43, 0x54, 0x4c, 1, 0],
        ControlMessage::NextEventTime(nanos).bytes() == seq![0x53u8, 0x43, 0x54, 0x4c, 1, 1]
            + be_bytes(nanos as nat, 8),
{
    assert(ControlMessage::Wait.bytes() =~= seq![0x53u8, 0x43, 0x54, 0x4c, 1, 0]);
    assert(ControlMessage::NextEventTime(nanos).bytes() =~= seq![
        0x53u8,
        0x43,
        0x54,
        0x4c,
        1,
        1,
    ] + be_bytes(nanos as nat, 8));
}

/// An answer is read exactly where it begins with `SCTL` and 1, and then says 0, which means that
/// all is well, 1, behind which a time stands, or 255, which means a failure.
pub proof fn law_readable_responses(data: Seq<u8>, error_text: Seq<char>)
    ensures
        parse_response(data, error_text) is Ok <==> {
            &&& data.len() >= 6
            &&& data[0] == 0x53
            &&& data[1] == 0x43
            &&& data[2] == 0x54
            &&& data[3] == 0x4c
            &&& data[4] == 1
            &&& data[5] == 0 || (data[5] == 1 && data.len() >= 14) || data[5] == 255
        },
        parse_response(data, error_text) matches Ok(response) ==> {
            &&& response is Ack <==> data[5] == 0
            &&& response is NextEventTime <==> data[5] == 1
            &&& response is Error <==> data[5] == 255
            &&& response matches ResponseModel::Error(text) ==> text == error_text
            &&& response matches ResponseModel::NextEventTime(nanos) ==> data.subrange(6, 14)
                == be_bytes(nanos as nat, 8)
        },
{
    if data.len() >= 6 {
        let front = data.subrange(0, 4);
        assert(front[0] == data[0] && front[1] == data[1] && front[2] == data[2] && front[3]
            == data[3]);
        if data[0] == 0x53 && data[1] == 0x43 && data[2] == 0x54 && data[3] == 0x4c {
            assert(front =~= control_magic());
        }
        if data.len() >= 14 {
            let field = data.subrange(6, 14);
            crate::bytes::lemma_be_value_round_trip(field);
            crate::bytes::lemma_byte_capacities();
        }
    }
}

/// An answer holds what it says.
pub proof fn law_responses_hold_what_they_say(response: ControlResponse)
    ensures
        response is Ack <==> response@ is Ack,
        response matches ControlResponse::NextEventTime(nanos) ==> response@
            == ResponseModel::NextEventTime(nanos),
        response matches ControlResponse::Error(text) ==> response@ == ResponseModel::Error(text@),
{
}

} // verus!
