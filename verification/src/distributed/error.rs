//! Failures of the exchange and of its parts.

use vstd::prelude::*;
use vstd::string::*;

use crate::ids::{HostId, ShardId};

verus! {

/// Why a packet cannot travel to another shard.
#[derive(Clone, Copy, Debug, PartialEq, Eq, Structural)]
pub enum PacketSerializationError {
    LegacyTcp,
    MissingTcpHeader,
}

impl PacketSerializationError {
    /// The message for users.
    pub open spec fn message(self) -> Seq<char> {
        match self {
            PacketSerializationError::LegacyTcp =>
                "serializing legacy TCP packets is not implemented; distributed TCP currently requires experimental.use_new_tcp=true"@,
            PacketSerializationError::MissingTcpHeader =>
                "TCP packet is missing an IPv4 TCP header"@,
        }
    }

    /// The message as a string.
    pub fn to_string(&self) -> (text: String)
        ensures
            text@ == self.message(),
    {
        match *self {
            PacketSerializationError::LegacyTcp =>
                "serializing legacy TCP packets is not implemented; distributed TCP currently requires experimental.use_new_tcp=true".to_owned(),
            PacketSerializationError::MissingTcpHeader =>
                "TCP packet is missing an IPv4 TCP header".to_owned(),
        }
    }
}

/// Why a partition map cannot be built.
#[derive(Clone, Copy, Debug, PartialEq, Eq, Structural)]
pub enum PartitionMapError {
    ZeroShardCount,
}

impl PartitionMapError {
    /// The message for users.
    pub open spec fn message(self) -> Seq<char> {
        "shard count must be greater than zero"@
    }

    /// The message as a string.
    pub fn to_string(&self) -> (text: String)
        ensures
            text@ == self.message(),
    {
        "shard count must be greater than zero".to_owned()
    }
}

/// Why a remote packet is not delivered here.
#[derive(Clone, Copy, Debug, PartialEq, Eq, Structural)]
pub enum RemotePacketDeliveryError {
    UnknownDestinationHost(HostId),
    NonLocalDestination { host_id: HostId, host_shard: ShardId, current_shard: ShardId },
}

impl RemotePacketDeliveryError {
    /// The message for users.
    pub open spec fn message(self) -> Seq<char> {
        match self {
            RemotePacketDeliveryError::UnknownDestinationHost(host_id) => "destination host "@
                + host_id.shown() + " is not in the partition map"@,
            RemotePacketDeliveryError::NonLocalDestination {
                host_id,
                host_shard,
                current_shard,
            } => "destination host "@ + host_id.shown() + " belongs to shard "@ + host_shard.shown()
                + ", not current shard "@ + current_shard.shown(),
        }
    }

    /// The message as a string.
    pub fn to_string(&self) -> (text: String)
        ensures
            text@ == self.message(),
    {
        let mut text = String::new();
        text.append("destination host ");
        match *self {
            RemotePacketDeliveryError::UnknownDestinationHost(host_id) => {
                host_id.push_shown(&mut text);
                text.append(" is not in the partition map");
            },
            RemotePacketDeliveryError::NonLocalDestination {
                host_id,
                host_shard,
                current_shard,
            } => {
                host_id.push_shown(&mut text);
                text.append(" belongs to shard ");
                host_shard.push_shown(&mut text);
                text.append(", not current shard ");
                current_shard.push_shown(&mut text);
            },
        }
        assert(text@ =~= self.message());
        text
    }
}

/// A failure of the exchange.
#[derive(Debug)]
pub enum RemotePacketExchangeError {
    Backend(String),
    Delivery(RemotePacketDeliveryError),
}

/// What a failure of the exchange holds.
pub enum ExchangeFailure {
    Backend(Seq<char>),
    Delivery(RemotePacketDeliveryError),
}

impl View for RemotePacketExchangeError {
    type V = ExchangeFailure;

    open spec fn view(&self) -> ExchangeFailure {
        match *self {
            RemotePacketExchangeError::Backend(text) => ExchangeFailure::Backend(text@),
            RemotePacketExchangeError::Delivery(e) => ExchangeFailure::Delivery(e),
        }
    }
}

impl ExchangeFailure {
    /// The message for users.
    pub open spec fn message(self) -> Seq<char> {
        match self {
            ExchangeFailure::Backend(text) => "remote packet exchange failed: "@ + text,
            ExchangeFailure::Delivery(e) => "remote packet delivery failed: "@ + e.message(),
        }
    }
}

/// The failure to read something: `context` says what, `reason` why.
pub open spec fn decode_failure(context: Seq<char>, reason: Seq<char>) -> ExchangeFailure {
    ExchangeFailure::Backend("failed to decode "@ + context + ": "@ + reason)
}

impl RemotePacketExchangeError {
    /// The message as a string.
    pub fn to_string(&self) -> (text: String)
        ensures
            text@ == self@.message(),
    {
        let mut text = String::new();
        match self {
            RemotePacketExchangeError::Backend(inner) => {
                text.append("remote packet exchange failed: ");
                text.append(inner.as_str());
            },
            RemotePacketExchangeError::Delivery(e) => {
                text.append("remote packet delivery failed: ");
                text.append(e.to_string().as_str());
            },
        }
        assert(text@ =~= self@.message());
        text
    }
}

impl From<RemotePacketDeliveryError> for RemotePacketExchangeError {
    fn from(value: RemotePacketDeliveryError) -> (error: Self) {
        RemotePacketExchangeError::Delivery(value)
    }
}

impl vstd::std_specs::convert::FromSpecImpl<RemotePacketDeliveryError> for RemotePacketExchangeError {
    open spec fn obeys_from_spec() -> bool {
        true
    }

    open spec fn from_spec(value: RemotePacketDeliveryError) -> Self {
        RemotePacketExchangeError::Delivery(value)
    }
}

/// The failure to read something.
pub fn decode_error(context: &str, reason: &str) -> (error: RemotePacketExchangeError)
    ensures
        error@ == decode_failure(context@, reason@),
{
    let mut text = String::new();
    text.append("failed to decode ");
    text.append(context);
    text.append(": ");
    text.append(reason);
    assert(text@ =~= "failed to decode "@ + context@ + ": "@ + reason@);
    RemotePacketExchangeError::Backend(text)
}

/// What is said to users of packets that cannot travel, of hosts that are not here, and of
/// exchanges that failed.
pub proof fn law_messages_for_users(
    host: HostId,
    host_shard: ShardId,
    current_shard: ShardId,
    text: Seq<char>,
    context: Seq<char>,
    delivery: RemotePacketDeliveryError,
)
    ensures
        PacketSerializationError::LegacyTcp.message()
            == "serializing legacy TCP packets is not implemented; distributed TCP currently requires experimental.use_new_tcp=true"@,
        PacketSerializationError::MissingTcpHeader.message()
            == "TCP packet is missing an IPv4 TCP header"@,
        RemotePacketDeliveryError::UnknownDestinationHost(host).message() == "destination host "@
            + host.shown() + " is not in the partition map"@,
        (RemotePacketDeliveryError::NonLocalDestination {
            host_id: host,
            host_shard,
            current_shard,
        }).message() == "destination host "@ + host.shown() + " belongs to shard "@
            + host_shard.shown() + ", not current shard "@ + current_shard.shown(),
        ExchangeFailure::Backend(text).message() == "remote packet exchange failed: "@ + text,
        ExchangeFailure::Delivery(delivery).message() == "remote packet delivery failed: "@
            + delivery.message(),
        decode_failure(context, text) == ExchangeFailure::Backend(
            "failed to decode "@ + context + ": "@ + text,
        ),
{
}

/// A failure holds its own text, or its own delivery error.
pub proof fn law_failures_hold_what_they_say(error: RemotePacketExchangeError)
    ensures
        error matches RemotePacketExchangeError::Backend(text) ==> error@
            == ExchangeFailure::Backend(text@),
        error matches RemotePacketExchangeError::Delivery(e) ==> error@
            == ExchangeFailure::Delivery(e),
{
}

} // verus!
