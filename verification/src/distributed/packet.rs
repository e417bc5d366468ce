//! Packets in the form in which they travel between shards, and their wire format.

use vstd::prelude::*;
use vstd::string::*;

use crate::bytes::{be_bytes, contents, joined, lemma_be_bytes_len, lemma_join_assoc};
use crate::distributed::error::{
    ExchangeFailure, PacketSerializationError, RemotePacketExchangeError, decode_error,
    decode_failure,
};
use crate::distributed::wire::{
    MAX_PACKET_PAYLOAD_BYTES, Parsed, Reader, bool_bytes, counted_bytes, lemma_bool_bijection,
    lemma_bytes_bijection, lemma_optional_u32_bijection, lemma_optional_u8_bijection,
    lemma_u16_bijection, lemma_u32_bijection, lemma_u64_bijection, lemma_u8_bijection,
    optional_u32_bytes, optional_u8_bytes, payload_too_large, reads, take_bool, take_bytes,
    take_optional_u32, take_optional_u8, take_u16, take_u32, take_u64, take_u8, write_bool,
    write_bytes, write_len, write_optional_u32, write_optional_u8, write_u16, write_u32, write_u64,
    write_u8,
};
use crate::net::{Ipv4Addr, SocketAddrV4};
use crate::packet::{
    IanaProtocol, MAX_HEADER_SELECTIVE_ACKS, Packet, TcpFlags, TcpHeader, packet_payload_bytes,
};
use crate::text::{decimal, push_decimal};
use crate::transport::packet::copy_pairs;

verus! {

/// The most selective-acknowledgement ranges that a TCP packet is written or read with.
pub const MAX_TCP_SELECTIVE_ACKS: usize = 4;

/// A packet on its way to another shard. It holds no reference into the sending process.
#[derive(Debug, PartialEq, Eq)]
pub enum SerializedPacket {
    Udp { src: SocketAddrV4, dst: SocketAddrV4, priority: u64, payload: Vec<u8> },
    Tcp {
        src: SocketAddrV4,
        dst: SocketAddrV4,
        priority: u64,
        flags: TcpFlags,
        seq: u32,
        ack: u32,
        window_size: u16,
        selective_acks: Option<Vec<(u32, u32)>>,
        window_scale: Option<u8>,
        timestamp: Option<u32>,
        timestamp_echo: Option<u32>,
        payload: Vec<u8>,
    },
}

/// A packet in the fields of the wire format.
#[derive(Debug, PartialEq, Eq)]
pub enum WireSerializedPacket {
    Udp {
        src_ip: u32,
        src_port: u16,
        dst_ip: u32,
        dst_port: u16,
        priority: u64,
        payload: Vec<u8>,
    },
    Tcp {
        src_ip: u32,
        src_port: u16,
        dst_ip: u32,
        dst_port: u16,
        priority: u64,
        flags: u8,
        seq: u32,
        ack: u32,
        window_size: u16,
        selective_acks: Option<Vec<(u32, u32)>>,
        window_scale: Option<u8>,
        timestamp: Option<u32>,
        timestamp_echo: Option<u32>,
        payload: Vec<u8>,
    },
}

/// What a packet holds, with its variable parts as sequences.
#[verifier::ext_equal]
pub enum PacketModel {
    Udp { src: SocketAddrV4, dst: SocketAddrV4, priority: u64, payload: Seq<u8> },
    Tcp {
        src: SocketAddrV4,
        dst: SocketAddrV4,
        priority: u64,
        flags: u8,
        seq: u32,
        ack: u32,
        window_size: u16,
        selective_acks: Option<Seq<(u32, u32)>>,
        window_scale: Option<u8>,
        timestamp: Option<u32>,
        timestamp_echo: Option<u32>,
        payload: Seq<u8>,
    },
}

/// The ranges of an optional list.
pub open spec fn ranges_of(ranges: Option<Vec<(u32, u32)>>) -> Option<Seq<(u32, u32)>> {
    match ranges {
        Some(list) => Some(list@),
        None => None,
    }
}

impl View for SerializedPacket {
    type V = PacketModel;

    open spec fn view(&self) -> PacketModel {
        match *self {
            SerializedPacket::Udp { src, dst, priority, payload } => PacketModel::Udp {
                src,
                dst,
                priority,
                payload: payload@,
            },
            SerializedPacket::Tcp {
                src,
                dst,
                priority,
                flags,
                seq,
                ack,
                window_size,
                selective_acks,
                window_scale,
                timestamp,
                timestamp_echo,
                payload,
            } => PacketModel::Tcp {
                src,
                dst,
                priority,
                flags: flags.0,
                seq,
                ack,
                window_size,
                selective_acks: ranges_of(selective_acks),
                window_scale,
                timestamp,
                timestamp_echo,
                payload: payload@,
            },
        }
    }
}

impl View for WireSerializedPacket {
    type V = PacketModel;

    open spec fn view(&self) -> PacketModel {
        match *self {
            WireSerializedPacket::Udp { src_ip, src_port, dst_ip, dst_port, priority, payload } => {
                PacketModel::Udp {
                    src: SocketAddrV4 { ip: Ipv4Addr(src_ip), port: src_port },
                    dst: SocketAddrV4 { ip: Ipv4Addr(dst_ip), port: dst_port },
                    priority,
                    payload: payload@,
                }
            },
            WireSerializedPacket::Tcp {
                src_ip,
                src_port,
                dst_ip,
                dst_port,
                priority,
                flags,
                seq,
                ack,
                window_size,
                selective_acks,
                window_scale,
                timestamp,
                timestamp_echo,
                payload,
            } => PacketModel::Tcp {
                src: SocketAddrV4 { ip: Ipv4Addr(src_ip), port: src_port },
                dst: SocketAddrV4 { ip: Ipv4Addr(dst_ip), port: dst_port },
                priority,
                flags,
                seq,
                ack,
                window_size,
                selective_acks: ranges_of(selective_acks),
                window_scale,
                timestamp,
                timestamp_echo,
                payload: payload@,
            },
        }
    }
}

fn copy_ranges(ranges: &Option<Vec<(u32, u32)>>) -> (copy: Option<Vec<(u32, u32)>>)
    ensures
        ranges_of(copy) == ranges_of(*ranges),
{
    match ranges {
        Some(list) => Some(copy_pairs(list)),
        None => None,
    }
}

impl Clone for SerializedPacket {
    fn clone(&self) -> (copy: Self)
        ensures
            copy@ == self@,
    {
        match self {
            SerializedPacket::Udp { src, dst, priority, payload } => SerializedPacket::Udp {
                src: *src,
                dst: *dst,
                priority: *priority,
                payload: payload.clone(),
            },
            SerializedPacket::Tcp {
                src,
                dst,
                priority,
                flags,
                seq,
                ack,
                window_size,
                selective_acks,
                window_scale,
                timestamp,
                timestamp_echo,
                payload,
            } => SerializedPacket::Tcp {
                src: *src,
                dst: *dst,
                priority: *priority,
                flags: *flags,
                seq: *seq,
                ack: *ack,
                window_size: *window_size,
                selective_acks: copy_ranges(selective_acks),
                window_scale: *window_scale,
                timestamp: *timestamp,
                timestamp_echo: *timestamp_echo,
                payload: payload.clone(),
            },
        }
    }
}

impl PacketModel {
    /// The payload.
    pub open spec fn payload_of(self) -> Seq<u8> {
        match self {
            PacketModel::Udp { payload, .. } => payload,
            PacketModel::Tcp { payload, .. } => payload,
        }
    }

    /// The number of selective-acknowledgement ranges.
    pub open spec fn ack_range_count(self) -> nat {
        match self {
            PacketModel::Tcp { selective_acks: Some(ranges), .. } => ranges.len(),
            _ => 0,
        }
    }
}

/// What a packet holds for another shard, or why it cannot travel.
pub open spec fn serialized_form(packet: Packet) -> Result<PacketModel, PacketSerializationError> {
    match packet.protocol {
        IanaProtocol::Udp => Ok(
            PacketModel::Udp {
                src: packet.src,
                dst: packet.dst,
                priority: packet.priority,
                payload: packet.payload_bytes(),
            },
        ),
        IanaProtocol::Tcp => if packet.legacy_tcp {
            Err(PacketSerializationError::LegacyTcp)
        } else {
            match packet.tcp_header {
                None => Err(PacketSerializationError::MissingTcpHeader),
                Some(header) => Ok(
                    PacketModel::Tcp {
                        src: header.src,
                        dst: header.dst,
                        priority: packet.priority,
                        flags: header.flags.0,
                        seq: header.seq,
                        ack: header.ack,
                        window_size: header.window_size,
                        selective_acks: ranges_of(header.selective_acks),
                        window_scale: header.window_scale,
                        timestamp: header.timestamp,
                        timestamp_echo: header.timestamp_echo,
                        payload: packet.payload_bytes(),
                    },
                ),
            }
        },
    }
}

/// A single chunk is the whole payload.
proof fn lemma_single_chunk(payload: Vec<u8>)
    ensures
        joined(contents(seq![payload]), 1) == payload@,
{
    reveal_with_fuel(joined, 2);
    assert(joined(contents(seq![payload]), 1) =~= payload@);
}

impl SerializedPacket {
    /// The number of payload bytes.
    pub fn payload_len(&self) -> (len: usize)
        ensures
            len == self@.payload_of().len(),
    {
        match self {
            SerializedPacket::Udp { payload, .. } => payload.len(),
            SerializedPacket::Tcp { payload, .. } => payload.len(),
        }
    }

    /// The form in which a packet travels.
    pub fn try_from_packet(packet: &Packet) -> (serialized: Result<Self, PacketSerializationError>)
        ensures
            match (serialized, serialized_form(*packet)) {
                (Ok(s), Ok(model)) => s@ == model,
                (Err(e), Err(expected)) => e == expected,
                _ => false,
            },
    {
        match packet.protocol {
            IanaProtocol::Udp => Ok(
                SerializedPacket::Udp {
                    src: packet.src,
                    dst: packet.dst,
                    priority: packet.priority,
                    payload: packet_payload_bytes(packet),
                },
            ),
            IanaProtocol::Tcp => {
                if packet.legacy_tcp {
                    return Err(PacketSerializationError::LegacyTcp);
                }
                match &packet.tcp_header {
                    None => Err(PacketSerializationError::MissingTcpHeader),
                    Some(header) => Ok(
                        SerializedPacket::Tcp {
                            src: header.src,
                            dst: header.dst,
                            priority: packet.priority,
                            flags: header.flags,
                            seq: header.seq,
                            ack: header.ack,
                            window_size: header.window_size,
                            selective_acks: copy_ranges(&header.selective_acks),
                            window_scale: header.window_scale,
                            timestamp: header.timestamp,
                            timestamp_echo: header.timestamp_echo,
                            payload: packet_payload_bytes(packet),
                        },
                    ),
                }
            },
        }
    }

    /// The packet that arrives. Serializing it again gives what it was made from.
    pub fn into_packet(self) -> (packet: Packet)
        requires
            self@.ack_range_count() <= MAX_HEADER_SELECTIVE_ACKS,
        ensures
            serialized_form(packet) == Ok::<PacketModel, PacketSerializationError>(self@),
            !packet.legacy_tcp,
            packet.payload@.len() == 1,
            match packet.tcp_header {
                Some(header) => header.wf() && packet.src == header.src && packet.dst == header.dst,
                None => self@ is Udp,
            },
    {
        match self {
            SerializedPacket::Udp { src, dst, priority, payload } => {
                proof {
                    lemma_single_chunk(payload);
                }
                Packet::new_ipv4_udp(src, dst, payload, priority)
            },
            SerializedPacket::Tcp {
                src,
                dst,
                priority,
                flags,
                seq,
                ack,
                window_size,
                selective_acks,
                window_scale,
                timestamp,
                timestamp_echo,
                payload,
            } => {
                let header = TcpHeader {
                    src,
                    dst,
                    flags,
                    seq,
                    ack,
                    window_size,
                    selective_acks,
                    window_scale,
                    timestamp,
                    timestamp_echo,
                };
                proof {
                    lemma_single_chunk(payload);
                }
                let mut chunks: Vec<Vec<u8>> = Vec::new();
                chunks.push(payload);
                assert(chunks@ =~= seq![payload]);
                Packet::new_ipv4_tcp(header, chunks, priority)
            },
        }
    }
}

/// Whether the addresses of a packet are those of its TCP header, where it has one.
pub open spec fn addresses_agree(packet: Packet) -> bool {
    packet.tcp_header matches Some(header) ==> header.src == packet.src && header.dst
        == packet.dst
}

/// Whether two headers say the same.
pub open spec fn same_header(a: Option<TcpHeader>, b: Option<TcpHeader>) -> bool {
    match (a, b) {
        (Some(x), Some(y)) => {
            &&& x.src == y.src
            &&& x.dst == y.dst
            &&& x.flags.0 == y.flags.0
            &&& x.seq == y.seq
            &&& x.ack == y.ack
            &&& x.window_size == y.window_size
            &&& ranges_of(x.selective_acks) == ranges_of(y.selective_acks)
            &&& x.window_scale == y.window_scale
            &&& x.timestamp == y.timestamp
            &&& x.timestamp_echo == y.timestamp_echo
        },
        (None, None) => true,
        _ => false,
    }
}

/// A packet that travels to another shard arrives with the fields and the payload that it left
/// with, whatever chunks its payload lay in.
pub proof fn law_packet_survives_the_journey(packet: Packet, arrived: Packet)
    requires
        addresses_agree(packet),
        addresses_agree(arrived),
        serialized_form(packet) is Ok,
        serialized_form(arrived) == serialized_form(packet),
    ensures
        arrived.protocol == packet.protocol,
        arrived.src == packet.src,
        arrived.dst == packet.dst,
        arrived.priority == packet.priority,
        arrived.payload_bytes() == packet.payload_bytes(),
        packet.protocol == IanaProtocol::Tcp ==> same_header(
            arrived.tcp_header,
            packet.tcp_header,
        ),
{
}

impl From<SerializedPacket> for WireSerializedPacket {
    fn from(value: SerializedPacket) -> (wire: Self) {
        match value {
            SerializedPacket::Udp { src, dst, priority, payload } => WireSerializedPacket::Udp {
                src_ip: src.ip.0,
                src_port: src.port,
                dst_ip: dst.ip.0,
                dst_port: dst.port,
                priority,
                payload,
            },
            SerializedPacket::Tcp {
                src,
                dst,
                priority,
                flags,
                seq,
                ack,
                window_size,
                selective_acks,
                window_scale,
                timestamp,
                timestamp_echo,
                payload,
            } => WireSerializedPacket::Tcp {
                src_ip: src.ip.0,
                src_port: src.port,
                dst_ip: dst.ip.0,
                dst_port: dst.port,
                priority,
                flags: flags.bits(),
                seq,
                ack,
                window_size,
                selective_acks,
                window_scale,
                timestamp,
                timestamp_echo,
                payload,
            },
        }
    }
}

impl vstd::std_specs::convert::FromSpecImpl<SerializedPacket> for WireSerializedPacket {
    open spec fn obeys_from_spec() -> bool {
        true
    }

    open spec fn from_spec(value: SerializedPacket) -> Self {
        match value {
            SerializedPacket::Udp { src, dst, priority, payload } => WireSerializedPacket::Udp {
                src_ip: src.ip.0,
                src_port: src.port,
                dst_ip: dst.ip.0,
                dst_port: dst.port,
                priority,
                payload,
            },
            SerializedPacket::Tcp {
                src,
                dst,
                priority,
                flags,
                seq,
                ack,
                window_size,
                selective_acks,
                window_scale,
                timestamp,
                timestamp_echo,
                payload,
            } => WireSerializedPacket::Tcp {
                src_ip: src.ip.0,
                src_port: src.port,
                dst_ip: dst.ip.0,
                dst_port: dst.port,
                priority,
                flags: flags.0,
                seq,
                ack,
                window_size,
                selective_acks,
                window_scale,
                timestamp,
                timestamp_echo,
                payload,
            },
        }
    }
}

impl From<WireSerializedPacket> for SerializedPacket {
    fn from(value: WireSerializedPacket) -> (packet: Self) {
        match value {
            WireSerializedPacket::Udp { src_ip, src_port, dst_ip, dst_port, priority, payload } => {
                SerializedPacket::Udp {
                    src: SocketAddrV4::new(Ipv4Addr(src_ip), src_port),
                    dst: SocketAddrV4::new(Ipv4Addr(dst_ip), dst_port),
                    priority,
                    payload,
                }
            },
            WireSerializedPacket::Tcp {
                src_ip,
                src_port,
                dst_ip,
                dst_port,
                priority,
                flags,
                seq,
                ack,
                window_size,
                selective_acks,
                window_scale,
                timestamp,
                timestamp_echo,
                payload,
            } => SerializedPacket::Tcp {
                src: SocketAddrV4::new(Ipv4Addr(src_ip), src_port),
                dst: SocketAddrV4::new(Ipv4Addr(dst_ip), dst_port),
                priority,
                flags: TcpFlags::from_bits_retain(flags),
                seq,
                ack,
                window_size,
                selective_acks,
                window_scale,
                timestamp,
                timestamp_echo,
                payload,
            },
        }
    }
}

impl vstd::std_specs::convert::FromSpecImpl<WireSerializedPacket> for SerializedPacket {
    open spec fn obeys_from_spec() -> bool {
        true
    }

    open spec fn from_spec(value: WireSerializedPacket) -> Self {
        match value {
            WireSerializedPacket::Udp { src_ip, src_port, dst_ip, dst_port, priority, payload } => {
                SerializedPacket::Udp {
                    src: SocketAddrV4 { ip: Ipv4Addr(src_ip), port: src_port },
                    dst: SocketAddrV4 { ip: Ipv4Addr(dst_ip), port: dst_port },
                    priority,
                    payload,
                }
            },
            WireSerializedPacket::Tcp {
                src_ip,
                src_port,
                dst_ip,
                dst_port,
                priority,
                flags,
                seq,
                ack,
                window_size,
                selective_acks,
                window_scale,
                timestamp,
                timestamp_echo,
                payload,
            } => SerializedPacket::Tcp {
                src: SocketAddrV4 { ip: Ipv4Addr(src_ip), port: src_port },
                dst: SocketAddrV4 { ip: Ipv4Addr(dst_ip), port: dst_port },
                priority,
                flags: TcpFlags(flags),
                seq,
                ack,
                window_size,
                selective_acks,
                window_scale,
                timestamp,
                timestamp_echo,
                payload,
            },
        }
    }
}

/// Address and port.
pub open spec fn endpoint_bytes(endpoint: SocketAddrV4) -> Seq<u8> {
    be_bytes(endpoint.ip.0 as nat, 4) + be_bytes(endpoint.port as nat, 2)
}

/// What every packet begins with behind its tag: both endpoints and the priority.
pub open spec fn head_bytes(src: SocketAddrV4, dst: SocketAddrV4, priority: u64) -> Seq<u8> {
    endpoint_bytes(src) + endpoint_bytes(dst) + be_bytes(priority as nat, 8)
}

/// The fields of a TCP header that always take the same room.
pub open spec fn tcp_fixed_bytes(flags: u8, seq: u32, ack: u32, window_size: u16) -> Seq<u8> {
    seq![flags] + be_bytes(seq as nat, 4) + be_bytes(ack as nat, 4) + be_bytes(
        window_size as nat,
        2,
    )
}

/// Both ends of each range, one range after the other.
pub open spec fn range_bytes(ranges: Seq<(u32, u32)>) -> Seq<u8>
    decreases ranges.len(),
{
    if ranges.len() == 0 {
        Seq::empty()
    } else {
        be_bytes(ranges[0].0 as nat, 4) + be_bytes(ranges[0].1 as nat, 4) + range_bytes(
            ranges.skip(1),
        )
    }
}

/// The optional selective-acknowledgement ranges.
pub open spec fn ack_bytes(ranges: Option<Seq<(u32, u32)>>) -> Seq<u8> {
    match ranges {
        Some(list) => bool_bytes(true) + be_bytes(list.len(), 4) + range_bytes(list),
        None => bool_bytes(false),
    }
}

/// The optional fields of a TCP header behind the ranges.
pub open spec fn tcp_option_bytes(
    window_scale: Option<u8>,
    timestamp: Option<u32>,
    timestamp_echo: Option<u32>,
) -> Seq<u8> {
    optional_u8_bytes(window_scale) + optional_u32_bytes(timestamp) + optional_u32_bytes(
        timestamp_echo,
    )
}

/// The optional fields of a TCP header behind the ranges, and the payload.
pub open spec fn tcp_tail_bytes(
    window_scale: Option<u8>,
    timestamp: Option<u32>,
    timestamp_echo: Option<u32>,
    payload: Seq<u8>,
) -> Seq<u8> {
    tcp_option_bytes(window_scale, timestamp, timestamp_echo) + counted_bytes(payload)
}

impl PacketModel {
    /// The wire format of a packet.
    pub open spec fn bytes(self) -> Seq<u8> {
        match self {
            PacketModel::Udp { src, dst, priority, payload } => seq![1u8] + head_bytes(
                src,
                dst,
                priority,
            ) + counted_bytes(payload),
            PacketModel::Tcp {
                src,
                dst,
                priority,
                flags,
                seq,
                ack,
                window_size,
                selective_acks,
                window_scale,
                timestamp,
                timestamp_echo,
                payload,
            } => seq![2u8] + head_bytes(src, dst, priority) + tcp_fixed_bytes(
                flags,
                seq,
                ack,
                window_size,
            ) + ack_bytes(selective_acks) + tcp_tail_bytes(
                window_scale,
                timestamp,
                timestamp_echo,
                payload,
            ),
        }
    }

    /// What is written of a packet that cannot be written: the fields in front of the one that is
    /// refused, which are its ranges where there are too many of them, and else its payload.
    pub open spec fn bytes_before_fault(self) -> Seq<u8> {
        match self {
            PacketModel::Udp { src, dst, priority, .. } => seq![1u8] + head_bytes(
                src,
                dst,
                priority,
            ),
            PacketModel::Tcp {
                src,
                dst,
                priority,
                flags,
                seq,
                ack,
                window_size,
                selective_acks,
                window_scale,
                timestamp,
                timestamp_echo,
                ..
            } => {
                let front = seq![2u8] + head_bytes(src, dst, priority) + tcp_fixed_bytes(
                    flags,
                    seq,
                    ack,
                    window_size,
                );
                if self.ack_range_count() > MAX_TCP_SELECTIVE_ACKS {
                    front
                } else {
                    front + ack_bytes(selective_acks) + tcp_option_bytes(
                        window_scale,
                        timestamp,
                        timestamp_echo,
                    )
                }
            },
        }
    }

    /// What is said to a packet that cannot be written, if it cannot.
    pub open spec fn fault(self) -> Option<Seq<char>> {
        if self.ack_range_count() > MAX_TCP_SELECTIVE_ACKS {
            Some(
                "TCP packet has "@ + decimal(self.ack_range_count())
                    + " selective ACK ranges, exceeding limit "@ + decimal(
                    MAX_TCP_SELECTIVE_ACKS as nat,
                ),
            )
        } else if self.payload_of().len() > MAX_PACKET_PAYLOAD_BYTES {
            Some(payload_too_large(self.payload_of().len()))
        } else {
            None
        }
    }
}

/// Address and port at the front of the bytes.
pub open spec fn take_endpoint(s: Seq<u8>) -> Parsed<SocketAddrV4> {
    match take_u32(s) {
        Err(reason) => Err(reason),
        Ok((ip, rest)) => match take_u16(rest) {
            Err(reason) => Err(reason),
            Ok((port, after)) => Ok((SocketAddrV4 { ip: Ipv4Addr(ip), port }, after)),
        },
    }
}

/// Both endpoints and the priority at the front of the bytes.
pub open spec fn take_head(s: Seq<u8>) -> Parsed<(SocketAddrV4, SocketAddrV4, u64)> {
    match take_endpoint(s) {
        Err(reason) => Err(reason),
        Ok((src, rest)) => match take_endpoint(rest) {
            Err(reason) => Err(reason),
            Ok((dst, behind)) => match take_u64(behind) {
                Err(reason) => Err(reason),
                Ok((priority, after)) => Ok(((src, dst, priority), after)),
            },
        },
    }
}

/// The fixed fields of a TCP header at the front of the bytes.
pub open spec fn take_tcp_fixed(s: Seq<u8>) -> Parsed<(u8, u32, u32, u16)> {
    match take_u8(s) {
        Err(reason) => Err(reason),
        Ok((flags, a)) => match take_u32(a) {
            Err(reason) => Err(reason),
            Ok((seq, b)) => match take_u32(b) {
                Err(reason) => Err(reason),
                Ok((ack, c)) => match take_u16(c) {
                    Err(reason) => Err(reason),
                    Ok((window_size, after)) => Ok(((flags, seq, ack, window_size), after)),
                },
            },
        },
    }
}

/// A number of ranges at the front of the bytes.
pub open spec fn take_ranges(s: Seq<u8>, count: nat) -> Parsed<Seq<(u32, u32)>>
    decreases count,
{
    if count == 0 {
        Ok((Seq::empty(), s))
    } else {
        match take_u32(s) {
            Err(reason) => Err(reason),
            Ok((left, a)) => match take_u32(a) {
                Err(reason) => Err(reason),
                Ok((right, b)) => match take_ranges(b, (count - 1) as nat) {
                    Err(reason) => Err(reason),
                    Ok((others, after)) => Ok((seq![(left, right)] + others, after)),
                },
            },
        }
    }
}

/// The optional selective-acknowledgement ranges at the front of the bytes.
pub open spec fn take_acks(s: Seq<u8>) -> Parsed<Option<Seq<(u32, u32)>>> {
    match take_bool(s) {
        Err(reason) => Err(reason),
        Ok((false, rest)) => Ok((None, rest)),
        Ok((true, rest)) => match take_u32(rest) {
            Err(reason) => Err(reason),
            Ok((count, behind)) => if count > MAX_TCP_SELECTIVE_ACKS {
                Err(
                    "TCP selective ACK count "@ + decimal(count as nat) + " exceeds limit "@
                        + decimal(MAX_TCP_SELECTIVE_ACKS as nat),
                )
            } else {
                match take_ranges(behind, count as nat) {
                    Err(reason) => Err(reason),
                    Ok((ranges, after)) => Ok((Some(ranges), after)),
                }
            },
        },
    }
}

/// The optional fields of a TCP header behind the ranges, and the payload.
pub open spec fn take_tcp_tail(s: Seq<u8>) -> Parsed<
    (Option<u8>, Option<u32>, Option<u32>, Seq<u8>),
> {
    match take_optional_u8(s) {
        Err(reason) => Err(reason),
        Ok((window_scale, a)) => match take_optional_u32(a) {
            Err(reason) => Err(reason),
            Ok((timestamp, b)) => match take_optional_u32(b) {
                Err(reason) => Err(reason),
                Ok((timestamp_echo, c)) => match take_bytes(c) {
                    Err(reason) => Err(reason),
                    Ok((payload, after)) => Ok(
                        ((window_scale, timestamp, timestamp_echo, payload), after),
                    ),
                },
            },
        },
    }
}

/// What stands behind the tag of a UDP packet.
pub open spec fn take_udp(s: Seq<u8>) -> Parsed<PacketModel> {
    match take_head(s) {
        Err(reason) => Err(reason),
        Ok(((src, dst, priority), rest)) => match take_bytes(rest) {
            Err(reason) => Err(reason),
            Ok((payload, after)) => Ok((PacketModel::Udp { src, dst, priority, payload }, after)),
        },
    }
}

/// What stands behind the tag of a TCP packet.
pub open spec fn take_tcp(s: Seq<u8>) -> Parsed<PacketModel> {
    match take_head(s) {
        Err(reason) => Err(reason),
        Ok(((src, dst, priority), a)) => match take_tcp_fixed(a) {
            Err(reason) => Err(reason),
            Ok(((flags, seq, ack, window_size), b)) => match take_acks(b) {
                Err(reason) => Err(reason),
                Ok((selective_acks, c)) => match take_tcp_tail(c) {
                    Err(reason) => Err(reason),
                    Ok(((window_scale, timestamp, timestamp_echo, payload), after)) => Ok(
                        (
                            PacketModel::Tcp {
                                src,
                                dst,
                                priority,
                                flags,
                                seq,
                                ack,
                                window_size,
                                selective_acks,
                                window_scale,
                                timestamp,
                                timestamp_echo,
                                payload,
                            },
                            after,
                        ),
                    ),
                },
            },
        },
    }
}

/// The packet at the front of the bytes.
pub open spec fn take_packet(s: Seq<u8>) -> Parsed<PacketModel> {
    match take_u8(s) {
        Err(reason) => Err(reason),
        Ok((1u8, rest)) => take_udp(rest),
        Ok((2u8, rest)) => take_tcp(rest),
        Ok((tag, _)) => Err("unknown serialized packet tag "@ + decimal(tag as nat)),
    }
}

/// Endpoints are read back, and were read from nothing else.
proof fn lemma_endpoint_bijection(value: SocketAddrV4, rest: Seq<u8>, s: Seq<u8>)
    ensures
        take_endpoint(endpoint_bytes(value) + rest) == Ok::<(SocketAddrV4, Seq<u8>), Seq<char>>(
            (value, rest),
        ),
        take_endpoint(s) == Ok::<(SocketAddrV4, Seq<u8>), Seq<char>>((value, rest)) ==> s
            == endpoint_bytes(value) + rest,
{
    let tail = be_bytes(value.port as nat, 2) + rest;
    lemma_join_assoc(be_bytes(value.ip.0 as nat, 4), be_bytes(value.port as nat, 2), rest);
    lemma_u32_bijection(value.ip.0, tail, s);
    lemma_u16_bijection(value.port, rest, tail);
    if take_u32(s) is Ok {
        lemma_u16_bijection(value.port, rest, take_u32(s)->Ok_0.1);
    }
}

/// What a packet begins with is read back, and was read from nothing else.
proof fn lemma_head_bijection(
    src: SocketAddrV4,
    dst: SocketAddrV4,
    priority: u64,
    rest: Seq<u8>,
    s: Seq<u8>,
)
    ensures
        take_head(head_bytes(src, dst, priority) + rest) == Ok::<
            ((SocketAddrV4, SocketAddrV4, u64), Seq<u8>),
            Seq<char>,
        >(((src, dst, priority), rest)),
        take_head(s) == Ok::<((SocketAddrV4, SocketAddrV4, u64), Seq<u8>), Seq<char>>(
            ((src, dst, priority), rest),
        ) ==> s == head_bytes(src, dst, priority) + rest,
{
    let a = endpoint_bytes(src);
    let b = endpoint_bytes(dst);
    let c = be_bytes(priority as nat, 8);
    lemma_join_assoc(a + b, c, rest);
    lemma_join_assoc(a, b, c + rest);
    lemma_endpoint_bijection(src, b + (c + rest), s);
    lemma_endpoint_bijection(dst, c + rest, b + (c + rest));
    lemma_u64_bijection(priority, rest, c + rest);
    if take_endpoint(s) is Ok {
        let behind = take_endpoint(s)->Ok_0.1;
        lemma_endpoint_bijection(dst, c + rest, behind);
        if take_endpoint(behind) is Ok {
            lemma_u64_bijection(priority, rest, take_endpoint(behind)->Ok_0.1);
        }
    }
}

/// The fixed fields are read back, and were read from nothing else.
proof fn lemma_tcp_fixed_bijection(
    flags: u8,
    seq: u32,
    ack: u32,
    window_size: u16,
    rest: Seq<u8>,
    s: Seq<u8>,
)
    ensures
        take_tcp_fixed(tcp_fixed_bytes(flags, seq, ack, window_size) + rest) == Ok::<
            ((u8, u32, u32, u16), Seq<u8>),
            Seq<char>,
        >(((flags, seq, ack, window_size), rest)),
        take_tcp_fixed(s) == Ok::<((u8, u32, u32, u16), Seq<u8>), Seq<char>>(
            ((flags, seq, ack, window_size), rest),
        ) ==> s == tcp_fixed_bytes(flags, seq, ack, window_size) + rest,
{
    let a = seq![flags];
    let b = be_bytes(seq as nat, 4);
    let c = be_bytes(ack as nat, 4);
    let d = be_bytes(window_size as nat, 2);
    let from_d = d + rest;
    let from_c = c + from_d;
    let from_b = b + from_c;
    lemma_join_assoc(a + b + c, d, rest);
    lemma_join_assoc(a + b, c, from_d);
    lemma_join_assoc(a, b, from_c);
    lemma_u8_bijection(flags, from_b, s);
    lemma_u32_bijection(seq, from_c, from_b);
    lemma_u32_bijection(ack, from_d, from_c);
    lemma_u16_bijection(window_size, rest, from_d);
    if take_u8(s) is Ok {
        let s1 = take_u8(s)->Ok_0.1;
        lemma_u32_bijection(seq, from_c, s1);
        if take_u32(s1) is Ok {
            let s2 = take_u32(s1)->Ok_0.1;
            lemma_u32_bijection(ack, from_d, s2);
            if take_u32(s2) is Ok {
                lemma_u16_bijection(window_size, rest, take_u32(s2)->Ok_0.1);
            }
        }
    }
}

/// Ranges are read back.
proof fn lemma_ranges_round_trip(ranges: Seq<(u32, u32)>, rest: Seq<u8>)
    ensures
        take_ranges(range_bytes(ranges) + rest, ranges.len()) == Ok::<
            (Seq<(u32, u32)>, Seq<u8>),
            Seq<char>,
        >((ranges, rest)),
    decreases ranges.len(),
{
    if ranges.len() == 0 {
        assert(range_bytes(ranges) + rest =~= rest);
        assert(ranges =~= Seq::<(u32, u32)>::empty());
    } else {
        let others = ranges.skip(1);
        let a = be_bytes(ranges[0].0 as nat, 4);
        let b = be_bytes(ranges[0].1 as nat, 4);
        let c = range_bytes(others);
        lemma_join_assoc(a + b, c, rest);
        lemma_join_assoc(a, b, c + rest);
        lemma_u32_bijection(ranges[0].0, b + (c + rest), Seq::empty());
        lemma_u32_bijection(ranges[0].1, c + rest, Seq::empty());
        lemma_ranges_round_trip(others, rest);
        assert(seq![(ranges[0].0, ranges[0].1)] + others =~= ranges);
    }
}

/// What ranges were read from is their bytes.
proof fn lemma_ranges_bytes(s: Seq<u8>, count: nat, ranges: Seq<(u32, u32)>, rest: Seq<u8>)
    requires
        take_ranges(s, count) == Ok::<(Seq<(u32, u32)>, Seq<u8>), Seq<char>>((ranges, rest)),
    ensures
        ranges.len() == count,
        s == range_bytes(ranges) + rest,
    decreases count,
{
    if count == 0 {
        assert(range_bytes(ranges) + rest =~= rest);
    } else {
        let (left, s1) = take_u32(s)->Ok_0;
        let (right, s2) = take_u32(s1)->Ok_0;
        let (others, after) = take_ranges(s2, (count - 1) as nat)->Ok_0;
        lemma_u32_bijection(left, s1, s);
        lemma_u32_bijection(right, s2, s1);
        lemma_ranges_bytes(s2, (count - 1) as nat, others, rest);
        assert(ranges.skip(1) =~= others);
        let a = be_bytes(left as nat, 4);
        let b = be_bytes(right as nat, 4);
        let c = range_bytes(others);
        lemma_join_assoc(a + b, c, rest);
        lemma_join_assoc(a, b, c + rest);
    }
}

/// The optional ranges are read back, if there are not too many, and were read from nothing else.
proof fn lemma_acks_bijection(value: Option<Seq<(u32, u32)>>, rest: Seq<u8>, s: Seq<u8>)
    ensures
        (value matches Some(list) ==> list.len() <= MAX_TCP_SELECTIVE_ACKS) ==> take_acks(
            ack_bytes(value) + rest,
        ) == Ok::<(Option<Seq<(u32, u32)>>, Seq<u8>), Seq<char>>((value, rest)),
        take_acks(s) == Ok::<(Option<Seq<(u32, u32)>>, Seq<u8>), Seq<char>>((value, rest)) ==> s
            == ack_bytes(value) + rest && (value matches Some(list) ==> list.len()
            <= MAX_TCP_SELECTIVE_ACKS),
{
    match value {
        Some(list) => {
            let a = bool_bytes(true);
            let b = be_bytes(list.len(), 4);
            let c = range_bytes(list);
            lemma_join_assoc(a + b, c, rest);
            lemma_join_assoc(a, b, c + rest);
            lemma_bool_bijection(true, b + (c + rest), s);
            if list.len() <= MAX_TCP_SELECTIVE_ACKS {
                lemma_u32_bijection(list.len() as u32, c + rest, Seq::empty());
                lemma_ranges_round_trip(list, rest);
            }
            if take_acks(s) == Ok::<(Option<Seq<(u32, u32)>>, Seq<u8>), Seq<char>>((value, rest)) {
                let s1 = take_bool(s)->Ok_0.1;
                let (count, s2) = take_u32(s1)->Ok_0;
                lemma_bool_bijection(true, s1, s);
                lemma_u32_bijection(count, s2, s1);
                lemma_ranges_bytes(s2, count as nat, list, rest);
            }
        },
        None => {
            lemma_bool_bijection(false, rest, s);
        },
    }
}

/// The tail of a TCP packet is read back, if its payload is not too large, and was read from
/// nothing else.
proof fn lemma_tcp_tail_bijection(
    window_scale: Option<u8>,
    timestamp: Option<u32>,
    timestamp_echo: Option<u32>,
    payload: Seq<u8>,
    rest: Seq<u8>,
    s: Seq<u8>,
)
    ensures
        payload.len() <= MAX_PACKET_PAYLOAD_BYTES ==> take_tcp_tail(
            tcp_tail_bytes(window_scale, timestamp, timestamp_echo, payload) + rest,
        ) == Ok::<((Option<u8>, Option<u32>, Option<u32>, Seq<u8>), Seq<u8>), Seq<char>>(
            ((window_scale, timestamp, timestamp_echo, payload), rest),
        ),
        take_tcp_tail(s) == Ok::<
            ((Option<u8>, Option<u32>, Option<u32>, Seq<u8>), Seq<u8>),
            Seq<char>,
        >(((window_scale, timestamp, timestamp_echo, payload), rest)) ==> s == tcp_tail_bytes(
            window_scale,
            timestamp,
            timestamp_echo,
            payload,
        ) + rest && payload.len() <= MAX_PACKET_PAYLOAD_BYTES,
{
    let a = optional_u8_bytes(window_scale);
    let b = optional_u32_bytes(timestamp);
    let c = optional_u32_bytes(timestamp_echo);
    let d = counted_bytes(payload);
    let from_d = d + rest;
    let from_c = c + from_d;
    let from_b = b + from_c;
    lemma_join_assoc(a + b + c, d, rest);
    lemma_join_assoc(a + b, c, from_d);
    lemma_join_assoc(a, b, from_c);
    lemma_optional_u8_bijection(window_scale, from_b, s);
    lemma_optional_u32_bijection(timestamp, from_c, from_b);
    lemma_optional_u32_bijection(timestamp_echo, from_d, from_c);
    lemma_bytes_bijection(payload, rest, from_d);
    if take_tcp_tail(s) is Ok {
        let s1 = take_optional_u8(s)->Ok_0.1;
        let s2 = take_optional_u32(s1)->Ok_0.1;
        let s3 = take_optional_u32(s2)->Ok_0.1;
        lemma_optional_u32_bijection(timestamp, from_c, s1);
        lemma_optional_u32_bijection(timestamp_echo, from_d, s2);
        lemma_bytes_bijection(payload, rest, s3);
    }
}

proof fn lemma_udp_bijection(
    src: SocketAddrV4,
    dst: SocketAddrV4,
    priority: u64,
    payload: Seq<u8>,
    rest: Seq<u8>,
    s: Seq<u8>,
)
    ensures
        payload.len() <= MAX_PACKET_PAYLOAD_BYTES ==> take_udp(
            head_bytes(src, dst, priority) + (counted_bytes(payload) + rest),
        ) == Ok::<(PacketModel, Seq<u8>), Seq<char>>(
            (PacketModel::Udp { src, dst, priority, payload }, rest),
        ),
        take_udp(s) == Ok::<(PacketModel, Seq<u8>), Seq<char>>(
            (PacketModel::Udp { src, dst, priority, payload }, rest),
        ) ==> s == head_bytes(src, dst, priority) + (counted_bytes(payload) + rest)
            && payload.len() <= MAX_PACKET_PAYLOAD_BYTES,
{
    let from_payload = counted_bytes(payload) + rest;
    lemma_head_bijection(src, dst, priority, from_payload, s);
    lemma_bytes_bijection(payload, rest, from_payload);
    if take_head(s) is Ok {
        lemma_bytes_bijection(payload, rest, take_head(s)->Ok_0.1);
    }
}

/// The parts behind the tag of a TCP packet, as they lie behind each other.
proof fn lemma_tcp_parts_round_trip(packet: PacketModel, rest: Seq<u8>)
    requires
        packet is Tcp,
        packet.fault() is None,
    ensures
        match packet {
            PacketModel::Tcp {
                src,
                dst,
                priority,
                flags,
                seq,
                ack,
                window_size,
                selective_acks,
                window_scale,
                timestamp,
                timestamp_echo,
                payload,
            } => {
                let from_tail = tcp_tail_bytes(window_scale, timestamp, timestamp_echo, payload)
                    + rest;
                let from_acks = ack_bytes(selective_acks) + from_tail;
                let from_fixed = tcp_fixed_bytes(flags, seq, ack, window_size) + from_acks;
                take_tcp(head_bytes(src, dst, priority) + from_fixed) == Ok::<
                    (PacketModel, Seq<u8>),
                    Seq<char>,
                >((packet, rest))
            },
            _ => true,
        },
{
    match packet {
        PacketModel::Tcp {
            src,
            dst,
            priority,
            flags,
            seq,
            ack,
            window_size,
            selective_acks,
            window_scale,
            timestamp,
            timestamp_echo,
            payload,
        } => {
            let from_tail = tcp_tail_bytes(window_scale, timestamp, timestamp_echo, payload)
                + rest;
            let from_acks = ack_bytes(selective_acks) + from_tail;
            let from_fixed = tcp_fixed_bytes(flags, seq, ack, window_size) + from_acks;
            let s = head_bytes(src, dst, priority) + from_fixed;
            lemma_head_bijection(src, dst, priority, from_fixed, s);
            lemma_tcp_fixed_bijection(flags, seq, ack, window_size, from_acks, from_fixed);
            lemma_acks_bijection(selective_acks, from_tail, from_acks);
            lemma_tcp_tail_bijection(
                window_scale,
                timestamp,
                timestamp_echo,
                payload,
                rest,
                from_tail,
            );
        },
        _ => {},
    }
}

proof fn lemma_tcp_round_trip(packet: PacketModel, rest: Seq<u8>)
    requires
        packet is Tcp,
        packet.fault() is None,
    ensures
        take_packet(packet.bytes() + rest) == Ok::<(PacketModel, Seq<u8>), Seq<char>>(
            (packet, rest),
        ),
{
    lemma_tcp_parts_round_trip(packet, rest);
    match packet {
        PacketModel::Tcp {
            src,
            dst,
            priority,
            flags,
            seq,
            ack,
            window_size,
            selective_acks,
            window_scale,
            timestamp,
            timestamp_echo,
            payload,
        } => {
            let tag = seq![2u8];
            let head = head_bytes(src, dst, priority);
            let fixed = tcp_fixed_bytes(flags, seq, ack, window_size);
            let acks = ack_bytes(selective_acks);
            let tail = tcp_tail_bytes(window_scale, timestamp, timestamp_echo, payload);
            let from_tail = tail + rest;
            let from_acks = acks + from_tail;
            let from_fixed = fixed + from_acks;
            lemma_join_assoc(tag + head + fixed + acks, tail, rest);
            lemma_join_assoc(tag + head + fixed, acks, from_tail);
            lemma_join_assoc(tag + head, fixed, from_acks);
            lemma_join_assoc(tag, head, from_fixed);
            let behind = head + from_fixed;
            assert(packet.bytes() + rest == tag + behind);
            lemma_u8_bijection(2, behind, tag + behind);
        },
        _ => {},
    }
}

proof fn lemma_tcp_bytes(s: Seq<u8>, packet: PacketModel, rest: Seq<u8>)
    requires
        take_tcp(s) == Ok::<(PacketModel, Seq<u8>), Seq<char>>((packet, rest)),
    ensures
        packet is Tcp,
        packet.fault() is None,
        seq![2u8] + s == packet.bytes() + rest,
{
    let ((src, dst, priority), s1) = take_head(s)->Ok_0;
    let ((flags, seq, ack, window_size), s2) = take_tcp_fixed(s1)->Ok_0;
    let (selective_acks, s3) = take_acks(s2)->Ok_0;
    let ((window_scale, timestamp, timestamp_echo, payload), after) = take_tcp_tail(s3)->Ok_0;
    lemma_head_bijection(src, dst, priority, s1, s);
    lemma_tcp_fixed_bijection(flags, seq, ack, window_size, s2, s1);
    lemma_acks_bijection(selective_acks, s3, s2);
    lemma_tcp_tail_bijection(window_scale, timestamp, timestamp_echo, payload, rest, s3);
    let tag = seq![2u8];
    let head = head_bytes(src, dst, priority);
    let fixed = tcp_fixed_bytes(flags, seq, ack, window_size);
    let acks = ack_bytes(selective_acks);
    let tail = tcp_tail_bytes(window_scale, timestamp, timestamp_echo, payload);
    lemma_join_assoc(tag, head, s1);
    lemma_join_assoc(tag + head, fixed, s2);
    lemma_join_assoc(tag + head + fixed, acks, s3);
    lemma_join_assoc(tag + head + fixed + acks, tail, rest);
}

/// A packet that can be written is read back, whatever stands behind it; and what a packet was read
/// from is the packet's bytes, so that each packet has one form.
pub proof fn law_packet_bijection(packet: PacketModel, rest: Seq<u8>, s: Seq<u8>)
    ensures
        packet.fault() is None ==> take_packet(packet.bytes() + rest) == Ok::<
            (PacketModel, Seq<u8>),
            Seq<char>,
        >((packet, rest)),
        take_packet(s) == Ok::<(PacketModel, Seq<u8>), Seq<char>>((packet, rest)) ==> s
            == packet.bytes() + rest && packet.fault() is None,
{
    if packet.fault() is None {
        match packet {
            PacketModel::Udp { src, dst, priority, payload } => {
                let head = head_bytes(src, dst, priority);
                lemma_join_assoc(seq![1u8] + head, counted_bytes(payload), rest);
                lemma_join_assoc(seq![1u8], head, counted_bytes(payload) + rest);
                lemma_u8_bijection(1, head + (counted_bytes(payload) + rest), Seq::empty());
                lemma_udp_bijection(src, dst, priority, payload, rest, Seq::empty());
            },
            PacketModel::Tcp { .. } => lemma_tcp_round_trip(packet, rest),
        }
    }
    if take_packet(s) == Ok::<(PacketModel, Seq<u8>), Seq<char>>((packet, rest)) {
        let (tag, behind) = take_u8(s)->Ok_0;
        lemma_u8_bijection(tag, behind, s);
        if tag == 1 {
            let ((src, dst, priority), after_head) = take_head(behind)->Ok_0;
            let (payload, after) = take_bytes(after_head)->Ok_0;
            let head = head_bytes(src, dst, priority);
            lemma_udp_bijection(src, dst, priority, payload, rest, behind);
            lemma_join_assoc(seq![1u8] + head, counted_bytes(payload), rest);
            lemma_join_assoc(seq![1u8], head, counted_bytes(payload) + rest);
        } else {
            lemma_tcp_bytes(behind, packet, rest);
        }
    }
}

/// Writes both ends of each range.
fn write_ranges(out: &mut Vec<u8>, ranges: &Vec<(u32, u32)>)
    ensures
        final(out)@ == old(out)@ + range_bytes(ranges@),
{
    let ghost before = out@;
    let mut i: usize = 0;
    assert(ranges@.skip(0) =~= ranges@);
    while i < ranges.len()
        invariant
            i <= ranges@.len(),
            out@ + range_bytes(ranges@.skip(i as int)) == before + range_bytes(ranges@),
        decreases ranges@.len() - i,
    {
        let ghost so_far = out@;
        let (left, right) = ranges[i];
        write_u32(out, left);
        write_u32(out, right);
        proof {
            let others = ranges@.skip(i as int);
            assert(others.skip(1) =~= ranges@.skip(i + 1));
            assert(others[0] == ranges@[i as int]);
            let a = be_bytes(left as nat, 4);
            let b = be_bytes(right as nat, 4);
            let c = range_bytes(others.skip(1));
            lemma_join_assoc(so_far, a, b);
            lemma_join_assoc(so_far, a + b, c);
        }
        i += 1;
    }
    assert(ranges@.skip(i as int) =~= Seq::<(u32, u32)>::empty());
    assert(out@ + Seq::<u8>::empty() =~= out@);
}

/// Writes both endpoints and the priority.
fn write_head(
    out: &mut Vec<u8>,
    src_ip: u32,
    src_port: u16,
    dst_ip: u32,
    dst_port: u16,
    priority: u64,
)
    ensures
        final(out)@ == old(out)@ + head_bytes(
            SocketAddrV4 { ip: Ipv4Addr(src_ip), port: src_port },
            SocketAddrV4 { ip: Ipv4Addr(dst_ip), port: dst_port },
            priority,
        ),
{
    write_u32(out, src_ip);
    write_u16(out, src_port);
    write_u32(out, dst_ip);
    write_u16(out, dst_port);
    write_u64(out, priority);
    assert(out@ =~= old(out)@ + head_bytes(
        SocketAddrV4 { ip: Ipv4Addr(src_ip), port: src_port },
        SocketAddrV4 { ip: Ipv4Addr(dst_ip), port: dst_port },
        priority,
    ));
}

/// Writes the fixed fields of a TCP header.
fn write_tcp_fixed(out: &mut Vec<u8>, flags: u8, seq: u32, ack: u32, window_size: u16)
    ensures
        final(out)@ == old(out)@ + tcp_fixed_bytes(flags, seq, ack, window_size),
{
    write_u8(out, flags);
    write_u32(out, seq);
    write_u32(out, ack);
    write_u16(out, window_size);
    assert(out@ =~= old(out)@ + tcp_fixed_bytes(flags, seq, ack, window_size));
}

/// Writes the optional fields of a TCP header behind the ranges.
fn write_tcp_options(
    out: &mut Vec<u8>,
    window_scale: Option<u8>,
    timestamp: Option<u32>,
    timestamp_echo: Option<u32>,
)
    ensures
        final(out)@ == old(out)@ + tcp_option_bytes(window_scale, timestamp, timestamp_echo),
{
    write_optional_u8(out, window_scale);
    write_optional_u32(out, timestamp);
    write_optional_u32(out, timestamp_echo);
    assert(out@ =~= old(out)@ + tcp_option_bytes(window_scale, timestamp, timestamp_echo));
}

/// Writes the optional ranges.
fn write_acks(out: &mut Vec<u8>, ranges: &Option<Vec<(u32, u32)>>) -> (written: Result<
    (),
    RemotePacketExchangeError,
>)
    requires
        ranges matches Some(list) ==> list@.len() <= MAX_TCP_SELECTIVE_ACKS,
    ensures
        written is Ok,
        final(out)@ == old(out)@ + ack_bytes(ranges_of(*ranges)),
{
    match ranges {
        Some(list) => {
            write_bool(out, true);
            write_len(out, list.len())?;
            write_ranges(out, list);
            assert(out@ =~= old(out)@ + ack_bytes(ranges_of(*ranges)));
        },
        None => {
            write_bool(out, false);
        },
    }
    Ok(())
}

fn too_many_acks_error(count: usize) -> (error: RemotePacketExchangeError)
    ensures
        error@ == ExchangeFailure::Backend(
            "TCP packet has "@ + decimal(count as nat) + " selective ACK ranges, exceeding limit "@
                + decimal(MAX_TCP_SELECTIVE_ACKS as nat),
        ),
{
    let mut text = String::new();
    text.append("TCP packet has ");
    push_decimal(&mut text, count as u64);
    text.append(" selective ACK ranges, exceeding limit ");
    push_decimal(&mut text, MAX_TCP_SELECTIVE_ACKS as u64);
    assert(text@ =~= "TCP packet has "@ + decimal(count as nat)
        + " selective ACK ranges, exceeding limit "@ + decimal(MAX_TCP_SELECTIVE_ACKS as nat));
    RemotePacketExchangeError::Backend(text)
}

/// Reads both endpoints and the priority.
fn read_head(reader: &mut Reader, context: &str) -> (head: Result<
    (SocketAddrV4, SocketAddrV4, u64),
    RemotePacketExchangeError,
>)
    requires
        old(reader).wf(),
    ensures
        final(reader).wf(),
        reads(head, final(reader)@, take_head(old(reader)@), context@),
{
    let src_ip: u32 = reader.read_u32(context)?;
    let src_port: u16 = reader.read_u16(context)?;
    let dst_ip: u32 = reader.read_u32(context)?;
    let dst_port: u16 = reader.read_u16(context)?;
    let priority: u64 = reader.read_u64(context)?;
    Ok(
        (
            SocketAddrV4 { ip: Ipv4Addr(src_ip), port: src_port },
            SocketAddrV4 { ip: Ipv4Addr(dst_ip), port: dst_port },
            priority,
        ),
    )
}

/// Reads a number of ranges.
fn read_ranges(reader: &mut Reader, count: usize, context: &str) -> (ranges: Result<
    Vec<(u32, u32)>,
    RemotePacketExchangeError,
>)
    requires
        old(reader).wf(),
    ensures
        final(reader).wf(),
        match (ranges, take_ranges(old(reader)@, count as nat)) {
            (Ok(list), Ok((expected, rest))) => list@ == expected && final(reader)@ == rest,
            (Err(e), Err(reason)) => e@ == decode_failure(context@, reason),
            _ => false,
        },
{
    let ghost whole = take_ranges(reader@, count as nat);
    let mut ranges: Vec<(u32, u32)> = Vec::new();
    let mut i: usize = 0;
    proof {
        if whole is Ok {
            assert(ranges@ + whole->Ok_0.0 =~= whole->Ok_0.0);
        }
    }
    while i < count
        invariant
            i <= count,
            reader.wf(),
            whole == take_ranges(old(reader)@, count as nat),
            match (whole, take_ranges(reader@, (count - i) as nat)) {
                (Ok((all, after)), Ok((others, rest))) => all == ranges@ + others && after == rest,
                (Err(e), Err(reason)) => e == reason,
                _ => false,
            },
        decreases count - i,
    {
        let ghost before = ranges@;
        let left: u32 = reader.read_u32(context)?;
        let right: u32 = reader.read_u32(context)?;
        ranges.push((left, right));
        proof {
            let rest = take_ranges(reader@, (count - i - 1) as nat);
            if rest is Ok {
                assert(before + (seq![(left, right)] + rest->Ok_0.0) =~= ranges@ + rest->Ok_0.0);
            }
        }
        i += 1;
    }
    assert(ranges@ + Seq::<(u32, u32)>::empty() =~= ranges@);
    Ok(ranges)
}

/// Reads the optional ranges.
fn read_acks(reader: &mut Reader, context: &str) -> (ranges: Result<
    Option<Vec<(u32, u32)>>,
    RemotePacketExchangeError,
>)
    requires
        old(reader).wf(),
    ensures
        final(reader).wf(),
        match (ranges, take_acks(old(reader)@)) {
            (Ok(found), Ok((expected, rest))) => ranges_of(found) == expected && final(reader)@
                == rest,
            (Err(e), Err(reason)) => e@ == decode_failure(context@, reason),
            _ => false,
        },
{
    if reader.read_bool(context)? {
        let count: usize = reader.read_len(context)?;
        if count > MAX_TCP_SELECTIVE_ACKS {
            let mut reason = String::new();
            reason.append("TCP selective ACK count ");
            push_decimal(&mut reason, count as u64);
            reason.append(" exceeds limit ");
            push_decimal(&mut reason, MAX_TCP_SELECTIVE_ACKS as u64);
            assert(reason@ =~= "TCP selective ACK count "@ + decimal(count as nat)
                + " exceeds limit "@ + decimal(MAX_TCP_SELECTIVE_ACKS as nat));
            return Err(decode_error(context, reason.as_str()));
        }
        let list = read_ranges(reader, count, context)?;
        Ok(Some(list))
    } else {
        Ok(None)
    }
}

impl WireSerializedPacket {
    /// Writes the packet. Of a packet that cannot be written, the fields in front of the refused one
    /// are written.
    pub fn encode_into(&self, out: &mut Vec<u8>) -> (written: Result<
        (),
        RemotePacketExchangeError,
    >)
        ensures
            match (written, self@.fault()) {
                (Ok(()), None) => final(out)@ == old(out)@ + self@.bytes(),
                (Err(e), Some(text)) => final(out)@ == old(out)@ + self@.bytes_before_fault() && e@
                    == ExchangeFailure::Backend(text),
                _ => false,
            },
    {
        let ghost before = out@;
        match self {
            WireSerializedPacket::Udp { src_ip, src_port, dst_ip, dst_port, priority, payload } => {
                write_u8(out, 1);
                write_head(out, *src_ip, *src_port, *dst_ip, *dst_port, *priority);
                assert(out@ =~= before + self@.bytes_before_fault());
                write_bytes(out, payload)?;
                assert(out@ =~= before + self@.bytes());
            },
            WireSerializedPacket::Tcp {
                src_ip,
                src_port,
                dst_ip,
                dst_port,
                priority,
                flags,
                seq,
                ack,
                window_size,
                selective_acks,
                window_scale,
                timestamp,
                timestamp_echo,
                payload,
            } => {
                let ghost head = head_bytes(
                    SocketAddrV4 { ip: Ipv4Addr(*src_ip), port: *src_port },
                    SocketAddrV4 { ip: Ipv4Addr(*dst_ip), port: *dst_port },
                    *priority,
                );
                let ghost fixed = tcp_fixed_bytes(*flags, *seq, *ack, *window_size);
                let ghost acks = ack_bytes(ranges_of(*selective_acks));
                let ghost options = tcp_option_bytes(*window_scale, *timestamp, *timestamp_echo);
                let ghost front = seq![2u8] + head + fixed;
                proof {
                    lemma_join_assoc(before, seq![2u8], head);
                    lemma_join_assoc(before, seq![2u8] + head, fixed);
                    lemma_join_assoc(before, front, acks);
                    lemma_join_assoc(before, front + acks, options);
                    lemma_join_assoc(before, front + acks + options, counted_bytes(payload@));
                    lemma_join_assoc(front + acks, options, counted_bytes(payload@));
                }
                write_u8(out, 2);
                assert(out@ =~= before + seq![2u8]);
                write_head(out, *src_ip, *src_port, *dst_ip, *dst_port, *priority);
                write_tcp_fixed(out, *flags, *seq, *ack, *window_size);
                assert(out@ == before + front);
                if let Some(list) = selective_acks {
                    if list.len() > MAX_TCP_SELECTIVE_ACKS {
                        return Err(too_many_acks_error(list.len()));
                    }
                }
                write_acks(out, selective_acks)?;
                write_tcp_options(out, *window_scale, *timestamp, *timestamp_echo);
                assert(out@ == before + self@.bytes_before_fault());
                write_bytes(out, payload)?;
                assert(out@ == before + self@.bytes());
            },
        }
        Ok(())
    }

    /// Reads a packet.
    pub fn decode_from(reader: &mut Reader, context: &str) -> (packet: Result<
        Self,
        RemotePacketExchangeError,
    >)
        requires
            old(reader).wf(),
        ensures
            final(reader).wf(),
            match (packet, take_packet(old(reader)@)) {
                (Ok(found), Ok((expected, rest))) => found@ == expected && final(reader)@ == rest,
                (Err(e), Err(reason)) => e@ == decode_failure(context@, reason),
                _ => false,
            },
    {
        match reader.read_u8(context)? {
            1 => {
                let (src, dst, priority) = read_head(reader, context)?;
                let payload = reader.read_bytes(context)?;
                Ok(
                    WireSerializedPacket::Udp {
                        src_ip: src.ip.0,
                        src_port: src.port,
                        dst_ip: dst.ip.0,
                        dst_port: dst.port,
                        priority,
                        payload,
                    },
                )
            },
            2 => {
                let (src, dst, priority) = read_head(reader, context)?;
                let flags: u8 = reader.read_u8(context)?;
                let seq: u32 = reader.read_u32(context)?;
                let ack: u32 = reader.read_u32(context)?;
                let window_size: u16 = reader.read_u16(context)?;
                let selective_acks = read_acks(reader, context)?;
                let window_scale = reader.read_optional_u8(context)?;
                let timestamp = reader.read_optional_u32(context)?;
                let timestamp_echo = reader.read_optional_u32(context)?;
                let payload = reader.read_bytes(context)?;
                Ok(
                    WireSerializedPacket::Tcp {
                        src_ip: src.ip.0,
                        src_port: src.port,
                        dst_ip: dst.ip.0,
                        dst_port: dst.port,
                        priority,
                        flags,
                        seq,
                        ack,
                        window_size,
                        selective_acks,
                        window_scale,
                        timestamp,
                        timestamp_echo,
                        payload,
                    },
                )
            },
            tag => {
                let mut reason = String::new();
                reason.append("unknown serialized packet tag ");
                push_decimal(&mut reason, tag as u64);
                assert(reason@ =~= "unknown serialized packet tag "@ + decimal(tag as nat));
                Err(decode_error(context, reason.as_str()))
            },
        }
    }
}

/// A packet travels unless it is one of the legacy TCP or a TCP packet without a header, and it
/// travels with its own addresses, priority, header fields and payload.
pub proof fn law_travelling_packets_keep_their_fields(packet: Packet)
    ensures
        serialized_form(packet) is Ok <==> (packet.protocol == IanaProtocol::Udp || (packet.protocol
            == IanaProtocol::Tcp && !packet.legacy_tcp && packet.tcp_header is Some)),
        packet.protocol == IanaProtocol::Tcp && packet.legacy_tcp ==> serialized_form(packet)
            == Err::<PacketModel, PacketSerializationError>(PacketSerializationError::LegacyTcp),
        packet.protocol == IanaProtocol::Tcp && !packet.legacy_tcp && packet.tcp_header is None
            ==> serialized_form(packet) == Err::<PacketModel, PacketSerializationError>(
            PacketSerializationError::MissingTcpHeader,
        ),
        serialized_form(packet) matches Ok(model) ==> (model is Udp <==> packet.protocol
            == IanaProtocol::Udp),
        serialized_form(packet) matches Ok(PacketModel::Udp { src, dst, priority, payload })
            ==> src == packet.src && dst == packet.dst && priority == packet.priority && payload
            == packet.payload_bytes(),
        serialized_form(packet) matches Ok(
            PacketModel::Tcp {
                src,
                dst,
                priority,
                flags,
                seq,
                ack,
                window_size,
                selective_acks,
                window_scale,
                timestamp,
                timestamp_echo,
                payload,
            },
        ) ==> packet.tcp_header matches Some(header) ==> {
            &&& src == header.src
            &&& dst == header.dst
            &&& priority == packet.priority
            &&& flags == header.flags.0
            &&& seq == header.seq
            &&& ack == header.ack
            &&& window_size == header.window_size
            &&& selective_acks is Some <==> header.selective_acks is Some
            &&& selective_acks matches Some(ranges) ==> header.selective_acks matches Some(list)
                ==> ranges == list@
            &&& window_scale == header.window_scale
            &&& timestamp == header.timestamp
            &&& timestamp_echo == header.timestamp_echo
            &&& payload == packet.payload_bytes()
        },
{
}

/// The fields of the wire format are those of the packet: addresses as numbers, ports, and all
/// others as they are.
pub proof fn law_wire_fields_are_those_of_the_packet(packet: SerializedPacket)
    ensures
        packet matches SerializedPacket::Udp { src, dst, priority, payload } ==> {
            &&& <WireSerializedPacket as vstd::std_specs::convert::FromSpec<
                SerializedPacket,
            >>::from_spec(packet) == (WireSerializedPacket::Udp {
                src_ip: src.ip.0,
                src_port: src.port,
                dst_ip: dst.ip.0,
                dst_port: dst.port,
                priority,
                payload,
            })
            &&& packet@ == (PacketModel::Udp { src, dst, priority, payload: payload@ })
        },
        packet matches SerializedPacket::Tcp {
            src,
            dst,
            priority,
            flags,
            seq,
            ack,
            window_size,
            selective_acks,
            window_scale,
            timestamp,
            timestamp_echo,
            payload,
        } ==> {
            &&& <WireSerializedPacket as vstd::std_specs::convert::FromSpec<
                SerializedPacket,
            >>::from_spec(packet) == (WireSerializedPacket::Tcp {
                src_ip: src.ip.0,
                src_port: src.port,
                dst_ip: dst.ip.0,
                dst_port: dst.port,
                priority,
                flags: flags.0,
                seq,
                ack,
                window_size,
                selective_acks,
                window_scale,
                timestamp,
                timestamp_echo,
                payload,
            })
            &&& packet@ == (PacketModel::Tcp {
                src,
                dst,
                priority,
                flags: flags.0,
                seq,
                ack,
                window_size,
                selective_acks: match selective_acks {
                    Some(list) => Some(list@),
                    None => None,
                },
                window_scale,
                timestamp,
                timestamp_echo,
                payload: payload@,
            })
        },
        <WireSerializedPacket as vstd::std_specs::convert::FromSpec<
            SerializedPacket,
        >>::from_spec(packet)@ == packet@,
{
}

/// A UDP packet goes as a 1, address and port of the sender, address and port of the receiver, the
/// priority, the length of the payload and the payload.
pub proof fn law_udp_layout(packet: PacketModel)
    ensures
        packet matches PacketModel::Udp { src, dst, priority, payload } ==> {
            let data = packet.bytes();
            &&& data.len() == 25 + payload.len()
            &&& data[0] == 1
            &&& data.subrange(1, 5) == be_bytes(src.ip.0 as nat, 4)
            &&& data.subrange(5, 7) == be_bytes(src.port as nat, 2)
            &&& data.subrange(7, 11) == be_bytes(dst.ip.0 as nat, 4)
            &&& data.subrange(11, 13) == be_bytes(dst.port as nat, 2)
            &&& data.subrange(13, 21) == be_bytes(priority as nat, 8)
            &&& data.subrange(21, 25) == be_bytes(payload.len(), 4)
            &&& data.skip(25) == payload
        },
{
    if let PacketModel::Udp { src, dst, priority, payload } = packet {
        let data = packet.bytes();
        let front = seq![1u8] + head_bytes(src, dst, priority);
        lemma_head_layout(1, src, dst, priority);
        lemma_be_bytes_len(payload.len(), 4);
        assert(data == front + counted_bytes(payload));
        lemma_front_is_kept(front, counted_bytes(payload));
        assert(data.subrange(21, 25) =~= be_bytes(payload.len(), 4));
        assert(data.skip(25) =~= payload);
    }
}

proof fn lemma_head_layout(tag: u8, src: SocketAddrV4, dst: SocketAddrV4, priority: u64)
    ensures
        ({
            let front = seq![tag] + head_bytes(src, dst, priority);
            &&& front.len() == 21
            &&& front[0] == tag
            &&& front.subrange(1, 5) == be_bytes(src.ip.0 as nat, 4)
            &&& front.subrange(5, 7) == be_bytes(src.port as nat, 2)
            &&& front.subrange(7, 11) == be_bytes(dst.ip.0 as nat, 4)
            &&& front.subrange(11, 13) == be_bytes(dst.port as nat, 2)
            &&& front.subrange(13, 21) == be_bytes(priority as nat, 8)
        }),
{
    broadcast use lemma_be_bytes_len;

    let front = seq![tag] + head_bytes(src, dst, priority);
    assert(front.subrange(1, 5) =~= be_bytes(src.ip.0 as nat, 4));
    assert(front.subrange(5, 7) =~= be_bytes(src.port as nat, 2));
    assert(front.subrange(7, 11) =~= be_bytes(dst.ip.0 as nat, 4));
    assert(front.subrange(11, 13) =~= be_bytes(dst.port as nat, 2));
    assert(front.subrange(13, 21) =~= be_bytes(priority as nat, 8));
}

proof fn lemma_front_is_kept(front: Seq<u8>, back: Seq<u8>)
    ensures
        forall|i: int| 0 <= i < front.len() ==> #[trigger] (front + back)[i] == front[i],
        forall|i: int, j: int|
            0 <= i <= j <= front.len() ==> #[trigger] (front + back).subrange(i, j)
                == front.subrange(i, j),
{
    assert forall|i: int, j: int| 0 <= i <= j <= front.len() implies #[trigger] (front
        + back).subrange(i, j) == front.subrange(i, j) by {
        assert((front + back).subrange(i, j) =~= front.subrange(i, j));
    }
}

/// A TCP packet begins as a UDP packet does, with a 2 in place of the 1, and then holds flags,
/// sequence number, acknowledgement and window.
pub proof fn law_tcp_head_layout(packet: PacketModel)
    ensures
        packet matches PacketModel::Tcp {
            src,
            dst,
            priority,
            flags,
            seq,
            ack,
            window_size,
            ..
        } ==> {
            let data = packet.bytes();
            &&& data.len() >= 32
            &&& data[0] == 2
            &&& data.subrange(1, 5) == be_bytes(src.ip.0 as nat, 4)
            &&& data.subrange(5, 7) == be_bytes(src.port as nat, 2)
            &&& data.subrange(7, 11) == be_bytes(dst.ip.0 as nat, 4)
            &&& data.subrange(11, 13) == be_bytes(dst.port as nat, 2)
            &&& data.subrange(13, 21) == be_bytes(priority as nat, 8)
            &&& data[21] == flags
            &&& data.subrange(22, 26) == be_bytes(seq as nat, 4)
            &&& data.subrange(26, 30) == be_bytes(ack as nat, 4)
            &&& data.subrange(30, 32) == be_bytes(window_size as nat, 2)
        },
{
    if let PacketModel::Tcp {
        src,
        dst,
        priority,
        flags,
        seq,
        ack,
        window_size,
        selective_acks,
        window_scale,
        timestamp,
        timestamp_echo,
        payload,
    } = packet {
        let head = seq![2u8] + head_bytes(src, dst, priority);
        let fixed = tcp_fixed_bytes(flags, seq, ack, window_size);
        let front = head + fixed;
        let acks = ack_bytes(selective_acks);
        let tail = tcp_tail_bytes(window_scale, timestamp, timestamp_echo, payload);
        lemma_head_layout(2, src, dst, priority);
        lemma_be_bytes_len(seq as nat, 4);
        lemma_be_bytes_len(ack as nat, 4);
        lemma_be_bytes_len(window_size as nat, 2);
        lemma_join_assoc(front, acks, tail);
        assert(packet.bytes() == front + (acks + tail));
        lemma_front_is_kept(head, fixed);
        lemma_front_is_kept(front, acks + tail);
        assert(front.subrange(22, 26) =~= be_bytes(seq as nat, 4));
        assert(front.subrange(26, 30) =~= be_bytes(ack as nat, 4));
        assert(front.subrange(30, 32) =~= be_bytes(window_size as nat, 2));
    }
}

/// Behind that a TCP packet holds the ranges, the window scale, the timestamp, its echo, and the
/// payload behind its length. A 1 stands in front of what is there, a 0 in place of what is not,
/// and the ranges stand behind their number.
pub proof fn law_tcp_tail_layout(packet: PacketModel)
    ensures
        packet matches PacketModel::Tcp {
            selective_acks,
            window_scale,
            timestamp,
            timestamp_echo,
            payload,
            ..
        } ==> packet.bytes().skip(32) == (match selective_acks {
            Some(ranges) => seq![1u8] + be_bytes(ranges.len(), 4) + range_bytes(ranges),
            None => seq![0u8],
        }) + (match window_scale {
            Some(scale) => seq![1u8, scale],
            None => seq![0u8],
        }) + (match timestamp {
            Some(stamp) => seq![1u8] + be_bytes(stamp as nat, 4),
            None => seq![0u8],
        }) + (match timestamp_echo {
            Some(echo) => seq![1u8] + be_bytes(echo as nat, 4),
            None => seq![0u8],
        }) + be_bytes(payload.len(), 4) + payload,
{
    if let PacketModel::Tcp {
        src,
        dst,
        priority,
        flags,
        seq,
        ack,
        window_size,
        selective_acks,
        window_scale,
        timestamp,
        timestamp_echo,
        payload,
    } = packet {
        let front = seq![2u8] + head_bytes(src, dst, priority) + tcp_fixed_bytes(
            flags,
            seq,
            ack,
            window_size,
        );
        let acks = ack_bytes(selective_acks);
        let scale = optional_u8_bytes(window_scale);
        let stamp = optional_u32_bytes(timestamp);
        let echo = optional_u32_bytes(timestamp_echo);
        let count = be_bytes(payload.len(), 4);
        let tail = tcp_tail_bytes(window_scale, timestamp, timestamp_echo, payload);
        lemma_head_layout(2, src, dst, priority);
        assert(front.len() == 32) by {
            lemma_be_bytes_len(seq as nat, 4);
            lemma_be_bytes_len(ack as nat, 4);
            lemma_be_bytes_len(window_size as nat, 2);
        }
        lemma_join_assoc(front, acks, tail);
        assert(packet.bytes() == front + (acks + tail));
        assert(packet.bytes().skip(32) =~= acks + tail);
        assert(tail == scale + stamp + echo + (count + payload));
        lemma_join_assoc(acks, scale, stamp);
        lemma_join_assoc(acks, scale + stamp, echo);
        lemma_join_assoc(acks, scale + stamp + echo, count + payload);
        lemma_join_assoc(acks + scale + stamp + echo, count, payload);
        assert(acks == match selective_acks {
            Some(ranges) => seq![1u8] + be_bytes(ranges.len(), 4) + range_bytes(ranges),
            None => seq![0u8],
        });
        assert(scale =~= match window_scale {
            Some(value) => seq![1u8, value],
            None => seq![0u8],
        });
        assert(stamp == match timestamp {
            Some(value) => seq![1u8] + be_bytes(value as nat, 4),
            None => seq![0u8],
        });
        assert(echo == match timestamp_echo {
            Some(value) => seq![1u8] + be_bytes(value as nat, 4),
            None => seq![0u8],
        });
    }
}

/// Each range takes eight bytes, its left end in front of its right end, in the order of the list.
pub proof fn law_ranges_stand_one_after_the_other(ranges: Seq<(u32, u32)>, i: int)
    requires
        0 <= i < ranges.len(),
    ensures
        range_bytes(ranges).len() == 8 * ranges.len(),
        range_bytes(ranges).subrange(8 * i, 8 * i + 4) == be_bytes(ranges[i].0 as nat, 4),
        range_bytes(ranges).subrange(8 * i + 4, 8 * i + 8) == be_bytes(ranges[i].1 as nat, 4),
    decreases ranges.len(),
{
    broadcast use lemma_be_bytes_len;

    let others = ranges.skip(1);
    let all = range_bytes(ranges);
    lemma_range_bytes_len(ranges);
    lemma_range_bytes_len(others);
    if i > 0 {
        law_ranges_stand_one_after_the_other(others, i - 1);
        assert(others[i - 1] == ranges[i]);
        let rest = range_bytes(others);
        assert(all.subrange(8 * i, 8 * i + 4) =~= rest.subrange(8 * (i - 1), 8 * (i - 1) + 4));
        assert(all.subrange(8 * i + 4, 8 * i + 8) =~= rest.subrange(
            8 * (i - 1) + 4,
            8 * (i - 1) + 8,
        ));
    } else {
        assert(all.subrange(8 * i, 8 * i + 4) =~= be_bytes(ranges[i].0 as nat, 4));
        assert(all.subrange(8 * i + 4, 8 * i + 8) =~= be_bytes(ranges[i].1 as nat, 4));
    }
}

proof fn lemma_range_bytes_len(ranges: Seq<(u32, u32)>)
    ensures
        range_bytes(ranges).len() == 8 * ranges.len(),
    decreases ranges.len(),
{
    broadcast use lemma_be_bytes_len;

    if ranges.len() > 0 {
        lemma_range_bytes_len(ranges.skip(1));
    }
}

/// A packet can be written exactly where it has at most 4 ranges and a payload of at most 16 MiB.
pub proof fn law_packets_that_can_be_written(packet: PacketModel)
    ensures
        packet matches PacketModel::Udp { payload, .. } ==> (packet.fault() is None <==> payload.len()
            <= 0x100_0000),
        packet matches PacketModel::Tcp { selective_acks, payload, .. } ==> (packet.fault() is None
            <==> payload.len() <= 0x100_0000 && (selective_acks matches Some(ranges)
            ==> ranges.len() <= 4)),
{
}

/// What is written of a packet that cannot be written is the front of what would be written.
pub proof fn law_fault_leaves_a_front(packet: PacketModel)
    ensures
        packet.bytes_before_fault().len() <= packet.bytes().len(),
        packet.bytes().take(packet.bytes_before_fault().len() as int)
            == packet.bytes_before_fault(),
{
    let whole = packet.bytes();
    let front = packet.bytes_before_fault();
    if let PacketModel::Tcp {
        src,
        dst,
        priority,
        flags,
        seq,
        ack,
        window_size,
        selective_acks,
        window_scale,
        timestamp,
        timestamp_echo,
        payload,
    } = packet {
        let fixed = seq![2u8] + head_bytes(src, dst, priority) + tcp_fixed_bytes(
            flags,
            seq,
            ack,
            window_size,
        );
        let acks = ack_bytes(selective_acks);
        let options = tcp_option_bytes(window_scale, timestamp, timestamp_echo);
        let counted = counted_bytes(payload);
        lemma_join_assoc(fixed + acks, options, counted);
        assert(whole == fixed + acks + options + counted);
        assert(whole.take(front.len() as int) =~= front);
    } else {
        assert(whole.take(front.len() as int) =~= front);
    }
}

/// The payload of a packet is its own, and only a TCP packet has ranges.
pub proof fn law_payload_and_ranges_of_a_packet(packet: PacketModel)
    ensures
        packet matches PacketModel::Udp { payload, .. } ==> packet.payload_of() == payload
            && packet.ack_range_count() == 0,
        packet matches PacketModel::Tcp { payload, selective_acks, .. } ==> packet.payload_of()
            == payload && packet.ack_range_count() == (match selective_acks {
            Some(ranges) => ranges.len(),
            None => 0,
        }),
{
}

/// Too many ranges are what is said of a packet first, then its payload.
pub proof fn law_what_is_said_of_packets(packet: PacketModel)
    ensures
        packet.ack_range_count() > 4 ==> packet.fault() == Some(
            "TCP packet has "@ + decimal(packet.ack_range_count())
                + " selective ACK ranges, exceeding limit "@ + decimal(4),
        ),
        packet.ack_range_count() <= 4 && packet.payload_of().len() > 0x100_0000 ==> packet.fault()
            == Some(payload_too_large(packet.payload_of().len())),
{
}

} // verus!
