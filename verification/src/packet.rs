//! Network packets, as far as sending them to another shard reads and builds them.

use vstd::prelude::*;

use crate::bytes::{contents, join_parts, joined, law_parts_are_joined_in_order};
use crate::net::SocketAddrV4;

verus! {

/// The flags of a TCP header. Bits without a meaning are kept.
#[derive(Clone, Copy, Debug, PartialEq, Eq, Structural)]
pub struct TcpFlags(pub u8);

impl TcpFlags {
    /// The flags as bits.
    pub fn bits(&self) -> (bits: u8)
        ensures
            bits == self.0,
    {
        self.0
    }

    /// The flags with the given bits.
    pub fn from_bits_retain(bits: u8) -> (flags: Self)
        ensures
            flags == TcpFlags(bits),
    {
        TcpFlags(bits)
    }
}

/// The transport protocol of a packet.
#[derive(Clone, Copy, Debug, PartialEq, Eq, Structural)]
pub enum IanaProtocol {
    Udp,
    Tcp,
}

/// An IPv4 TCP header.
#[derive(Debug, PartialEq, Eq)]
pub struct TcpHeader {
    pub src: SocketAddrV4,
    pub dst: SocketAddrV4,
    pub flags: TcpFlags,
    pub seq: u32,
    pub ack: u32,
    pub window_size: u16,
    pub selective_acks: Option<Vec<(u32, u32)>>,
    pub window_scale: Option<u8>,
    pub timestamp: Option<u32>,
    pub timestamp_echo: Option<u32>,
}

/// The most selective-acknowledgement ranges that a header holds.
pub const MAX_HEADER_SELECTIVE_ACKS: usize = 4;

impl TcpHeader {
    /// The header holds no more selective-acknowledgement ranges than it has room for.
    pub open spec fn wf(&self) -> bool {
        self.selective_acks matches Some(ranges) ==> ranges@.len() <= MAX_HEADER_SELECTIVE_ACKS
    }
}

/// A network packet. Its payload may lie in several chunks.
#[derive(Debug, PartialEq, Eq)]
pub struct Packet {
    pub protocol: IanaProtocol,
    pub src: SocketAddrV4,
    pub dst: SocketAddrV4,
    pub priority: u64,
    /// Whether the packet is TCP of the older implementation, which has no header of this form.
    pub legacy_tcp: bool,
    pub tcp_header: Option<TcpHeader>,
    pub payload: Vec<Vec<u8>>,
}

impl Packet {
    /// A UDP packet.
    pub fn new_ipv4_udp(
        src: SocketAddrV4,
        dst: SocketAddrV4,
        payload: Vec<u8>,
        priority: u64,
    ) -> (packet: Self)
        ensures
            packet.protocol == IanaProtocol::Udp,
            packet.src == src,
            packet.dst == dst,
            packet.priority == priority,
            !packet.legacy_tcp,
            packet.tcp_header is None,
            packet.payload@ == seq![payload],
    {
        let mut chunks: Vec<Vec<u8>> = Vec::new();
        chunks.push(payload);
        assert(chunks@ =~= seq![payload]);
        Packet {
            protocol: IanaProtocol::Udp,
            src,
            dst,
            priority,
            legacy_tcp: false,
            tcp_header: None,
            payload: chunks,
        }
    }

    /// A TCP packet.
    pub fn new_ipv4_tcp(header: TcpHeader, payload: Vec<Vec<u8>>, priority: u64) -> (packet: Self)
        requires
            header.wf(),
        ensures
            packet.protocol == IanaProtocol::Tcp,
            packet.src == header.src,
            packet.dst == header.dst,
            packet.priority == priority,
            !packet.legacy_tcp,
            packet.tcp_header == Some(header),
            packet.payload == payload,
    {
        Packet {
            protocol: IanaProtocol::Tcp,
            src: header.src,
            dst: header.dst,
            priority,
            legacy_tcp: false,
            tcp_header: Some(header),
            payload,
        }
    }

    /// The payload, chunk after chunk.
    pub open spec fn payload_bytes(&self) -> Seq<u8> {
        joined(contents(self.payload@), self.payload@.len() as int)
    }
}

/// The payload of a packet as one byte string.
pub fn packet_payload_bytes(packet: &Packet) -> (payload: Vec<u8>)
    ensures
        payload@ == packet.payload_bytes(),
{
    join_parts(&packet.payload)
}

/// The payload of a packet is all its chunks, one after the other: none where there is no chunk, and
/// one more chunk adds its bytes at the end.
pub proof fn law_payload_is_all_chunks(packet: Packet, longer: Packet, chunk: Vec<u8>)
    requires
        longer.payload@ == packet.payload@.push(chunk),
    ensures
        longer.payload_bytes() == packet.payload_bytes() + chunk@,
        packet.payload@.len() == 0 ==> packet.payload_bytes() == Seq::<u8>::empty(),
{
    law_parts_are_joined_in_order(packet.payload@, chunk);
}

/// A header is sound exactly where it has at most four ranges.
pub proof fn law_sound_headers(header: TcpHeader)
    ensures
        header.wf() <==> (header.selective_acks matches Some(ranges) ==> ranges@.len() <= 4),
{
}

} // verus!
