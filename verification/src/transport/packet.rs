//! Packets in the form in which they travel between shards, and their byte format.

use vstd::prelude::*;
use vstd::string::*;

use crate::bytes::{
    be_bytes, copy_range, get_be, get_be_u16, get_be_u32, lemma_be_bytes_len,
    lemma_be_value_round_trip, lemma_byte_capacities, lemma_join_assoc, lemma_number_at, lemma_number_between, number_at,
    push_all, push_be,
};
use crate::net::Ipv4Addr;
use crate::text::{decimal, push_decimal};

verus! {

/// A network packet on its way from one shard to another.
#[derive(Debug, PartialEq, Eq)]
pub enum SerializedPacket {
    Udp {
        src_ip: Ipv4Addr,
        dst_ip: Ipv4Addr,
        src_port: u16,
        dst_port: u16,
        priority: u64,
        payload: Vec<u8>,
    },
    Tcp {
        src_ip: Ipv4Addr,
        dst_ip: Ipv4Addr,
        src_port: u16,
        dst_port: u16,
        flags: u8,
        seq: u32,
        ack: u32,
        window_size: u16,
        window_scale: Option<u8>,
        selective_acks: Vec<(u32, u32)>,
        timestamp: Option<u32>,
        timestamp_echo: Option<u32>,
        priority: u64,
        payload: Vec<u8>,
    },
}

/// What a packet holds, with its variable parts as sequences.
#[verifier::ext_equal]
pub enum PacketModel {
    Udp {
        src_ip: Ipv4Addr,
        dst_ip: Ipv4Addr,
        src_port: u16,
        dst_port: u16,
        priority: u64,
        payload: Seq<u8>,
    },
    Tcp {
        src_ip: Ipv4Addr,
        dst_ip: Ipv4Addr,
        src_port: u16,
        dst_port: u16,
        flags: u8,
        seq: u32,
        ack: u32,
        window_size: u16,
        window_scale: Option<u8>,
        selective_acks: Seq<(u32, u32)>,
        timestamp: Option<u32>,
        timestamp_echo: Option<u32>,
        priority: u64,
        payload: Seq<u8>,
    },
}

/// Why bytes are no packet or no batch of packets.
#[derive(Clone, Copy, Debug, PartialEq, Eq, Structural)]
pub enum PacketSerializationError {
    EmptyData,
    Truncated,
    UnknownTag(u8),
    TooManySackBlocks(usize),
    LegacyTcp,
}

impl PacketSerializationError {
    /// The message for users.
    pub open spec fn message(self) -> Seq<char> {
        match self {
            PacketSerializationError::EmptyData => "Empty data"@,
            PacketSerializationError::Truncated => "Truncated data"@,
            PacketSerializationError::UnknownTag(tag) => "Unknown packet tag "@ + decimal(
                tag as nat,
            ),
            PacketSerializationError::TooManySackBlocks(count) => "Too many SACK blocks: "@
                + decimal(count as nat),
            PacketSerializationError::LegacyTcp =>
                "Legacy TCP is not supported for distributed mode; use experimental.use_new_tcp=true"@,
        }
    }

    /// The message as a string.
    pub fn to_string(&self) -> (text: String)
        ensures
            text@ == self.message(),
    {
        let mut text = String::new();
        match *self {
            PacketSerializationError::EmptyData => {
                text.append("Empty data");
            },
            PacketSerializationError::Truncated => {
                text.append("Truncated data");
            },
            PacketSerializationError::UnknownTag(tag) => {
                text.append("Unknown packet tag ");
                push_decimal(&mut text, tag as u64);
            },
            PacketSerializationError::TooManySackBlocks(count) => {
                text.append("Too many SACK blocks: ");
                push_decimal(&mut text, count as u64);
            },
            PacketSerializationError::LegacyTcp => {
                text.append(
                    "Legacy TCP is not supported for distributed mode; use experimental.use_new_tcp=true",
                );
            },
        }
        assert(text@ =~= self.message());
        text
    }
}

/// The largest number of selective-acknowledgement ranges that a packet is read with.
pub const MAX_SACK_BLOCKS: usize = 64;

impl View for SerializedPacket {
    type V = PacketModel;

    open spec fn view(&self) -> PacketModel {
        match *self {
            SerializedPacket::Udp { src_ip, dst_ip, src_port, dst_port, priority, payload } => {
                PacketModel::Udp {
                    src_ip,
                    dst_ip,
                    src_port,
                    dst_port,
                    priority,
                    payload: payload@,
                }
            },
            SerializedPacket::Tcp {
                src_ip,
                dst_ip,
                src_port,
                dst_port,
                flags,
                seq,
                ack,
                window_size,
                window_scale,
                selective_acks,
                timestamp,
                timestamp_echo,
                priority,
                payload,
            } => {
                PacketModel::Tcp {
                    src_ip,
                    dst_ip,
                    src_port,
                    dst_port,
                    flags,
                    seq,
                    ack,
                    window_size,
                    window_scale,
                    selective_acks: selective_acks@,
                    timestamp,
                    timestamp_echo,
                    priority,
                    payload: payload@,
                }
            },
        }
    }
}

impl Clone for SerializedPacket {
    fn clone(&self) -> (copy: Self)
        ensures
            copy@ == self@,
    {
        match self {
            SerializedPacket::Udp { src_ip, dst_ip, src_port, dst_port, priority, payload } => {
                SerializedPacket::Udp {
                    src_ip: *src_ip,
                    dst_ip: *dst_ip,
                    src_port: *src_port,
                    dst_port: *dst_port,
                    priority: *priority,
                    payload: payload.clone(),
                }
            },
            SerializedPacket::Tcp {
                src_ip,
                dst_ip,
                src_port,
                dst_port,
                flags,
                seq,
                ack,
                window_size,
                window_scale,
                selective_acks,
                timestamp,
                timestamp_echo,
                priority,
                payload,
            } => {
                SerializedPacket::Tcp {
                    src_ip: *src_ip,
                    dst_ip: *dst_ip,
                    src_port: *src_port,
                    dst_port: *dst_port,
                    flags: *flags,
                    seq: *seq,
                    ack: *ack,
                    window_size: *window_size,
                    window_scale: *window_scale,
                    selective_acks: copy_pairs(selective_acks),
                    timestamp: *timestamp,
                    timestamp_echo: *timestamp_echo,
                    priority: *priority,
                    payload: payload.clone(),
                }
            },
        }
    }
}

/// The same ranges in a list of their own.
pub fn copy_pairs(pairs: &Vec<(u32, u32)>) -> (copy: Vec<(u32, u32)>)
    ensures
        copy@ == pairs@,
{
    let mut copy: Vec<(u32, u32)> = Vec::new();
    let mut i: usize = 0;
    while i < pairs.len()
        invariant
            i <= pairs.len(),
            copy@ == pairs@.take(i as int),
        decreases pairs.len() - i,
    {
        copy.push(pairs[i]);
        assert(pairs@.take(i + 1) =~= pairs@.take(i as int).push(pairs@[i as int]));
        i += 1;
    }
    assert(pairs@.take(i as int) =~= pairs@);
    copy
}

/// A presence byte and, if present, the byte.
pub open spec fn optional_u8_bytes(value: Option<u8>) -> Seq<u8> {
    match value {
        Some(v) => seq![1u8, v],
        None => seq![0u8],
    }
}

/// A presence byte and, if present, four bytes.
pub open spec fn optional_u32_bytes(value: Option<u32>) -> Seq<u8> {
    match value {
        Some(v) => seq![1u8] + be_bytes(v as nat, 4),
        None => seq![0u8],
    }
}

/// Both ends of each range, one range after the other.
pub open spec fn sack_bytes(ranges: Seq<(u32, u32)>) -> Seq<u8>
    decreases ranges.len(),
{
    if ranges.len() == 0 {
        Seq::empty()
    } else {
        sack_bytes(ranges.drop_last()) + (be_bytes(ranges.last().0 as nat, 4) + be_bytes(
            ranges.last().1 as nat,
            4,
        ))
    }
}

/// Addresses and ports, which stand at the front of every packet behind its tag.
pub open spec fn endpoint_bytes(
    src_ip: Ipv4Addr,
    dst_ip: Ipv4Addr,
    src_port: u16,
    dst_port: u16,
) -> Seq<u8> {
    src_ip.octets() + dst_ip.octets() + be_bytes(src_port as nat, 2) + be_bytes(dst_port as nat, 2)
}

/// A length in four bytes, then the bytes.
pub open spec fn counted_bytes(payload: Seq<u8>) -> Seq<u8> {
    be_bytes(payload.len(), 4) + payload
}

/// The fields of a TCP header that always take the same room.
pub open spec fn tcp_fixed_bytes(flags: u8, seq: u32, ack: u32, window_size: u16) -> Seq<u8> {
    seq![flags] + be_bytes(seq as nat, 4) + be_bytes(ack as nat, 4) + be_bytes(
        window_size as nat,
        2,
    )
}

impl PacketModel {
    /// The byte format of a packet. All numbers stand most significant byte first; a count or a
    /// length is cut to its lowest 32 bits.
    pub open spec fn bytes(self) -> Seq<u8> {
        match self {
            PacketModel::Udp { src_ip, dst_ip, src_port, dst_port, priority, payload } => {
                seq![1u8] + endpoint_bytes(src_ip, dst_ip, src_port, dst_port) + be_bytes(
                    priority as nat,
                    8,
                ) + counted_bytes(payload)
            },
            PacketModel::Tcp {
                src_ip,
                dst_ip,
                src_port,
                dst_port,
                flags,
                seq,
                ack,
                window_size,
                window_scale,
                selective_acks,
                timestamp,
                timestamp_echo,
                priority,
                payload,
            } => {
                seq![2u8] + endpoint_bytes(src_ip, dst_ip, src_port, dst_port) + tcp_fixed_bytes(
                    flags,
                    seq,
                    ack,
                    window_size,
                ) + optional_u8_bytes(window_scale) + be_bytes(selective_acks.len(), 4)
                    + sack_bytes(selective_acks) + optional_u32_bytes(timestamp)
                    + optional_u32_bytes(timestamp_echo) + be_bytes(priority as nat, 8)
                    + counted_bytes(payload)
            },
        }
    }

    /// What the packet carries.
    pub open spec fn payload_bytes(self) -> Seq<u8> {
        match self {
            PacketModel::Udp { payload, .. } => payload,
            PacketModel::Tcp { payload, .. } => payload,
        }
    }

    /// Packets whose counts fit the format: what is written can be read back.
    pub open spec fn fits(self) -> bool {
        match self {
            PacketModel::Udp { payload, .. } => payload.len() <= u32::MAX,
            PacketModel::Tcp { selective_acks, payload, .. } => {
                &&& selective_acks.len() <= MAX_SACK_BLOCKS
                &&& payload.len() <= u32::MAX
            },
        }
    }
}

/// An optional number of four bytes behind its presence byte at `pos`, and the position behind it.
/// Any presence byte but 1 means absence, and so does the end of the data. `None` where the bytes
/// end inside the number.
pub open spec fn optional_u32_at(data: Seq<u8>, pos: int) -> Option<(Option<u32>, int)> {
    if data.len() > pos && data[pos] == 1 {
        if data.len() < pos + 5 {
            None
        } else {
            Some((Some(number_at(data, pos + 1, 4) as u32), pos + 5))
        }
    } else {
        Some((None, pos + 1))
    }
}

/// The `count` ranges that stand from `pos` on.
pub open spec fn sacks_at(data: Seq<u8>, pos: int, count: nat) -> Seq<(u32, u32)> {
    Seq::new(
        count,
        |i: int|
            (number_at(data, pos + 8 * i, 4) as u32, number_at(data, pos + 8 * i + 4, 4) as u32),
    )
}

/// The UDP packet that bytes with the UDP tag stand for.
pub open spec fn parse_udp(data: Seq<u8>) -> Result<PacketModel, PacketSerializationError> {
    if data.len() < 25 || data.len() < 25 + number_at(data, 21, 4) {
        Err(PacketSerializationError::Truncated)
    } else {
        Ok(
            PacketModel::Udp {
                src_ip: Ipv4Addr(number_at(data, 1, 4) as u32),
                dst_ip: Ipv4Addr(number_at(data, 5, 4) as u32),
                src_port: number_at(data, 9, 2) as u16,
                dst_port: number_at(data, 11, 2) as u16,
                priority: number_at(data, 13, 8) as u64,
                payload: data.subrange(25, 25int + number_at(data, 21, 4)),
            },
        )
    }
}

/// Where the selective-acknowledgement count stands: behind the optional window scale.
pub open spec fn sack_count_pos(data: Seq<u8>) -> int {
    if data[24] == 1 {
        26
    } else {
        25
    }
}

/// The TCP packet that bytes with the TCP tag stand for.
pub open spec fn parse_tcp(data: Seq<u8>) -> Result<PacketModel, PacketSerializationError> {
    let count_pos = sack_count_pos(data);
    let count = number_at(data, count_pos, 4);
    let sacks_end = count_pos + 4 + 8 * count;
    if data.len() < 30 || data.len() < count_pos + 4 {
        Err(PacketSerializationError::Truncated)
    } else if count > MAX_SACK_BLOCKS {
        Err(PacketSerializationError::TooManySackBlocks(count as usize))
    } else if data.len() < sacks_end {
        Err(PacketSerializationError::Truncated)
    } else {
        match optional_u32_at(data, sacks_end) {
            None => Err(PacketSerializationError::Truncated),
            Some((timestamp, after_timestamp)) => match optional_u32_at(data, after_timestamp) {
                None => Err(PacketSerializationError::Truncated),
                Some((timestamp_echo, pos)) => {
                    if data.len() < pos + 12 || data.len() < pos + 12 + number_at(
                        data,
                        pos + 8,
                        4,
                    ) {
                        Err(PacketSerializationError::Truncated)
                    } else {
                        Ok(
                            PacketModel::Tcp {
                                src_ip: Ipv4Addr(number_at(data, 1, 4) as u32),
                                dst_ip: Ipv4Addr(number_at(data, 5, 4) as u32),
                                src_port: number_at(data, 9, 2) as u16,
                                dst_port: number_at(data, 11, 2) as u16,
                                flags: data[13],
                                seq: number_at(data, 14, 4) as u32,
                                ack: number_at(data, 18, 4) as u32,
                                window_size: number_at(data, 22, 2) as u16,
                                window_scale: if data[24] == 1 {
                                    Some(data[25])
                                } else {
                                    None
                                },
                                selective_acks: sacks_at(data, count_pos + 4, count),
                                timestamp,
                                timestamp_echo,
                                priority: number_at(data, pos, 8) as u64,
                                payload: data.subrange(
                                    pos + 12,
                                    pos + 12 + number_at(data, pos + 8, 4),
                                ),
                            },
                        )
                    }
                },
            },
        }
    }
}

/// The packet that bytes stand for, or why they stand for none. Bytes behind the packet are
/// allowed.
pub open spec fn parse_packet(data: Seq<u8>) -> Result<PacketModel, PacketSerializationError> {
    if data.len() == 0 {
        Err(PacketSerializationError::EmptyData)
    } else if data[0] == 1 {
        parse_udp(data)
    } else if data[0] == 2 {
        parse_tcp(data)
    } else {
        Err(PacketSerializationError::UnknownTag(data[0]))
    }
}

/// Appends what `optional_u32_bytes` says.
fn push_optional_u32(buf: &mut Vec<u8>, value: Option<u32>)
    ensures
        final(buf)@ == old(buf)@ + optional_u32_bytes(value),
{
    match value {
        Some(v) => {
            buf.push(1);
            push_be(buf, v as u64, 4);
        },
        None => {
            buf.push(0);
        },
    }
    assert(buf@ =~= old(buf)@ + optional_u32_bytes(value));
}

/// Appends addresses and ports.
fn push_endpoints(
    buf: &mut Vec<u8>,
    src_ip: Ipv4Addr,
    dst_ip: Ipv4Addr,
    src_port: u16,
    dst_port: u16,
)
    ensures
        final(buf)@ == old(buf)@ + endpoint_bytes(src_ip, dst_ip, src_port, dst_port),
{
    push_be(buf, src_ip.0 as u64, 4);
    push_be(buf, dst_ip.0 as u64, 4);
    push_be(buf, src_port as u64, 2);
    push_be(buf, dst_port as u64, 2);
    assert(buf@ =~= old(buf)@ + endpoint_bytes(src_ip, dst_ip, src_port, dst_port));
}

/// Appends a length and the bytes.
fn push_counted(buf: &mut Vec<u8>, payload: &Vec<u8>)
    ensures
        final(buf)@ == old(buf)@ + counted_bytes(payload@),
{
    push_be(buf, payload.len() as u64, 4);
    push_all(buf, payload);
    assert(buf@ =~= old(buf)@ + counted_bytes(payload@));
}

/// Appends both ends of each range.
fn push_sacks(buf: &mut Vec<u8>, ranges: &Vec<(u32, u32)>)
    ensures
        final(buf)@ == old(buf)@ + sack_bytes(ranges@),
{
    let ghost before = buf@;
    let mut i: usize = 0;
    assert(before + sack_bytes(ranges@.take(0)) =~= before);
    while i < ranges.len()
        invariant
            i <= ranges.len(),
            buf@ == before + sack_bytes(ranges@.take(i as int)),
        decreases ranges.len() - i,
    {
        push_be(buf, ranges[i].0 as u64, 4);
        push_be(buf, ranges[i].1 as u64, 4);
        proof {
            let longer = ranges@.take(i + 1);
            assert(longer.drop_last() =~= ranges@.take(i as int));
            assert(buf@ =~= before + sack_bytes(longer));
        }
        i += 1;
    }
    assert(ranges@.take(ranges@.len() as int) =~= ranges@);
}

/// Reads what `optional_u32_at` says; the position may lie behind the end.
fn read_optional_u32(data: &[u8], pos: usize) -> (found: Option<(Option<u32>, usize)>)
    requires
        pos <= data.len() + 1,
        pos < usize::MAX,
    ensures
        match found {
            Some((value, after)) => {
                &&& optional_u32_at(data@, pos as int) == Some((value, after as int))
                &&& after <= data.len() || after == pos + 1
            },
            None => optional_u32_at(data@, pos as int) is None,
        },
{
    if data.len() > pos && data[pos] == 1 {
        if data.len() - pos < 5 {
            None
        } else {
            Some((Some(get_be_u32(data, pos + 1)), pos + 5))
        }
    } else {
        Some((None, pos + 1))
    }
}

/// Reads the ranges that `sacks_at` says.
fn read_sacks(data: &[u8], pos: usize, count: usize) -> (ranges: Vec<(u32, u32)>)
    requires
        pos + 8 * count <= data.len(),
    ensures
        ranges@ == sacks_at(data@, pos as int, count as nat),
{
    let mut ranges: Vec<(u32, u32)> = Vec::new();
    let mut i: usize = 0;
    let mut at: usize = pos;
    while i < count
        invariant
            i <= count,
            pos + 8 * count <= data.len(),
            at == pos + 8 * i,
            ranges@ == sacks_at(data@, pos as int, i as nat),
        decreases count - i,
    {
        let left: u32 = get_be_u32(data, at);
        let right: u32 = get_be_u32(data, at + 4);
        ranges.push((left, right));
        at += 8;
        i += 1;
        assert(ranges@ =~= sacks_at(data@, pos as int, i as nat));
    }
    assert(ranges@ =~= sacks_at(data@, pos as int, count as nat));
    ranges
}

impl SerializedPacket {
    /// The length of what the packet carries.
    pub fn payload_len(&self) -> (len: usize)
        ensures
            len == self@.payload_bytes().len(),
    {
        match self {
            SerializedPacket::Udp { payload, .. } => payload.len(),
            SerializedPacket::Tcp { payload, .. } => payload.len(),
        }
    }

    /// Writes the packet in its byte format.
    pub fn to_bytes(&self) -> (buf: Vec<u8>)
        ensures
            buf@ == self@.bytes(),
    {
        let mut buf: Vec<u8> = Vec::new();
        match self {
            SerializedPacket::Udp { src_ip, dst_ip, src_port, dst_port, priority, payload } => {
                buf.push(1);
                push_endpoints(&mut buf, *src_ip, *dst_ip, *src_port, *dst_port);
                push_be(&mut buf, *priority, 8);
                push_counted(&mut buf, payload);
                assert(buf@ =~= self@.bytes());
            },
            SerializedPacket::Tcp {
                src_ip,
                dst_ip,
                src_port,
                dst_port,
                flags,
                seq,
                ack,
                window_size,
                window_scale,
                selective_acks,
                timestamp,
                timestamp_echo,
                priority,
                payload,
            } => {
                buf.push(2);
                push_endpoints(&mut buf, *src_ip, *dst_ip, *src_port, *dst_port);
                let ghost front = buf@;
                buf.push(*flags);
                push_be(&mut buf, *seq as u64, 4);
                push_be(&mut buf, *ack as u64, 4);
                push_be(&mut buf, *window_size as u64, 2);
                assert(buf@ =~= front + tcp_fixed_bytes(*flags, *seq, *ack, *window_size));
                let ghost front = buf@;
                match window_scale {
                    Some(scale) => {
                        buf.push(1);
                        buf.push(*scale);
                    },
                    None => {
                        buf.push(0);
                    },
                }
                assert(buf@ =~= front + optional_u8_bytes(*window_scale));
                push_be(&mut buf, selective_acks.len() as u64, 4);
                push_sacks(&mut buf, selective_acks);
                push_optional_u32(&mut buf, *timestamp);
                push_optional_u32(&mut buf, *timestamp_echo);
                push_be(&mut buf, *priority, 8);
                push_counted(&mut buf, payload);
                assert(buf@ =~= self@.bytes());
            },
        }
        buf
    }

    /// Reads the UDP packet behind the UDP tag.
    fn udp_from_bytes(data: &[u8]) -> (packet: Result<Self, PacketSerializationError>)
        requires
            data.len() > 0,
        ensures
            match packet {
                Ok(p) => parse_udp(data@) == Ok::<PacketModel, PacketSerializationError>(p@),
                Err(e) => parse_udp(data@) == Err::<PacketModel, PacketSerializationError>(e),
            },
    {
        if data.len() < 25 {
            return Err(PacketSerializationError::Truncated);
        }
        let payload_len: usize = get_be_u32(data, 21) as usize;
        if data.len() - 25 < payload_len {
            return Err(PacketSerializationError::Truncated);
        }
        Ok(
            SerializedPacket::Udp {
                src_ip: Ipv4Addr(get_be_u32(data, 1)),
                dst_ip: Ipv4Addr(get_be_u32(data, 5)),
                src_port: get_be_u16(data, 9),
                dst_port: get_be_u16(data, 11),
                priority: get_be(data, 13, 8),
                payload: copy_range(data, 25, 25 + payload_len),
            },
        )
    }

    /// Reads the TCP packet behind the TCP tag.
    fn tcp_from_bytes(data: &[u8]) -> (packet: Result<Self, PacketSerializationError>)
        requires
            data.len() > 0,
        ensures
            match packet {
                Ok(p) => parse_tcp(data@) == Ok::<PacketModel, PacketSerializationError>(p@),
                Err(e) => parse_tcp(data@) == Err::<PacketModel, PacketSerializationError>(e),
            },
    {
        if data.len() < 30 {
            return Err(PacketSerializationError::Truncated);
        }
        let window_scale: Option<u8> = if data[24] == 1 {
            Some(data[25])
        } else {
            None
        };
        let count_pos: usize = if data[24] == 1 {
            26
        } else {
            25
        };
        let count: usize = get_be_u32(data, count_pos) as usize;
        if count > MAX_SACK_BLOCKS {
            return Err(PacketSerializationError::TooManySackBlocks(count));
        }
        if data.len() < count_pos + 4 + count * 8 {
            return Err(PacketSerializationError::Truncated);
        }
        let sacks_end: usize = count_pos + 4 + count * 8;
        let selective_acks = read_sacks(data, count_pos + 4, count);
        let (timestamp, after_timestamp) = match read_optional_u32(data, sacks_end) {
            Some(found) => found,
            None => {
                return Err(PacketSerializationError::Truncated);
            },
        };
        let (timestamp_echo, pos) = match read_optional_u32(data, after_timestamp) {
            Some(found) => found,
            None => {
                return Err(PacketSerializationError::Truncated);
            },
        };
        if data.len() < pos || data.len() - pos < 12 {
            return Err(PacketSerializationError::Truncated);
        }
        let payload_len: usize = get_be_u32(data, pos + 8) as usize;
        if data.len() - pos - 12 < payload_len {
            return Err(PacketSerializationError::Truncated);
        }
        Ok(
            SerializedPacket::Tcp {
                src_ip: Ipv4Addr(get_be_u32(data, 1)),
                dst_ip: Ipv4Addr(get_be_u32(data, 5)),
                src_port: get_be_u16(data, 9),
                dst_port: get_be_u16(data, 11),
                flags: data[13],
                seq: get_be_u32(data, 14),
                ack: get_be_u32(data, 18),
                window_size: get_be_u16(data, 22),
                window_scale,
                selective_acks,
                timestamp,
                timestamp_echo,
                priority: get_be(data, pos, 8),
                payload: copy_range(data, pos + 12, pos + 12 + payload_len),
            },
        )
    }

    /// Reads the packet at the front of `data`.
    pub fn from_bytes(data: &[u8]) -> (packet: Result<Self, PacketSerializationError>)
        ensures
            match packet {
                Ok(p) => parse_packet(data@) == Ok::<PacketModel, PacketSerializationError>(p@),
                Err(e) => parse_packet(data@) == Err::<PacketModel, PacketSerializationError>(e),
            },
    {
        if data.len() == 0 {
            return Err(PacketSerializationError::EmptyData);
        }
        match data[0] {
            1 => SerializedPacket::udp_from_bytes(data),
            2 => SerializedPacket::tcp_from_bytes(data),
            tag => Err(PacketSerializationError::UnknownTag(tag)),
        }
    }
}

proof fn lemma_sack_bytes_len(ranges: Seq<(u32, u32)>)
    ensures
        sack_bytes(ranges).len() == 8 * ranges.len(),
    decreases ranges.len(),
{
    broadcast use lemma_be_bytes_len;

    if ranges.len() > 0 {
        lemma_sack_bytes_len(ranges.drop_last());
    }
}

/// The headers of a packet that fits the format take at most 1024 bytes.
pub proof fn lemma_header_len(packet: PacketModel)
    requires
        packet.fits(),
    ensures
        packet.bytes().len() <= packet.payload_bytes().len() + 1024,
{
    broadcast use lemma_be_bytes_len;

    if let PacketModel::Tcp { selective_acks, .. } = packet {
        lemma_sack_bytes_len(selective_acks);
    }
}

/// Ranges that were written are read back.
proof fn lemma_sacks_round_trip(front: Seq<u8>, ranges: Seq<(u32, u32)>, rest: Seq<u8>)
    ensures
        sacks_at(front + sack_bytes(ranges) + rest, front.len() as int, ranges.len()) == ranges,
    decreases ranges.len(),
{
    broadcast use lemma_be_bytes_len;

    let data = front + sack_bytes(ranges) + rest;
    if ranges.len() > 0 {
        let shorter = ranges.drop_last();
        let left = be_bytes(ranges.last().0 as nat, 4);
        let right = be_bytes(ranges.last().1 as nat, 4);
        lemma_sack_bytes_len(shorter);
        lemma_sacks_round_trip(front, shorter, (left + right) + rest);
        assert(front + sack_bytes(shorter) + ((left + right) + rest) =~= data);
        let pos = (front.len() + 8 * shorter.len()) as int;
        assert(data.subrange(pos, pos + 4) =~= left);
        assert(data.subrange(pos + 4, pos + 4 + 4) =~= right);
        lemma_byte_capacities();
        lemma_number_at(data, pos, ranges.last().0 as nat, 4);
        lemma_number_at(data, pos + 4, ranges.last().1 as nat, 4);
        let read = sacks_at(data, front.len() as int, ranges.len());
        assert forall|i: int| 0 <= i < ranges.len() implies read[i] == ranges[i] by {
            if i < shorter.len() {
                assert(sacks_at(data, front.len() as int, shorter.len())[i] == shorter[i]);
            }
        }
    }
    assert(sacks_at(data, front.len() as int, ranges.len()) =~= ranges);
}

/// An optional number that was written is read back, and the position behind it is reached.
proof fn lemma_optional_u32_round_trip(front: Seq<u8>, value: Option<u32>, rest: Seq<u8>)
    ensures
        optional_u32_at(front + optional_u32_bytes(value) + rest, front.len() as int) == Some(
            (value, (front + optional_u32_bytes(value)).len() as int),
        ),
{
    broadcast use lemma_be_bytes_len;

    let data = front + optional_u32_bytes(value) + rest;
    let pos = front.len() as int;
    match value {
        Some(v) => {
            assert(data[pos] == 1);
            assert(data.subrange(pos + 1, pos + 1 + 4) =~= be_bytes(v as nat, 4));
            lemma_byte_capacities();
            lemma_number_at(data, pos + 1, v as nat, 4);
        },
        None => {
            assert(data[pos] == 0);
        },
    }
}

/// What the tag and the endpoints put in front of a packet is read back.
proof fn lemma_endpoints_round_trip(
    tag: u8,
    src_ip: Ipv4Addr,
    dst_ip: Ipv4Addr,
    src_port: u16,
    dst_port: u16,
    rest: Seq<u8>,
)
    ensures
        ({
            let data = seq![tag] + endpoint_bytes(src_ip, dst_ip, src_port, dst_port) + rest;
            &&& endpoint_bytes(src_ip, dst_ip, src_port, dst_port).len() == 12
            &&& data[0] == tag
            &&& number_at(data, 1, 4) == src_ip.0
            &&& number_at(data, 5, 4) == dst_ip.0
            &&& number_at(data, 9, 2) == src_port
            &&& number_at(data, 11, 2) == dst_port
        }),
{
    broadcast use lemma_be_bytes_len;

    let data = seq![tag] + endpoint_bytes(src_ip, dst_ip, src_port, dst_port) + rest;
    assert(data.subrange(1, 5) =~= src_ip.octets());
    assert(data.subrange(5, 9) =~= dst_ip.octets());
    assert(data.subrange(9, 11) =~= be_bytes(src_port as nat, 2));
    assert(data.subrange(11, 13) =~= be_bytes(dst_port as nat, 2));
    lemma_byte_capacities();
    lemma_number_at(data, 1, src_ip.0 as nat, 4);
    lemma_number_at(data, 5, dst_ip.0 as nat, 4);
    lemma_number_at(data, 9, src_port as nat, 2);
    lemma_number_at(data, 11, dst_port as nat, 2);
}

/// A priority and a payload that were written are read back.
proof fn lemma_tail_round_trip(front: Seq<u8>, priority: u64, payload: Seq<u8>, rest: Seq<u8>)
    requires
        payload.len() <= u32::MAX,
    ensures
        ({
            let data = front + be_bytes(priority as nat, 8) + counted_bytes(payload) + rest;
            let pos = front.len() as int;
            &&& data.len() == pos + 12 + payload.len() + rest.len()
            &&& number_at(data, pos, 8) == priority
            &&& number_at(data, pos + 8, 4) == payload.len()
            &&& data.subrange(pos + 12, pos + 12 + payload.len()) == payload
        }),
{
    broadcast use lemma_be_bytes_len;

    let data = front + be_bytes(priority as nat, 8) + counted_bytes(payload) + rest;
    let pos = front.len() as int;
    assert(data.subrange(pos, pos + 8) =~= be_bytes(priority as nat, 8));
    assert(data.subrange(pos + 8, pos + 8 + 4) =~= be_bytes(payload.len(), 4));
    assert(data.subrange(pos + 12, pos + 12 + payload.len()) =~= payload);
    lemma_byte_capacities();
    lemma_number_at(data, pos, priority as nat, 8);
    lemma_number_at(data, pos + 8, payload.len(), 4);
}

proof fn lemma_udp_round_trip(packet: PacketModel, rest: Seq<u8>)
    requires
        packet is Udp,
        packet.fits(),
    ensures
        parse_packet(packet.bytes() + rest) == Ok::<PacketModel, PacketSerializationError>(packet),
{
    let data = packet.bytes() + rest;
    match packet {
        PacketModel::Udp { src_ip, dst_ip, src_port, dst_port, priority, payload } => {
            let head = endpoint_bytes(src_ip, dst_ip, src_port, dst_port);
            let tail = be_bytes(priority as nat, 8) + counted_bytes(payload) + rest;
            lemma_endpoints_round_trip(1, src_ip, dst_ip, src_port, dst_port, tail);
            assert(data =~= seq![1u8] + head + tail);
            lemma_tail_round_trip(seq![1u8] + head, priority, payload, rest);
        },
        _ => {},
    }
}

/// The fields of a TCP header that always take the same room are read back.
proof fn lemma_tcp_fixed_round_trip(
    front: Seq<u8>,
    flags: u8,
    seq: u32,
    ack: u32,
    window_size: u16,
    rest: Seq<u8>,
)
    ensures
        ({
            let data = front + tcp_fixed_bytes(flags, seq, ack, window_size) + rest;
            let pos = front.len() as int;
            &&& tcp_fixed_bytes(flags, seq, ack, window_size).len() == 11
            &&& data[pos] == flags
            &&& number_at(data, pos + 1, 4) == seq
            &&& number_at(data, pos + 5, 4) == ack
            &&& number_at(data, pos + 9, 2) == window_size
        }),
{
    broadcast use lemma_be_bytes_len;

    let data = front + tcp_fixed_bytes(flags, seq, ack, window_size) + rest;
    let pos = front.len() as int;
    assert(data.subrange(pos + 1, pos + 1 + 4) =~= be_bytes(seq as nat, 4));
    assert(data.subrange(pos + 5, pos + 5 + 4) =~= be_bytes(ack as nat, 4));
    assert(data.subrange(pos + 9, pos + 9 + 2) =~= be_bytes(window_size as nat, 2));
    lemma_byte_capacities();
    lemma_number_at(data, pos + 1, seq as nat, 4);
    lemma_number_at(data, pos + 5, ack as nat, 4);
    lemma_number_at(data, pos + 9, window_size as nat, 2);
}

/// An optional byte that was written is read back.
proof fn lemma_optional_u8_round_trip(front: Seq<u8>, value: Option<u8>, rest: Seq<u8>)
    ensures
        ({
            let data = front + optional_u8_bytes(value) + rest;
            let pos = front.len() as int;
            match value {
                Some(v) => data[pos] == 1 && data[pos + 1] == v && optional_u8_bytes(value).len()
                    == 2,
                None => data[pos] == 0 && optional_u8_bytes(value).len() == 1,
            }
        }),
{
}

proof fn lemma_tcp_round_trip(packet: PacketModel, rest: Seq<u8>)
    requires
        packet is Tcp,
        packet.fits(),
    ensures
        parse_packet(packet.bytes() + rest) == Ok::<PacketModel, PacketSerializationError>(packet),
{
    let data = packet.bytes() + rest;
    match packet {
        PacketModel::Tcp {
            src_ip,
            dst_ip,
            src_port,
            dst_port,
            flags,
            seq,
            ack,
            window_size,
            window_scale,
            selective_acks,
            timestamp,
            timestamp_echo,
            priority,
            payload,
        } => {
            let head = endpoint_bytes(src_ip, dst_ip, src_port, dst_port);
            let fixed = tcp_fixed_bytes(flags, seq, ack, window_size);
            let scale = optional_u8_bytes(window_scale);
            let count = be_bytes(selective_acks.len(), 4);
            let sacks = sack_bytes(selective_acks);
            let stamp = optional_u32_bytes(timestamp);
            let echo = optional_u32_bytes(timestamp_echo);
            let prio = be_bytes(priority as nat, 8);
            let counted = counted_bytes(payload);

            let to_head = seq![2u8] + head;
            let to_fixed = to_head + fixed;
            let to_scale = to_fixed + scale;
            let to_count = to_scale + count;
            let to_sacks = to_count + sacks;
            let to_stamp = to_sacks + stamp;
            let to_echo = to_stamp + echo;
            let to_prio = to_echo + prio;

            let from_counted = counted + rest;
            let from_prio = prio + from_counted;
            let from_echo = echo + from_prio;
            let from_stamp = stamp + from_echo;
            let from_sacks = sacks + from_stamp;
            let from_count = count + from_sacks;
            let from_scale = scale + from_count;
            let from_fixed = fixed + from_scale;

            lemma_join_assoc(to_prio, counted, rest);
            lemma_join_assoc(to_echo, prio, from_counted);
            lemma_join_assoc(to_stamp, echo, from_prio);
            lemma_join_assoc(to_sacks, stamp, from_echo);
            lemma_join_assoc(to_count, sacks, from_stamp);
            lemma_join_assoc(to_scale, count, from_sacks);
            lemma_join_assoc(to_fixed, scale, from_count);
            lemma_join_assoc(to_head, fixed, from_scale);

            lemma_endpoints_round_trip(2, src_ip, dst_ip, src_port, dst_port, from_fixed);
            lemma_tcp_fixed_round_trip(to_head, flags, seq, ack, window_size, from_scale);
            lemma_optional_u8_round_trip(to_fixed, window_scale, from_count);
            assert(sack_count_pos(data) == to_scale.len());
            lemma_byte_capacities();
            lemma_number_between(to_scale, selective_acks.len(), 4, from_sacks);
            lemma_be_bytes_len(selective_acks.len(), 4);
            lemma_sack_bytes_len(selective_acks);
            lemma_sacks_round_trip(to_count, selective_acks, from_stamp);
            lemma_optional_u32_round_trip(to_sacks, timestamp, from_echo);
            lemma_optional_u32_round_trip(to_stamp, timestamp_echo, from_prio);
            lemma_tail_round_trip(to_echo, priority, payload, rest);
            assert(to_echo.len() <= data.len());
        },
        _ => {},
    }
}

/// Reading what was written gives the packet back, whatever stands behind it, for every packet
/// whose counts fit the format.
pub proof fn law_packet_round_trip(packet: PacketModel, rest: Seq<u8>)
    requires
        packet.fits(),
    ensures
        parse_packet(packet.bytes() + rest) == Ok::<PacketModel, PacketSerializationError>(packet),
{
    match packet {
        PacketModel::Udp { .. } => lemma_udp_round_trip(packet, rest),
        PacketModel::Tcp { .. } => lemma_tcp_round_trip(packet, rest),
    }
}

/// A TCP packet with too many ranges is not read back.
proof fn lemma_too_many_sacks_are_refused(packet: PacketModel, rest: Seq<u8>)
    requires
        packet matches PacketModel::Tcp { selective_acks, .. } && MAX_SACK_BLOCKS
            < selective_acks.len() <= u32::MAX,
    ensures
        parse_packet(packet.bytes() + rest) is Err,
{
    let data = packet.bytes() + rest;
    match packet {
        PacketModel::Tcp {
            src_ip,
            dst_ip,
            src_port,
            dst_port,
            flags,
            seq,
            ack,
            window_size,
            window_scale,
            selective_acks,
            timestamp,
            timestamp_echo,
            priority,
            payload,
        } => {
            broadcast use lemma_be_bytes_len;

            let to_fixed = seq![2u8] + endpoint_bytes(src_ip, dst_ip, src_port, dst_port)
                + tcp_fixed_bytes(flags, seq, ack, window_size);
            let scale = optional_u8_bytes(window_scale);
            let to_scale = to_fixed + scale;
            let count = be_bytes(selective_acks.len(), 4);
            let from_sacks = sack_bytes(selective_acks) + optional_u32_bytes(timestamp)
                + optional_u32_bytes(timestamp_echo) + be_bytes(priority as nat, 8) + counted_bytes(
                payload,
            ) + rest;
            assert(data =~= to_scale + count + from_sacks);
            assert(data =~= to_fixed + scale + (count + from_sacks));
            assert(to_fixed.len() == 24);
            lemma_optional_u8_round_trip(to_fixed, window_scale, count + from_sacks);
            assert(sack_count_pos(data) == to_scale.len());
            lemma_byte_capacities();
            lemma_number_between(to_scale, selective_acks.len(), 4, from_sacks);
            assert(data[0] == 2);
        },
        _ => {},
    }
}

/// What the parts of a packet take is no more than the packet takes.
proof fn lemma_parts_are_shorter(packet: PacketModel)
    ensures
        packet.payload_bytes().len() <= packet.bytes().len(),
        packet matches PacketModel::Tcp { selective_acks, .. } ==> selective_acks.len()
            <= packet.bytes().len(),
{
    if let PacketModel::Tcp { selective_acks, .. } = packet {
        lemma_sack_bytes_len(selective_acks);
    }
}

/// A packet that was written is read back if its counts fit the format, and else nothing is read:
/// no packet is taken for another.
pub proof fn law_packet_is_read_where_it_fits(packet: PacketModel, rest: Seq<u8>)
    requires
        packet.bytes().len() <= u32::MAX,
    ensures
        match parse_packet(packet.bytes() + rest) {
            Ok(read) => packet.fits() && read == packet,
            Err(_) => !packet.fits(),
        },
{
    lemma_parts_are_shorter(packet);
    if packet.fits() {
        law_packet_round_trip(packet, rest);
    } else {
        lemma_too_many_sacks_are_refused(packet, rest);
    }
}

/// Different packets have different bytes, and the bytes of one never begin those of another.
pub proof fn law_packet_bytes_prefix_free(
    a: PacketModel,
    a_rest: Seq<u8>,
    b: PacketModel,
    b_rest: Seq<u8>,
)
    requires
        a.fits(),
        b.fits(),
        a.bytes() + a_rest == b.bytes() + b_rest,
    ensures
        a == b,
        a_rest == b_rest,
{
    law_packet_round_trip(a, a_rest);
    law_packet_round_trip(b, b_rest);
    let whole = a.bytes() + a_rest;
    assert(a_rest =~= whole.skip(a.bytes().len() as int));
    assert(b_rest =~= whole.skip(b.bytes().len() as int));
}

/// What stands between two parts is found there.
proof fn lemma_found_between(front: Seq<u8>, part: Seq<u8>, back: Seq<u8>)
    ensures
        (front + (part + back)).subrange(front.len() as int, (front.len() + part.len()) as int)
            == part,
{
    assert((front + (part + back)).subrange(
        front.len() as int,
        (front.len() + part.len()) as int,
    ) =~= part);
}

/// Each of eight parts is found behind the parts in front of it.
proof fn lemma_parts_are_found(
    a: Seq<u8>,
    b: Seq<u8>,
    c: Seq<u8>,
    d: Seq<u8>,
    e: Seq<u8>,
    f: Seq<u8>,
    g: Seq<u8>,
    h: Seq<u8>,
)
    ensures
        ({
            let whole = a + b + c + d + e + f + g + h;
            let at_b = a.len() as int;
            let at_c = at_b + b.len();
            let at_d = at_c + c.len();
            let at_e = at_d + d.len();
            let at_f = at_e + e.len();
            let at_g = at_f + f.len();
            let at_h = at_g + g.len();
            &&& whole.len() == at_h + h.len()
            &&& whole.subrange(at_b, at_c) == b
            &&& whole.subrange(at_c, at_d) == c
            &&& whole.subrange(at_d, at_e) == d
            &&& whole.subrange(at_e, at_f) == e
            &&& whole.subrange(at_f, at_g) == f
            &&& whole.subrange(at_g, at_h) == g
            &&& whole.skip(at_h) == h
        }),
{
    let to_c = a + b;
    let to_d = to_c + c;
    let to_e = to_d + d;
    let to_f = to_e + e;
    let to_g = to_f + f;
    let to_h = to_g + g;
    let from_g = g + h;
    let from_f = f + from_g;
    let from_e = e + from_f;
    let from_d = d + from_e;
    let from_c = c + from_d;
    lemma_join_assoc(to_g, g, h);
    lemma_join_assoc(to_f, f, from_g);
    lemma_join_assoc(to_e, e, from_f);
    lemma_join_assoc(to_d, d, from_e);
    lemma_join_assoc(to_c, c, from_d);
    lemma_join_assoc(a, b, from_c);
    lemma_found_between(a, b, from_c);
    lemma_found_between(to_c, c, from_d);
    lemma_found_between(to_d, d, from_e);
    lemma_found_between(to_e, e, from_f);
    lemma_found_between(to_f, f, from_g);
    lemma_found_between(to_g, g, h);
    assert((to_h + h).skip(to_h.len() as int) =~= h);
}

/// The room that optional fields take.
proof fn lemma_optional_len(small: Option<u8>, number: Option<u32>)
    ensures
        optional_u8_bytes(small).len() == if small is Some { 2nat } else { 1nat },
        optional_u32_bytes(number).len() == if number is Some { 5nat } else { 1nat },
{
    if let Some(value) = number {
        lemma_be_bytes_len(value as nat, 4);
    }
}

/// What the counted bytes at the end of data hold.
proof fn lemma_counted_at_end(data: Seq<u8>, at: int, payload: Seq<u8>)
    requires
        0 <= at <= data.len(),
        data.skip(at) == counted_bytes(payload),
    ensures
        data.len() == at + 4 + payload.len(),
        data.subrange(at, at + 4) == be_bytes(payload.len(), 4),
        data.skip(at + 4) == payload,
{
    lemma_be_bytes_len(payload.len(), 4);
    let tail = data.skip(at);
    assert(tail.len() == data.len() - at);
    assert(data.subrange(at, at + 4) =~= tail.take(4));
    assert(tail.take(4) =~= be_bytes(payload.len(), 4));
    assert(data.skip(at + 4) =~= tail.skip(4));
    assert(tail.skip(4) =~= payload);
}

/// A UDP packet goes as a 1, the addresses of sender and receiver, their ports, the priority, the
/// length of the payload and the payload.
pub proof fn law_udp_layout(packet: SerializedPacket)
    ensures
        packet matches SerializedPacket::Udp {
            src_ip,
            dst_ip,
            src_port,
            dst_port,
            priority,
            payload,
        } ==> {
            let data = packet@.bytes();
            &&& data.len() == 25 + payload@.len()
            &&& data[0] == 1
            &&& data.subrange(1, 5) == be_bytes(src_ip.0 as nat, 4)
            &&& data.subrange(5, 9) == be_bytes(dst_ip.0 as nat, 4)
            &&& data.subrange(9, 11) == be_bytes(src_port as nat, 2)
            &&& data.subrange(11, 13) == be_bytes(dst_port as nat, 2)
            &&& data.subrange(13, 21) == be_bytes(priority as nat, 8)
            &&& data.subrange(21, 25) == be_bytes(payload@.len(), 4)
            &&& data.skip(25) == payload@
        },
{
    broadcast use lemma_be_bytes_len;

    if let SerializedPacket::Udp { src_ip, dst_ip, src_port, dst_port, priority, payload } =
        packet {
        let data = packet@.bytes();
        assert(data.subrange(1, 5) =~= be_bytes(src_ip.0 as nat, 4));
        assert(data.subrange(5, 9) =~= be_bytes(dst_ip.0 as nat, 4));
        assert(data.subrange(9, 11) =~= be_bytes(src_port as nat, 2));
        assert(data.subrange(11, 13) =~= be_bytes(dst_port as nat, 2));
        assert(data.subrange(13, 21) =~= be_bytes(priority as nat, 8));
        assert(data.subrange(21, 25) =~= be_bytes(payload@.len(), 4));
        assert(data.skip(25) =~= payload@);
    }
}

/// The fields of a TCP packet that always take the same room: a 2, the addresses of sender and
/// receiver, their ports, flags, sequence number, acknowledgement and window.
pub proof fn law_tcp_head_layout(packet: SerializedPacket)
    ensures
        packet matches SerializedPacket::Tcp {
            src_ip,
            dst_ip,
            src_port,
            dst_port,
            flags,
            seq,
            ack,
            window_size,
            ..
        } ==> {
            let data = packet@.bytes();
            &&& data.len() >= 24
            &&& data[0] == 2
            &&& data.subrange(1, 5) == be_bytes(src_ip.0 as nat, 4)
            &&& data.subrange(5, 9) == be_bytes(dst_ip.0 as nat, 4)
            &&& data.subrange(9, 11) == be_bytes(src_port as nat, 2)
            &&& data.subrange(11, 13) == be_bytes(dst_port as nat, 2)
            &&& data[13] == flags
            &&& data.subrange(14, 18) == be_bytes(seq as nat, 4)
            &&& data.subrange(18, 22) == be_bytes(ack as nat, 4)
            &&& data.subrange(22, 24) == be_bytes(window_size as nat, 2)
        },
{
    broadcast use lemma_be_bytes_len;

    if let SerializedPacket::Tcp {
        src_ip,
        dst_ip,
        src_port,
        dst_port,
        flags,
        seq,
        ack,
        window_size,
        window_scale,
        selective_acks,
        timestamp,
        timestamp_echo,
        priority,
        payload,
    } = packet {
        let front = seq![2u8] + endpoint_bytes(src_ip, dst_ip, src_port, dst_port)
            + tcp_fixed_bytes(flags, seq, ack, window_size);
        let data = packet@.bytes();
        assert(data.take(24) =~= front);
        assert(front.subrange(1, 5) =~= be_bytes(src_ip.0 as nat, 4));
        assert(front.subrange(5, 9) =~= be_bytes(dst_ip.0 as nat, 4));
        assert(front.subrange(9, 11) =~= be_bytes(src_port as nat, 2));
        assert(front.subrange(11, 13) =~= be_bytes(dst_port as nat, 2));
        assert(front[13] == flags);
        assert(front.subrange(14, 18) =~= be_bytes(seq as nat, 4));
        assert(front.subrange(18, 22) =~= be_bytes(ack as nat, 4));
        assert(front.subrange(22, 24) =~= be_bytes(window_size as nat, 2));
        assert(front[0] == data[0] && front[13] == data[13]);
        assert(data.subrange(1, 5) =~= front.subrange(1, 5));
        assert(data.subrange(5, 9) =~= front.subrange(5, 9));
        assert(data.subrange(9, 11) =~= front.subrange(9, 11));
        assert(data.subrange(11, 13) =~= front.subrange(11, 13));
        assert(data.subrange(14, 18) =~= front.subrange(14, 18));
        assert(data.subrange(18, 22) =~= front.subrange(18, 22));
        assert(data.subrange(22, 24) =~= front.subrange(22, 24));
    }
}

/// Behind the fields of fixed room a TCP packet holds the window scale, the number of ranges and
/// the ranges, the timestamp and its echo, the priority, the length of the payload and the
/// payload. A 1 stands in front of a value that is there, a 0 in place of one that is not.
pub proof fn law_tcp_tail_layout(packet: SerializedPacket)
    ensures
        packet matches SerializedPacket::Tcp {
            window_scale,
            selective_acks,
            timestamp,
            timestamp_echo,
            priority,
            payload,
            ..
        } ==> {
            let data = packet@.bytes();
            let count_at = if window_scale is Some { 26int } else { 25int };
            let stamp_at = count_at + 4 + 8 * selective_acks@.len();
            let echo_at = stamp_at + if timestamp is Some { 5int } else { 1int };
            let rest_at = echo_at + if timestamp_echo is Some { 5int } else { 1int };
            &&& data.len() == rest_at + 12 + payload@.len()
            &&& data[24] == if window_scale is Some { 1u8 } else { 0u8 }
            &&& window_scale matches Some(scale) ==> data[25] == scale
            &&& data.subrange(count_at, count_at + 4) == be_bytes(selective_acks@.len(), 4)
            &&& data.subrange(count_at + 4, stamp_at) == sack_bytes(selective_acks@)
            &&& data[stamp_at] == if timestamp is Some { 1u8 } else { 0u8 }
            &&& timestamp matches Some(stamp) ==> data.subrange(stamp_at + 1, stamp_at + 5)
                == be_bytes(stamp as nat, 4)
            &&& data[echo_at] == if timestamp_echo is Some { 1u8 } else { 0u8 }
            &&& timestamp_echo matches Some(echo) ==> data.subrange(echo_at + 1, echo_at + 5)
                == be_bytes(echo as nat, 4)
            &&& data.subrange(rest_at, rest_at + 8) == be_bytes(priority as nat, 8)
            &&& data.subrange(rest_at + 8, rest_at + 12) == be_bytes(payload@.len(), 4)
            &&& data.skip(rest_at + 12) == payload@
        },
{
    if let SerializedPacket::Tcp {
        src_ip,
        dst_ip,
        src_port,
        dst_port,
        flags,
        seq,
        ack,
        window_size,
        window_scale,
        selective_acks,
        timestamp,
        timestamp_echo,
        priority,
        payload,
    } = packet {
        let data = packet@.bytes();
        let front = seq![2u8] + endpoint_bytes(src_ip, dst_ip, src_port, dst_port)
            + tcp_fixed_bytes(flags, seq, ack, window_size);
        let scale = optional_u8_bytes(window_scale);
        let count = be_bytes(selective_acks@.len(), 4);
        let sacks = sack_bytes(selective_acks@);
        let stamp = optional_u32_bytes(timestamp);
        let echo = optional_u32_bytes(timestamp_echo);
        let prio = be_bytes(priority as nat, 8);
        let counted = counted_bytes(payload@);
        assert(front.len() == 24) by {
            broadcast use lemma_be_bytes_len;

        }
        lemma_sack_bytes_len(selective_acks@);
        lemma_be_bytes_len(selective_acks@.len(), 4);
        lemma_be_bytes_len(priority as nat, 8);
        lemma_optional_len(window_scale, timestamp);
        lemma_optional_len(window_scale, timestamp_echo);
        lemma_parts_are_found(front, scale, count, sacks, stamp, echo, prio, counted);
        assert(data == front + scale + count + sacks + stamp + echo + prio + counted);
        let count_at = 24int + scale.len();
        let stamp_at = count_at + 4 + sacks.len();
        let echo_at = stamp_at + stamp.len();
        let rest_at = echo_at + echo.len();
        lemma_tcp_marks(data, window_scale, timestamp, timestamp_echo, stamp_at, echo_at);
        lemma_counted_at_end(data, rest_at + 8, payload@);
    }
}

/// The parts of optional fields, where the fields stand.
proof fn lemma_tcp_marks(
    data: Seq<u8>,
    window_scale: Option<u8>,
    timestamp: Option<u32>,
    timestamp_echo: Option<u32>,
    stamp_at: int,
    echo_at: int,
)
    requires
        24 <= stamp_at <= echo_at,
        echo_at + optional_u32_bytes(timestamp_echo).len() <= data.len(),
        stamp_at + optional_u32_bytes(timestamp).len() <= data.len(),
        24 + optional_u8_bytes(window_scale).len() <= data.len(),
        data.subrange(24, 24int + optional_u8_bytes(window_scale).len()) == optional_u8_bytes(
            window_scale,
        ),
        data.subrange(stamp_at, stamp_at + optional_u32_bytes(timestamp).len())
            == optional_u32_bytes(timestamp),
        data.subrange(echo_at, echo_at + optional_u32_bytes(timestamp_echo).len())
            == optional_u32_bytes(timestamp_echo),
    ensures
        data[24] == if window_scale is Some { 1u8 } else { 0u8 },
        window_scale matches Some(scale) ==> data[25] == scale,
        data[stamp_at] == if timestamp is Some { 1u8 } else { 0u8 },
        timestamp matches Some(stamp) ==> data.subrange(stamp_at + 1, stamp_at + 5) == be_bytes(
            stamp as nat,
            4,
        ),
        data[echo_at] == if timestamp_echo is Some { 1u8 } else { 0u8 },
        timestamp_echo matches Some(echo) ==> data.subrange(echo_at + 1, echo_at + 5) == be_bytes(
            echo as nat,
            4,
        ),
{
    broadcast use lemma_be_bytes_len;

    let scale = data.subrange(24, 24int + optional_u8_bytes(window_scale).len());
    let stamp = data.subrange(stamp_at, stamp_at + optional_u32_bytes(timestamp).len());
    let echo = data.subrange(echo_at, echo_at + optional_u32_bytes(timestamp_echo).len());
    assert(scale[0] == data[24]);
    assert(stamp[0] == data[stamp_at]);
    assert(echo[0] == data[echo_at]);
    if window_scale is Some {
        assert(scale[1] == data[25]);
    }
    if let Some(value) = timestamp {
        assert(data.subrange(stamp_at + 1, stamp_at + 5) =~= stamp.skip(1));
        assert(stamp.skip(1) =~= be_bytes(value as nat, 4));
    }
    if let Some(value) = timestamp_echo {
        assert(data.subrange(echo_at + 1, echo_at + 5) =~= echo.skip(1));
        assert(echo.skip(1) =~= be_bytes(value as nat, 4));
    }
}

/// Each range takes eight bytes, its left end in front of its right end, in the order of the list.
pub proof fn law_ranges_stand_one_after_the_other(ranges: Seq<(u32, u32)>, i: int)
    requires
        0 <= i < ranges.len(),
    ensures
        sack_bytes(ranges).len() == 8 * ranges.len(),
        sack_bytes(ranges).subrange(8 * i, 8 * i + 4) == be_bytes(ranges[i].0 as nat, 4),
        sack_bytes(ranges).subrange(8 * i + 4, 8 * i + 8) == be_bytes(ranges[i].1 as nat, 4),
    decreases ranges.len(),
{
    broadcast use lemma_be_bytes_len;

    let shorter = ranges.drop_last();
    lemma_sack_bytes_len(ranges);
    lemma_sack_bytes_len(shorter);
    if i < shorter.len() {
        law_ranges_stand_one_after_the_other(shorter, i);
        assert(sack_bytes(ranges).subrange(8 * i, 8 * i + 4) =~= sack_bytes(shorter).subrange(
            8 * i,
            8 * i + 4,
        ));
        assert(sack_bytes(ranges).subrange(8 * i + 4, 8 * i + 8) =~= sack_bytes(shorter).subrange(
            8 * i + 4,
            8 * i + 8,
        ));
    } else {
        assert(sack_bytes(ranges).subrange(8 * i, 8 * i + 4) =~= be_bytes(ranges[i].0 as nat, 4));
        assert(sack_bytes(ranges).subrange(8 * i + 4, 8 * i + 8) =~= be_bytes(
            ranges[i].1 as nat,
            4,
        ));
    }
}

/// Bytes are no packet where there are none or where they begin neither with 1 nor with 2. Those
/// that begin with 1 are a UDP packet exactly where they reach to the end of the payload, and then
/// the fields of the packet are the bytes at their places.
pub proof fn law_readable_packets(data: Seq<u8>)
    ensures
        parse_packet(data) == Err::<PacketModel, PacketSerializationError>(
            PacketSerializationError::EmptyData,
        ) <==> data.len() == 0,
        data.len() > 0 && data[0] != 1 && data[0] != 2 ==> parse_packet(data) == Err::<
            PacketModel,
            PacketSerializationError,
        >(PacketSerializationError::UnknownTag(data[0])),
        data.len() > 0 && data[0] == 1 ==> (parse_packet(data) is Ok <==> data.len() >= 25
            && data.len() >= 25 + number_at(data, 21, 4)),
        data.len() > 0 && data[0] == 1 && parse_packet(data) is Err ==> parse_packet(data)
            == Err::<PacketModel, PacketSerializationError>(PacketSerializationError::Truncated),
        parse_packet(data) matches Ok(packet) ==> (packet is Udp <==> data[0] == 1) && (packet is Tcp
            <==> data[0] == 2),
        parse_packet(data) matches Ok(PacketModel::Udp { payload, .. }) ==> payload
            == data.subrange(25, 25int + number_at(data, 21, 4)),
{
}

/// What is said to users of bytes that are no packet, and of packets that cannot be written.
pub proof fn law_messages_for_users(tag: u8, count: usize)
    ensures
        PacketSerializationError::EmptyData.message() == "Empty data"@,
        PacketSerializationError::Truncated.message() == "Truncated data"@,
        PacketSerializationError::UnknownTag(tag).message() == "Unknown packet tag "@ + decimal(
            tag as nat,
        ),
        PacketSerializationError::TooManySackBlocks(count).message() == "Too many SACK blocks: "@
            + decimal(count as nat),
        PacketSerializationError::LegacyTcp.message()
            == "Legacy TCP is not supported for distributed mode; use experimental.use_new_tcp=true"@,
{
}

/// A packet can be written and read back exactly where it has at most 64 ranges and its counts fit
/// four bytes.
pub proof fn law_packets_that_fit(packet: PacketModel)
    ensures
        packet matches PacketModel::Udp { payload, .. } ==> (packet.fits() <==> payload.len()
            <= 0xffff_ffff),
        packet matches PacketModel::Tcp { selective_acks, payload, .. } ==> (packet.fits()
            <==> payload.len() <= 0xffff_ffff && selective_acks.len() <= 64),
{
}

/// The payload of a packet is its own.
pub proof fn law_payload_of_a_packet(packet: PacketModel)
    ensures
        packet matches PacketModel::Udp { payload, .. } ==> packet.payload_bytes() == payload,
        packet matches PacketModel::Tcp { payload, .. } ==> packet.payload_bytes() == payload,
{
}

/// A number of four bytes is there exactly where a 1 stands in front of it. Any other byte, and
/// the end of the bytes, means that it is absent; a 1 without four bytes behind it is refused.
pub proof fn law_presence_bytes(data: Seq<u8>, pos: int)
    requires
        0 <= pos,
    ensures
        pos >= data.len() || data[pos] != 1 ==> optional_u32_at(data, pos) == Some(
            (None::<u32>, pos + 1),
        ),
        pos < data.len() < pos + 5 && data[pos] == 1 ==> optional_u32_at(data, pos) is None,
        pos + 5 <= data.len() && data[pos] == 1 ==> (optional_u32_at(data, pos) matches Some(
            (Some(value), next),
        ) && next == pos + 5 && data.subrange(pos + 1, pos + 5) == be_bytes(value as nat, 4)),
{
    if pos + 5 <= data.len() {
        lemma_number_is_its_bytes(data, pos + 1, 4);
    }
}

/// A number that is read is the one whose bytes stand there.
proof fn lemma_number_is_its_bytes(data: Seq<u8>, pos: int, n: nat)
    requires
        0 <= pos,
        pos + n <= data.len(),
        n == 2 || n == 4 || n == 8,
    ensures
        be_bytes(number_at(data, pos, n as int), n) == data.subrange(pos, pos + n),
        n == 2 ==> number_at(data, pos, n as int) <= 0xffff,
        n == 4 ==> number_at(data, pos, n as int) <= 0xffff_ffff,
        n == 8 ==> number_at(data, pos, n as int) <= 0xffff_ffff_ffff_ffff,
{
    lemma_byte_capacities();
    lemma_be_value_round_trip(data.subrange(pos, pos + n));
}

/// The fields of a packet that is read are the bytes at their places.
pub proof fn law_read_packets_hold_the_bytes(data: Seq<u8>)
    ensures
        parse_packet(data) matches Ok(
            PacketModel::Udp { src_ip, dst_ip, src_port, dst_port, priority, .. },
        ) ==> {
            &&& data.subrange(1, 5) == be_bytes(src_ip.0 as nat, 4)
            &&& data.subrange(5, 9) == be_bytes(dst_ip.0 as nat, 4)
            &&& data.subrange(9, 11) == be_bytes(src_port as nat, 2)
            &&& data.subrange(11, 13) == be_bytes(dst_port as nat, 2)
            &&& data.subrange(13, 21) == be_bytes(priority as nat, 8)
        },
        parse_packet(data) matches Ok(
            PacketModel::Tcp {
                src_ip,
                dst_ip,
                src_port,
                dst_port,
                flags,
                seq,
                ack,
                window_size,
                window_scale,
                ..
            },
        ) ==> {
            &&& data.subrange(1, 5) == be_bytes(src_ip.0 as nat, 4)
            &&& data.subrange(5, 9) == be_bytes(dst_ip.0 as nat, 4)
            &&& data.subrange(9, 11) == be_bytes(src_port as nat, 2)
            &&& data.subrange(11, 13) == be_bytes(dst_port as nat, 2)
            &&& data[13] == flags
            &&& data.subrange(14, 18) == be_bytes(seq as nat, 4)
            &&& data.subrange(18, 22) == be_bytes(ack as nat, 4)
            &&& data.subrange(22, 24) == be_bytes(window_size as nat, 2)
            &&& window_scale is Some <==> data[24] == 1
            &&& window_scale matches Some(scale) ==> data[25] == scale
        },
{
    if parse_packet(data) is Ok {
        assert(data.len() >= 25);
        lemma_number_is_its_bytes(data, 1, 4);
        lemma_number_is_its_bytes(data, 5, 4);
        lemma_number_is_its_bytes(data, 9, 2);
        lemma_number_is_its_bytes(data, 11, 2);
        lemma_number_is_its_bytes(data, 13, 8);
        lemma_number_is_its_bytes(data, 14, 4);
        lemma_number_is_its_bytes(data, 18, 4);
        lemma_number_is_its_bytes(data, 22, 2);
    }
}

/// The ranges of a TCP packet that is read, of which there are at most 64, stand behind their
/// number, which stands behind the window scale. More are refused.
pub proof fn law_read_ranges(data: Seq<u8>)
    requires
        data.len() >= 30,
        data[0] == 2,
    ensures
        ({
            let at = if data[24] == 1 { 26int } else { 25int };
            &&& number_at(data, at, 4) > 64 ==> parse_packet(data) == Err::<
                PacketModel,
                PacketSerializationError,
            >(PacketSerializationError::TooManySackBlocks(number_at(data, at, 4) as usize))
            &&& parse_packet(data) matches Ok(PacketModel::Tcp { selective_acks, .. })
                ==> selective_acks.len() == number_at(data, at, 4) && selective_acks.len() <= 64
                && (forall|i: int|
                #![trigger selective_acks[i]]
                0 <= i < selective_acks.len() ==> selective_acks[i].0 == number_at(
                    data,
                    at + 4 + 8 * i,
                    4,
                ) as u32 && selective_acks[i].1 == number_at(data, at + 8 + 8 * i, 4) as u32)
        }),
{
}

} // verus!
