use std::sync::{Arc, Mutex};

use shadow_rs::distributed::batch::{
    MAX_PACKET_BATCH_EVENTS, decode_remote_packet_batch, encode_remote_packet_batch,
};
use shadow_rs::distributed::control::{
    ControlAction, ControlClientState, ControlInput, ControlServerState, MAX_CONTROL_MESSAGE_BYTES,
    WireControlRequest, WireControlResponse, accept_control_len, channel_closed_error,
    control_frame, decode_control_message, is_channel_closed,
};
use shadow_rs::distributed::error::{
    PacketSerializationError, PartitionMapError, RemotePacketDeliveryError,
    RemotePacketExchangeError,
};
use shadow_rs::distributed::event::{RemotePacketEvent, WireRemotePacketEvent};
use shadow_rs::distributed::exchange::{
    InProcessRemotePacketExchange, InboundPackets, NoopRemotePacketExchange, OutboundRemotePacket,
    OutboundRemotePacketBuffer, RemotePacketExchange, group_by_shard, unix_control_socket_path,
    unix_socket_path,
};
use shadow_rs::distributed::packet::{
    MAX_TCP_SELECTIVE_ACKS, SerializedPacket, WireSerializedPacket,
};
use shadow_rs::distributed::partition::PartitionMap;
use shadow_rs::distributed::wire::{
    MAX_PACKET_PAYLOAD_BYTES, WIRE_KIND_PACKET_BATCH, WIRE_VERSION, decode_wire_message,
    encode_wire_message, write_len, write_u8, write_u16, write_u32, write_u64,
};
use shadow_rs::ids::{HostId, ShardId, default_shard_id};
use shadow_rs::net::{Ipv4Addr, SocketAddrV4};
use shadow_rs::packet::{IanaProtocol, Packet, TcpFlags, TcpHeader, packet_payload_bytes};
use shadow_rs::time::EmulatedTime;

const SYN: u8 = 0x02;
const ACK: u8 = 0x10;

fn source() -> SocketAddrV4 {
    SocketAddrV4::new(Ipv4Addr::new(11, 0, 0, 1), 1234)
}

fn destination() -> SocketAddrV4 {
    SocketAddrV4::new(Ipv4Addr::new(11, 0, 0, 2), 5678)
}

fn udp(payload: &[u8], priority: u64) -> Packet {
    Packet::new_ipv4_udp(source(), destination(), payload.to_vec(), priority)
}

fn event(src: u32, id: u64, dst: u32, packet: &Packet) -> RemotePacketEvent {
    RemotePacketEvent::new(
        EmulatedTime::simulation_start(),
        HostId::from(src),
        id,
        HostId::from(dst),
        packet,
    )
    .unwrap()
}

fn to_shard(shard: u32, event: &RemotePacketEvent) -> OutboundRemotePacket {
    OutboundRemotePacket { dst_shard: ShardId(shard), event: event.clone() }
}

#[test]
fn all_local_maps_every_host_to_default_shard() {
    let hosts = [HostId::from(0), HostId::from(42)];
    let partition = PartitionMap::all_local(&hosts);

    assert_eq!(partition.shard_for_host(HostId::from(0)), Some(default_shard_id()));
    assert_eq!(partition.shard_for_host(HostId::from(42)), Some(default_shard_id()));
    assert_eq!(partition.shard_for_host(HostId::from(7)), None);
}

#[test]
fn is_host_local_checks_current_shard() {
    let hosts = [HostId::from(0)];
    let partition = PartitionMap::all_local(&hosts);

    assert_eq!(partition.is_host_local(default_shard_id(), HostId::from(0)), Some(true));
    assert_eq!(partition.is_host_local(ShardId(1), HostId::from(0)), Some(false));
    assert_eq!(partition.is_host_local(default_shard_id(), HostId::from(1)), None);
}

#[test]
fn from_host_shards_maps_hosts_to_configured_shards() {
    let partition = PartitionMap::from_host_shards(&[
        (HostId::from(0), ShardId(0)),
        (HostId::from(1), ShardId(2)),
    ]);

    assert_eq!(partition.shard_for_host(HostId::from(0)), Some(ShardId(0)));
    assert_eq!(partition.shard_for_host(HostId::from(1)), Some(ShardId(2)));
    assert_eq!(partition.shard_for_host(HostId::from(2)), None);
}

#[test]
fn from_host_shards_keeps_the_last_entry_of_a_host() {
    let partition = PartitionMap::from_host_shards(&[
        (HostId::from(4), ShardId(0)),
        (HostId::from(4), ShardId(3)),
    ]);

    assert_eq!(partition.shard_for_host(HostId::from(4)), Some(ShardId(3)));
}

#[test]
fn by_host_id_modulo_assigns_stable_shards() {
    let partition = PartitionMap::by_host_id_modulo(
        &[HostId::from(0), HostId::from(1), HostId::from(2), HostId::from(3)],
        3,
    )
    .unwrap();

    assert_eq!(partition.shard_for_host(HostId::from(0)), Some(ShardId(0)));
    assert_eq!(partition.shard_for_host(HostId::from(1)), Some(ShardId(1)));
    assert_eq!(partition.shard_for_host(HostId::from(2)), Some(ShardId(2)));
    assert_eq!(partition.shard_for_host(HostId::from(3)), Some(ShardId(0)));
}

#[test]
fn by_host_id_modulo_rejects_zero_shards() {
    let err = PartitionMap::by_host_id_modulo(&[HostId::from(0)], 0).unwrap_err();

    assert_eq!(err, PartitionMapError::ZeroShardCount);
}

#[test]
fn udp_packet_roundtrips_through_serialized_packet() {
    let payload = b"hello from shard 0".to_vec();
    let priority = 99;
    let packet = Packet::new_ipv4_udp(source(), destination(), payload.clone(), priority);

    let serialized = SerializedPacket::try_from_packet(&packet).unwrap();
    let roundtripped = serialized.into_packet();

    assert_eq!(roundtripped.protocol, IanaProtocol::Udp);
    assert_eq!(roundtripped.src, source());
    assert_eq!(roundtripped.dst, destination());
    assert_eq!(roundtripped.priority, priority);
    assert_eq!(packet_payload_bytes(&roundtripped), payload);
}

#[test]
fn zero_length_udp_packet_roundtrips_through_serialized_packet() {
    let packet = udp(b"", 3);

    let serialized = SerializedPacket::try_from_packet(&packet).unwrap();
    let roundtripped = serialized.into_packet();

    assert_eq!(roundtripped.protocol, IanaProtocol::Udp);
    assert_eq!(roundtripped.src, source());
    assert_eq!(roundtripped.dst, destination());
    assert_eq!(roundtripped.priority, 3);
    assert_eq!(packet_payload_bytes(&roundtripped), Vec::<u8>::new());
}

#[test]
fn tcp_packet_roundtrips_through_serialized_packet() {
    let header = TcpHeader {
        src: source(),
        dst: destination(),
        flags: TcpFlags(SYN | ACK),
        seq: 123,
        ack: 456,
        window_size: 789,
        selective_acks: Some(vec![(10, 20), (30, 40)]),
        window_scale: Some(7),
        timestamp: Some(111),
        timestamp_echo: Some(222),
    };
    let priority = 99;
    let packet =
        Packet::new_ipv4_tcp(header, vec![b"hello ".to_vec(), b"tcp".to_vec()], priority);

    let serialized = SerializedPacket::try_from_packet(&packet).unwrap();
    let roundtripped = serialized.into_packet();
    let roundtripped_header = roundtripped.tcp_header.as_ref().unwrap();

    assert_eq!(roundtripped.protocol, IanaProtocol::Tcp);
    assert_eq!(roundtripped.src, source());
    assert_eq!(roundtripped.dst, destination());
    assert_eq!(roundtripped.priority, priority);
    assert_eq!(roundtripped_header.flags, TcpFlags(SYN | ACK));
    assert_eq!(roundtripped_header.seq, 123);
    assert_eq!(roundtripped_header.ack, 456);
    assert_eq!(roundtripped_header.window_size, 789);
    assert_eq!(roundtripped_header.selective_acks, Some(vec![(10, 20), (30, 40)]));
    assert_eq!(roundtripped_header.window_scale, Some(7));
    assert_eq!(roundtripped_header.timestamp, Some(111));
    assert_eq!(roundtripped_header.timestamp_echo, Some(222));
    assert_eq!(packet_payload_bytes(&roundtripped), b"hello tcp".to_vec());
}

#[test]
fn zero_length_tcp_packet_without_options_roundtrips_through_serialized_packet() {
    let header = TcpHeader {
        src: source(),
        dst: destination(),
        flags: TcpFlags(ACK),
        seq: 123,
        ack: 456,
        window_size: 789,
        selective_acks: None,
        window_scale: None,
        timestamp: None,
        timestamp_echo: None,
    };
    let packet = Packet::new_ipv4_tcp(header, Vec::new(), 4);

    let serialized = SerializedPacket::try_from_packet(&packet).unwrap();
    let roundtripped = serialized.into_packet();
    let roundtripped_header = roundtripped.tcp_header.as_ref().unwrap();

    assert_eq!(roundtripped.protocol, IanaProtocol::Tcp);
    assert_eq!(roundtripped.src, source());
    assert_eq!(roundtripped.dst, destination());
    assert_eq!(roundtripped.priority, 4);
    assert_eq!(roundtripped_header.flags, TcpFlags(ACK));
    assert_eq!(roundtripped_header.seq, 123);
    assert_eq!(roundtripped_header.ack, 456);
    assert_eq!(roundtripped_header.window_size, 789);
    assert!(roundtripped_header.selective_acks.is_none());
    assert_eq!(roundtripped_header.window_scale, None);
    assert_eq!(roundtripped_header.timestamp, None);
    assert_eq!(roundtripped_header.timestamp_echo, None);
    assert_eq!(packet_payload_bytes(&roundtripped), Vec::<u8>::new());
}

#[test]
fn remote_packet_event_preserves_source_metadata() {
    let packet = udp(b"payload", 1);
    let event = event(10, 20, 30, &packet);

    assert_eq!(event.deliver_time, EmulatedTime::simulation_start());
    assert_eq!(event.src_host_id, HostId::from(10));
    assert_eq!(event.src_host_event_id, 20);
    assert_eq!(event.dst_host_id, HostId::from(30));
}

#[test]
fn remote_packet_event_roundtrips_through_ipc_wire_format() {
    let payload = b"wire payload".to_vec();
    let packet = udp(&payload, 17);
    let event = event(10, 20, 30, &packet);

    let encoded = encode_remote_packet_batch(std::slice::from_ref(&event)).unwrap();
    let roundtripped = decode_remote_packet_batch(&encoded, ShardId(0))
        .unwrap()
        .into_iter()
        .next()
        .unwrap();

    assert_eq!(roundtripped, event);
    let packet = roundtripped.packet.into_packet();
    assert_eq!(packet.src, source());
    assert_eq!(packet.dst, destination());
    assert_eq!(packet.priority, 17);
    assert_eq!(packet_payload_bytes(&packet), payload);
}

#[test]
fn tcp_remote_packet_event_roundtrips_through_ipc_wire_format() {
    let packet = Packet::new_ipv4_tcp(
        TcpHeader {
            src: source(),
            dst: destination(),
            flags: TcpFlags(ACK),
            seq: 123,
            ack: 456,
            window_size: 789,
            selective_acks: None,
            window_scale: Some(3),
            timestamp: Some(111),
            timestamp_echo: Some(222),
        },
        vec![b"tcp wire payload".to_vec()],
        17,
    );
    let event = event(10, 20, 30, &packet);

    let encoded = encode_remote_packet_batch(std::slice::from_ref(&event)).unwrap();
    let roundtripped = decode_remote_packet_batch(&encoded, ShardId(0))
        .unwrap()
        .into_iter()
        .next()
        .unwrap();

    assert_eq!(roundtripped, event);
    let packet = roundtripped.packet.into_packet();
    assert_eq!(packet.src, source());
    assert_eq!(packet.dst, destination());
    assert_eq!(packet.priority, 17);
    assert_eq!(packet_payload_bytes(&packet), b"tcp wire payload".to_vec());
}

#[test]
fn ipc_wire_format_rejects_invalid_emulated_time() {
    let wire = WireRemotePacketEvent {
        deliver_time: u64::MAX,
        src_host_id: 10,
        src_host_event_id: 20,
        dst_host_id: 30,
        packet: WireSerializedPacket::Udp {
            src_ip: Ipv4Addr::new(11, 0, 0, 1).0,
            src_port: 1234,
            dst_ip: Ipv4Addr::new(11, 0, 0, 2).0,
            dst_port: 5678,
            priority: 1,
            payload: b"payload".to_vec(),
        },
    };

    let err = RemotePacketEvent::from_wire(wire).unwrap_err();

    assert!(err.to_string().contains("invalid emulated delivery time"));
}

#[test]
fn binary_wire_rejects_unsupported_version() {
    let payload = [b"SHDW".as_slice(), &[WIRE_VERSION + 1, WIRE_KIND_PACKET_BATCH]].concat();

    let err =
        decode_wire_message(&payload, WIRE_KIND_PACKET_BATCH, "test packet batch").unwrap_err();

    assert!(err.to_string().contains("unsupported wire version"));
}

#[test]
fn wire_message_is_told_by_magic_version_and_kind() {
    let message = encode_wire_message(WIRE_KIND_PACKET_BATCH, b"body");
    assert_eq!(message, b"SHDW\x01\x03body".to_vec());
    let body = decode_wire_message(&message, WIRE_KIND_PACKET_BATCH, "message").unwrap();
    assert_eq!(body, b"body".to_vec());

    let err = decode_wire_message(b"nopeXX", WIRE_KIND_PACKET_BATCH, "message").unwrap_err();
    assert_eq!(
        err.to_string(),
        "remote packet exchange failed: failed to decode message: invalid wire magic"
    );
    let err = decode_wire_message(b"SHDW\x01\x01", WIRE_KIND_PACKET_BATCH, "message").unwrap_err();
    assert!(err.to_string().contains("unexpected message kind 1, expected 3"));
    let err = decode_wire_message(b"SH", WIRE_KIND_PACKET_BATCH, "message").unwrap_err();
    assert!(err.to_string().contains("truncated field of length 4"));
}

#[test]
fn control_message_rejects_oversized_payload() {
    let len = u32::try_from(MAX_CONTROL_MESSAGE_BYTES + 1).unwrap();

    let err = accept_control_len(len, "request").unwrap_err();

    assert!(err.to_string().contains("distributed control request is too large"));
}

#[test]
fn packet_batch_rejects_excessive_packet_count() {
    let mut body = Vec::new();
    write_len(&mut body, MAX_PACKET_BATCH_EVENTS + 1).unwrap();
    let payload = encode_wire_message(WIRE_KIND_PACKET_BATCH, &body);

    let err = decode_remote_packet_batch(&payload, ShardId(0)).unwrap_err();

    assert!(err.to_string().contains("packet count"));
}

#[test]
fn packet_batch_rejects_excessive_packet_payload_length() {
    let mut body = Vec::new();
    write_len(&mut body, 1).unwrap();
    write_u64(&mut body, EmulatedTime::to_c_emutime(Some(EmulatedTime::simulation_start())));
    write_u32(&mut body, 1);
    write_u64(&mut body, 0);
    write_u32(&mut body, 2);
    write_u8(&mut body, 1);
    write_u32(&mut body, Ipv4Addr::new(11, 0, 0, 1).0);
    write_u16(&mut body, 1234);
    write_u32(&mut body, Ipv4Addr::new(11, 0, 0, 2).0);
    write_u16(&mut body, 5678);
    write_u64(&mut body, 1);
    write_len(&mut body, MAX_PACKET_PAYLOAD_BYTES + 1).unwrap();
    let payload = encode_wire_message(WIRE_KIND_PACKET_BATCH, &body);

    let err = decode_remote_packet_batch(&payload, ShardId(0)).unwrap_err();

    assert!(err.to_string().contains("byte array length"));
}

#[test]
fn packet_batch_rejects_trailing_and_missing_bytes() {
    let event = event(1, 2, 3, &udp(b"abc", 9));
    let encoded = encode_remote_packet_batch(std::slice::from_ref(&event)).unwrap();

    let mut longer = encoded.clone();
    longer.push(0);
    let err = decode_remote_packet_batch(&longer, ShardId(5)).unwrap_err();
    assert_eq!(
        err.to_string(),
        "remote packet exchange failed: failed to decode IPC packet batch for shard ShardId(5): \
         1 trailing bytes after message"
    );
    let shorter = &encoded[..encoded.len() - 1];
    let err = decode_remote_packet_batch(shorter, ShardId(5)).unwrap_err();
    assert!(err.to_string().contains("truncated byte array of length 3"));
}

#[test]
fn packet_batch_bytes_are_big_endian_fields() {
    let event = event(1, 2, 3, &udp(b"abc", 9));
    let encoded = encode_remote_packet_batch(std::slice::from_ref(&event)).unwrap();

    let mut expected = b"SHDW\x01\x03".to_vec();
    expected.extend_from_slice(&[0, 0, 0, 1]);
    expected.extend_from_slice(&EmulatedTime::simulation_start().0.to_be_bytes());
    expected.extend_from_slice(&[0, 0, 0, 1]);
    expected.extend_from_slice(&[0, 0, 0, 0, 0, 0, 0, 2]);
    expected.extend_from_slice(&[0, 0, 0, 3]);
    expected.extend_from_slice(&[1, 11, 0, 0, 1, 0x04, 0xd2, 11, 0, 0, 2, 0x16, 0x2e]);
    expected.extend_from_slice(&[0, 0, 0, 0, 0, 0, 0, 9]);
    expected.extend_from_slice(&[0, 0, 0, 3]);
    expected.extend_from_slice(b"abc");
    assert_eq!(encoded, expected);
}

#[test]
fn outbound_remote_packet_buffer_drains_in_deterministic_order() {
    let packet = udp(b"payload", 1);

    let mut buffer = OutboundRemotePacketBuffer::default();
    buffer.push(ShardId(2), event(2, 0, 20, &packet));
    buffer.push(ShardId(1), event(3, 0, 30, &packet));
    buffer.push(ShardId(1), event(1, 1, 10, &packet));

    let packets = buffer.drain_sorted();

    assert!(buffer.is_empty());
    assert_eq!(packets[0].dst_shard, ShardId(1));
    assert_eq!(packets[0].event.src_host_id, HostId::from(1));
    assert_eq!(packets[1].dst_shard, ShardId(1));
    assert_eq!(packets[1].event.src_host_id, HostId::from(3));
    assert_eq!(packets[2].dst_shard, ShardId(2));
}

#[test]
fn remote_packet_event_converts_to_local_event_with_source_metadata() {
    let remote_event = event(10, 20, 30, &udp(b"payload", 1));
    let partition = PartitionMap::all_local(&[HostId::from(30)]);

    let (dst_host_id, local_event) =
        remote_event.into_local_event(default_shard_id(), &partition).unwrap();

    assert_eq!(dst_host_id, HostId::from(30));
    assert_eq!(local_event.time(), EmulatedTime::simulation_start());
    assert_eq!(local_event.packet_source_metadata(), Some((HostId::from(10), 20)));
}

#[test]
fn remote_packet_event_rejects_non_local_destination() {
    let remote_event = event(10, 20, 30, &udp(b"payload", 1));
    let partition = PartitionMap::from_host_shards(&[(HostId::from(30), ShardId(1))]);

    let err = remote_event.into_local_event(default_shard_id(), &partition).unwrap_err();

    assert_eq!(
        err,
        RemotePacketDeliveryError::NonLocalDestination {
            host_id: HostId::from(30),
            host_shard: ShardId(1),
            current_shard: default_shard_id(),
        }
    );
}

#[test]
fn remote_packet_event_rejects_unknown_destination() {
    let remote_event = event(10, 20, 30, &udp(b"payload", 1));
    let partition = PartitionMap::from_host_shards(&[]);

    let err = remote_event.into_local_event(default_shard_id(), &partition).unwrap_err();

    assert_eq!(err, RemotePacketDeliveryError::UnknownDestinationHost(HostId::from(30)));
}

#[test]
fn remote_packet_exchange_routes_packets_to_destination_shards() {
    let packet = udp(b"payload", 1);
    let event_to_shard_1 = event(1, 0, 10, &packet);
    let event_to_shard_2 = event(2, 0, 20, &packet);
    let mut exchange = InProcessRemotePacketExchange::default();

    exchange
        .send(vec![to_shard(2, &event_to_shard_2), to_shard(1, &event_to_shard_1)])
        .unwrap();

    assert_eq!(exchange.receive(ShardId(1)).unwrap(), [event_to_shard_1]);
    assert_eq!(exchange.receive(ShardId(2)).unwrap(), [event_to_shard_2]);
    assert!(exchange.receive(ShardId(1)).unwrap().is_empty());
}

#[test]
fn remote_packet_exchange_can_be_shared_through_arc() {
    let event = event(1, 0, 10, &udp(b"payload", 1));
    let sender = Arc::new(Mutex::new(InProcessRemotePacketExchange::default()));
    let receiver = Arc::clone(&sender);

    sender.lock().unwrap().send(vec![to_shard(1, &event)]).unwrap();

    assert_eq!(receiver.lock().unwrap().receive(ShardId(1)).unwrap(), [event]);
}

#[test]
fn remote_packet_exchange_receives_in_deterministic_order() {
    let packet = udp(b"payload", 1);
    let later_src = event(2, 0, 20, &packet);
    let earlier_src = event(1, 1, 10, &packet);
    let earliest_src_event = event(1, 0, 10, &packet);
    let mut exchange = InProcessRemotePacketExchange::default();

    exchange
        .send(vec![
            to_shard(1, &later_src),
            to_shard(1, &earlier_src),
            to_shard(1, &earliest_src_event),
        ])
        .unwrap();

    assert_eq!(
        exchange.receive(ShardId(1)).unwrap(),
        [earliest_src_event, earlier_src, later_src]
    );
}

#[test]
fn unix_socket_remote_packet_exchange_routes_packets_to_destination_shards() {
    let payload = b"ipc payload".to_vec();
    let packet = udp(&payload, 23);
    let later_src = event(2, 0, 20, &packet);
    let earlier_src = event(1, 0, 10, &packet);

    let groups = group_by_shard(vec![to_shard(1, &later_src), to_shard(1, &earlier_src)]);
    assert_eq!(groups.len(), 1);
    assert_eq!(groups[0].0, ShardId(1));
    let sent = encode_remote_packet_batch(&groups[0].1).unwrap();

    let mut inbound = InboundPackets::begin(ShardId(1), ShardId(1)).unwrap();
    inbound.accept(&sent).unwrap();
    let received = inbound.finish();

    assert_eq!(received, [earlier_src, later_src]);
    let packet = received[0].packet.clone().into_packet();
    assert_eq!(packet.src, source());
    assert_eq!(packet.dst, destination());
    assert_eq!(packet.priority, 23);
    assert_eq!(packet_payload_bytes(&packet), payload);
    let nothing = InboundPackets::begin(ShardId(1), ShardId(1)).unwrap();
    assert!(nothing.finish().is_empty());
}

#[test]
fn sockets_are_named_after_shards() {
    assert_eq!(unix_socket_path("/tmp/dir", ShardId(3)), "/tmp/dir/shadow-shard-3.sock");
    assert_eq!(unix_socket_path("/tmp/dir/", ShardId(3)), "/tmp/dir/shadow-shard-3.sock");
    assert_eq!(unix_control_socket_path("/tmp/dir"), "/tmp/dir/shadow-control.sock");
}

/// Hands a request to the server as it would come over a socket.
fn over_the_wire(request: &WireControlRequest) -> WireControlRequest {
    let frame = control_frame(request).unwrap();
    let len = u32::from_be_bytes([frame[0], frame[1], frame[2], frame[3]]);
    assert_eq!(accept_control_len(len, "request").unwrap(), frame.len() - 4);
    decode_control_message(&frame[4..], "request").unwrap()
}

/// Runs one round of several shards and gives the response.
fn round(
    server: &mut ControlServerState,
    clients: &mut [ControlClientState],
    times: &[Option<EmulatedTime>],
) -> WireControlResponse {
    let mut last = None;
    for (i, client) in clients.iter_mut().enumerate() {
        let request = over_the_wire(&client.begin_round(times[i]));
        let action = server.receive(ControlInput::Request(request));
        if i + 1 < times.len() {
            assert!(matches!(action, ControlAction::Read { connection } if connection == i + 1));
        } else {
            last = Some(action);
        }
    }
    match last {
        Some(ControlAction::Respond(response)) => response,
        other => panic!("unexpected action {other:?}"),
    }
}

#[test]
fn distributed_control_waits_for_all_shards_across_rounds() {
    let mut server = ControlServerState::new(3);
    let mut clients: Vec<_> = (0..3).map(|s| ControlClientState::new(ShardId(s))).collect();

    let first = round(&mut server, &mut clients, &[None, None, None]);
    assert_eq!(first.min_next_event_time, None);
    let second = round(&mut server, &mut clients, &[None, None, None]);
    assert_eq!(second.min_next_event_time, None);
}

#[test]
fn distributed_control_returns_global_min_next_event_time() {
    let mut server = ControlServerState::new(3);
    let mut clients: Vec<_> = (0..3).map(|s| ControlClientState::new(ShardId(s))).collect();
    let local_times = [
        Some(EmulatedTime::simulation_start()),
        Some(EmulatedTime::unix_epoch()),
        Some(EmulatedTime::max()),
    ];

    let response = round(&mut server, &mut clients, &local_times);

    assert_eq!(
        ControlClientState::global_min_next_event(&response).unwrap(),
        EmulatedTime::unix_epoch()
    );
}

#[test]
fn distributed_control_response_needs_a_valid_time() {
    let none = WireControlResponse { min_next_event_time: None };
    let err = ControlClientState::global_min_next_event(&none).unwrap_err();
    assert!(err.to_string().contains("did not include a global minimum next-event time"));

    let invalid = WireControlResponse { min_next_event_time: Some(u64::MAX) };
    let err = ControlClientState::global_min_next_event(&invalid).unwrap_err();
    assert!(
        err.to_string()
            .contains("invalid emulated time 18446744073709551615 in distributed control response")
    );
}

#[test]
fn distributed_control_unblocks_peer_when_shard_disconnects_mid_round() {
    let mut server = ControlServerState::new(2);
    let waiting = WireControlRequest { shard_id: 0, round: 0, min_next_event_time: None };
    assert!(matches!(
        server.receive(ControlInput::Request(waiting)),
        ControlAction::Read { connection: 1 }
    ));

    let closed = channel_closed_error();
    assert!(closed.to_string().contains("distributed control"));
    assert!(is_channel_closed(&closed));
    assert!(matches!(server.receive(ControlInput::Failure(closed)), ControlAction::Stop));
}

#[test]
fn distributed_control_server_reports_malformed_request() {
    let mut server = ControlServerState::new(1);
    let err = decode_control_message::<WireControlRequest>(b"nope", "request").unwrap_err();

    match server.receive(ControlInput::Failure(err)) {
        ControlAction::Fail(err) => assert!(
            err.to_string().contains("failed to decode distributed control request")
        ),
        other => panic!("unexpected action {other:?}"),
    }
}

#[test]
fn distributed_control_server_reports_duplicate_shard_request() {
    let mut server = ControlServerState::new(2);
    let request = WireControlRequest { shard_id: 0, round: 0, min_next_event_time: None };
    let again = WireControlRequest { shard_id: 0, round: 0, min_next_event_time: None };

    server.receive(ControlInput::Request(request));
    match server.receive(ControlInput::Request(again)) {
        ControlAction::Fail(err) => {
            assert!(err.to_string().contains("duplicate request from shard 0 in round 0"))
        }
        other => panic!("unexpected action {other:?}"),
    }
}

#[test]
fn distributed_control_server_rejects_wrong_rounds_and_shards() {
    let mut server = ControlServerState::new(1);
    let late = WireControlRequest { shard_id: 0, round: 7, min_next_event_time: None };
    assert!(matches!(server.receive(ControlInput::Request(late)), ControlAction::Fail(_)));

    let mut server = ControlServerState::new(1);
    let stranger = WireControlRequest { shard_id: 4, round: 0, min_next_event_time: None };
    assert!(matches!(server.receive(ControlInput::Request(stranger)), ControlAction::Fail(_)));
}

#[test]
fn unix_socket_remote_packet_exchange_rejects_wrong_receive_shard() {
    let err = InboundPackets::begin(ShardId(1), ShardId(0)).unwrap_err();

    assert!(err.to_string().contains("cannot receive packets for shard"));
}

#[test]
fn unix_socket_remote_packet_exchange_rejects_malformed_peer_batch() {
    let shard = ShardId(1);
    let mut inbound = InboundPackets::begin(shard, shard).unwrap();

    let err = inbound.accept(b"nope").unwrap_err();

    assert!(err.to_string().contains("failed to decode IPC packet batch"));
}

#[test]
fn noop_remote_packet_exchange_rejects_outbound_packets() {
    let event = event(1, 0, 10, &udp(b"payload", 1));
    let mut exchange = NoopRemotePacketExchange;

    let err = exchange.send(vec![to_shard(1, &event)]).unwrap_err();

    assert!(err.to_string().contains("no remote packet exchange backend"));
    assert!(exchange.receive(default_shard_id()).unwrap().is_empty());
    assert!(exchange.requires_external_synchronization());
}

#[test]
fn legacy_tcp_serialization_error_mentions_new_tcp_requirement() {
    assert!(
        PacketSerializationError::LegacyTcp.to_string().contains("experimental.use_new_tcp=true")
    );
}

#[test]
fn legacy_tcp_packet_is_not_serialized() {
    let mut packet = udp(b"payload", 1);
    packet.protocol = IanaProtocol::Tcp;
    packet.legacy_tcp = true;

    assert!(matches!(
        SerializedPacket::try_from_packet(&packet),
        Err(PacketSerializationError::LegacyTcp)
    ));
}

#[test]
fn udp_packet_travels_through_remote_exchange_into_destination_queue() {
    let src_host_id = HostId::from(10);
    let dst_host_id = HostId::from(20);
    let src_shard = ShardId(0);
    let dst_shard = ShardId(1);
    let deliver_time = EmulatedTime::simulation_start();
    let payload = b"cross shard udp".to_vec();
    let packet = udp(&payload, 7);
    let remote_event =
        RemotePacketEvent::new(deliver_time, src_host_id, 42, dst_host_id, &packet).unwrap();
    let mut outbound_buffer = OutboundRemotePacketBuffer::default();
    let mut exchange = InProcessRemotePacketExchange::default();
    let partition =
        PartitionMap::from_host_shards(&[(src_host_id, src_shard), (dst_host_id, dst_shard)]);

    outbound_buffer.push(dst_shard, remote_event);
    exchange.send(outbound_buffer.drain_sorted()).unwrap();
    let received = exchange.receive(dst_shard).unwrap();
    assert_eq!(received.len(), 1);

    let (received_dst_host_id, local_event) =
        received.into_iter().next().unwrap().into_local_event(dst_shard, &partition).unwrap();
    assert_eq!(received_dst_host_id, dst_host_id);
    assert_eq!(local_event.packet_source_metadata(), Some((src_host_id, 42)));
    assert_eq!(local_event.time(), deliver_time);
    let received_packet = local_event.into_packet();
    assert_eq!(received_packet.src, source());
    assert_eq!(received_packet.dst, destination());
    assert_eq!(received_packet.priority, 7);
    assert_eq!(packet_payload_bytes(&received_packet), payload);
}

#[test]
fn delivery_errors_become_exchange_errors() {
    let delivery = RemotePacketDeliveryError::UnknownDestinationHost(HostId::from(30));
    let text = delivery.to_string();
    let exchange = RemotePacketExchangeError::from(delivery);

    assert_eq!(exchange.to_string(), format!("remote packet delivery failed: {text}"));
}

#[test]
fn packets_survive_the_journey_between_shards() {
    let packet = Packet::new_ipv4_tcp(
        TcpHeader {
            src: source(),
            dst: destination(),
            flags: TcpFlags(ACK),
            seq: 1,
            ack: 2,
            window_size: 3,
            selective_acks: Some(vec![(4, 5)]),
            window_scale: None,
            timestamp: Some(6),
            timestamp_echo: None,
        },
        vec![b"ab".to_vec(), Vec::new(), b"c".to_vec()],
        7,
    );
    let sent = event(1, 2, 3, &packet);
    let bytes = encode_remote_packet_batch(std::slice::from_ref(&sent)).unwrap();
    let arrived = decode_remote_packet_batch(&bytes, ShardId(1)).unwrap().remove(0);
    let arrived = arrived.packet.into_packet();

    assert_eq!(arrived.protocol, packet.protocol);
    assert_eq!(arrived.src, packet.src);
    assert_eq!(arrived.dst, packet.dst);
    assert_eq!(arrived.priority, packet.priority);
    assert_eq!(arrived.tcp_header, packet.tcp_header);
    assert_eq!(packet_payload_bytes(&arrived), packet_payload_bytes(&packet));
    assert_eq!(arrived.payload.len(), 1);
}

fn wire_tcp(ranges: usize, payload: usize) -> WireSerializedPacket {
    WireSerializedPacket::Tcp {
        src_ip: 0x0b00_0001,
        src_port: 1,
        dst_ip: 0x0b00_0002,
        dst_port: 2,
        priority: 3,
        flags: ACK,
        seq: 4,
        ack: 5,
        window_size: 6,
        selective_acks: Some(vec![(7, 8); ranges]),
        window_scale: Some(9),
        timestamp: None,
        timestamp_echo: None,
        payload: vec![0; payload],
    }
}

#[test]
fn refused_packets_are_written_up_to_the_refused_field() {
    let fixed = [
        2, 0x0b, 0, 0, 1, 0, 1, 0x0b, 0, 0, 2, 0, 2, 0, 0, 0, 0, 0, 0, 0, 3, ACK, 0, 0, 0, 4, 0, 0,
        0, 5, 0, 6,
    ];
    let mut out = vec![0xff];
    let refused = wire_tcp(MAX_TCP_SELECTIVE_ACKS + 1, 0).encode_into(&mut out);
    assert!(refused.unwrap_err().to_string().contains("selective ACK ranges"));
    assert_eq!(out[0], 0xff);
    assert_eq!(out[1..], fixed);

    let mut out = Vec::new();
    let refused = wire_tcp(1, MAX_PACKET_PAYLOAD_BYTES + 1).encode_into(&mut out);
    assert!(refused.unwrap_err().to_string().contains("payload is too large"));
    let mut expected = fixed.to_vec();
    expected.extend([1, 0, 0, 0, 1, 0, 0, 0, 7, 0, 0, 0, 8, 1, 9, 0, 0]);
    assert_eq!(out, expected);

    let mut out = Vec::new();
    let event = WireRemotePacketEvent {
        deliver_time: 1,
        src_host_id: 2,
        src_host_event_id: 3,
        dst_host_id: 4,
        packet: WireSerializedPacket::Udp {
            src_ip: 5,
            src_port: 6,
            dst_ip: 7,
            dst_port: 8,
            priority: 9,
            payload: vec![0; MAX_PACKET_PAYLOAD_BYTES + 1],
        },
    };
    assert!(event.encode_into(&mut out).is_err());
    assert_eq!(
        out,
        [
            0, 0, 0, 0, 0, 0, 0, 1, 0, 0, 0, 2, 0, 0, 0, 0, 0, 0, 0, 3, 0, 0, 0, 4, 1, 0, 0, 0, 5,
            0, 6, 0, 0, 0, 7, 0, 8, 0, 0, 0, 0, 0, 0, 0, 9,
        ]
    );
}
