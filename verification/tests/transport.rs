use std::collections::HashMap;
use std::sync::{Arc, Mutex};

use shadow_rs::ids::{HostId, ShardId, default_shard_id};
use shadow_rs::net::Ipv4Addr;
use shadow_rs::time::{EmulatedTime, SimulationTime};
use shadow_rs::transport::event::{MAX_PAYLOAD_BYTES, RemotePacketEvent};
use shadow_rs::transport::exchange::{
    InProcessRemotePacketExchange, InboundRound, NoopRemotePacketExchange, RemotePacketExchange,
    accept_batch_len, decode_remote_packet_batch, earliest, encode_remote_packet_batch, frame,
    outgoing_frames, socket_file_name,
};
use shadow_rs::transport::mpi_backend::{
    MpiRemotePacketExchange, MpiSynchronizer, MpiUniverse, check_mpi, displacements, fatal_message,
    mpi_rank_size, part_counts, payload_exchange_needed, round_bytes,
};
use shadow_rs::transport::packet::{PacketSerializationError, SerializedPacket};
use shadow_rs::transport::partition::PartitionMap;
use shadow_rs::transport::synchronizer::{
    ControlMessage, ControlResponse, DistributedSynchronizer, SingleShardSynchronizer,
    accept_response_len,
};

fn after_start(nanos: u64) -> EmulatedTime {
    EmulatedTime::simulation_start().checked_add(SimulationTime::from_nanos(nanos)).unwrap()
}

fn make_test_event(src: u32, dst: u32, id: u64) -> RemotePacketEvent {
    RemotePacketEvent {
        deliver_time: after_start(id * 100),
        src_host_id: HostId::from(src),
        src_host_event_id: id,
        dst_host_id: HostId::from(dst),
        packet: SerializedPacket::Udp {
            src_ip: Ipv4Addr::new(10, 0, 0, (src + 1) as u8),
            dst_ip: Ipv4Addr::new(10, 0, 0, (dst + 1) as u8),
            src_port: 8000,
            dst_port: 9000,
            priority: 0,
            payload: b"test".to_vec(),
        },
    }
}

fn empty_udp() -> SerializedPacket {
    SerializedPacket::Udp {
        src_ip: Ipv4Addr::new(10, 0, 0, 1),
        dst_ip: Ipv4Addr::new(10, 0, 0, 2),
        src_port: 0,
        dst_port: 0,
        priority: 0,
        payload: vec![],
    }
}

#[test]
fn noop_send_empty_ok() {
    let mut ex = NoopRemotePacketExchange;
    assert!(ex.send(ShardId(0), &[]).is_ok());
}

#[test]
fn noop_send_nonempty_err() {
    let mut ex = NoopRemotePacketExchange;
    let event = make_test_event(0, 1, 0);
    assert!(ex.send(ShardId(0), &[event]).is_err());
}

#[test]
fn noop_receive_empty() {
    let mut ex = NoopRemotePacketExchange;
    let (events, min_time) = ex.receive(ShardId(0)).unwrap();
    assert!(events.is_empty());
    assert!(min_time.is_none());
}

#[test]
fn inprocess_send_receive() {
    let mut ex = InProcessRemotePacketExchange::new(2);
    let event = make_test_event(0, 1, 0);
    // Send from shard 0
    ex.send(ShardId(0), &[event.clone()]).unwrap();
    // Receive on shard 1
    let (events, min_time) = ex.receive(ShardId(1)).unwrap();
    assert_eq!(events.len(), 1);
    assert_eq!(events[0].src_host_id, HostId::from(0u32));
    assert_eq!(events[0].dst_host_id, HostId::from(1u32));
    assert!(min_time.is_some());
}

#[test]
fn inprocess_deterministic_order() {
    let mut ex = InProcessRemotePacketExchange::new(2);
    let e1 = make_test_event(0, 1, 1);
    let e2 = make_test_event(0, 1, 0);
    ex.send(ShardId(0), &[e1, e2]).unwrap();
    let (events, _) = ex.receive(ShardId(1)).unwrap();
    assert_eq!(events[0].src_host_event_id, 0);
    assert_eq!(events[1].src_host_event_id, 1);
}

#[test]
fn inprocess_arc_sharing() {
    let ex = Arc::new(Mutex::new(InProcessRemotePacketExchange::new(2)));
    let event = make_test_event(0, 1, 0);
    ex.lock().unwrap().send(ShardId(0), &[event]).unwrap();
    let (events, _) = ex.lock().unwrap().receive(ShardId(1)).unwrap();
    assert_eq!(events.len(), 1);
}

#[test]
fn unix_socket_send_receive_two_shards() {
    let event = make_test_event(0, 1, 0);
    let frames = outgoing_frames(ShardId(0), 2, &[event]);
    assert_eq!(frames.len(), 1);
    assert_eq!(frames[0].0, ShardId(1));
    let sent = &frames[0].1;
    let len = u32::from_be_bytes([sent[0], sent[1], sent[2], sent[3]]);
    assert_eq!(accept_batch_len(len).unwrap(), sent.len() - 4);

    let mut round = InboundRound::new(2);
    assert!(!round.is_complete());
    assert!(RemotePacketEvent::batch_is_decodable(&sent[4..]));
    round.accept(&sent[4..]).unwrap();
    assert!(round.is_complete());
    let (events, min_time) = round.finish();
    assert_eq!(events.len(), 1);
    assert_eq!(events[0].src_host_id, HostId::from(0u32));
    assert_eq!(events[0].dst_host_id, HostId::from(1u32));
    assert!(min_time.is_some());
}

#[test]
fn frames_go_to_other_shards_in_order_and_sorted() {
    let events = [make_test_event(0, 2, 5), make_test_event(0, 1, 3), make_test_event(0, 2, 4)];
    let frames = outgoing_frames(ShardId(0), 3, &events);
    let shards: Vec<u32> = frames.iter().map(|f| f.0.0).collect();
    assert_eq!(shards, [1, 2]);
    let to_two = decode_remote_packet_batch(&frames[1].1[4..]).unwrap();
    let ids: Vec<u64> = to_two.iter().map(|e| e.src_host_event_id).collect();
    assert_eq!(ids, [4, 5]);
    assert!(outgoing_frames(ShardId(2), 3, &[make_test_event(0, 2, 5)]).is_empty());
}

#[test]
fn malformed_peer_batch_is_refused() {
    let mut round = InboundRound::new(2);
    let err = round.accept(b"nope").unwrap_err();
    assert!(err.to_string().contains("Failed to decode peer batch: "));
    assert!(!round.is_complete());
}

#[test]
fn batch_encode_decode_roundtrip() {
    let events: Vec<_> = (0..5).map(|i| make_test_event(i, (i + 1) % 5, i as u64)).collect();
    let encoded = encode_remote_packet_batch(&events);
    let decoded = decode_remote_packet_batch(&encoded).unwrap();
    assert_eq!(events.len(), decoded.len());
    for (a, b) in events.iter().zip(decoded.iter()) {
        assert_eq!(a.src_host_id, b.src_host_id);
        assert_eq!(a.src_host_event_id, b.src_host_event_id);
        assert_eq!(a.dst_host_id, b.dst_host_id);
    }
}

#[test]
fn partition_map_all_local_default() {
    let hosts: Vec<HostId> = (0..4).map(|i| HostId::from(i)).collect();
    let map = PartitionMap::by_host_id_modulo(&hosts, 1).unwrap();
    for host in &hosts {
        assert!(map.is_host_local(*host, default_shard_id()));
    }
    assert_eq!(map.num_shards(), 1);
}

#[test]
fn partition_map_modulo_two_shards() {
    let hosts: Vec<HostId> = (0..4).map(|i| HostId::from(i)).collect();
    let map = PartitionMap::by_host_id_modulo(&hosts, 2).unwrap();
    assert!(map.is_host_local(HostId::from(0), ShardId(0)));
    assert!(map.is_host_local(HostId::from(2), ShardId(0)));
    assert!(map.is_host_local(HostId::from(1), ShardId(1)));
    assert!(map.is_host_local(HostId::from(3), ShardId(1)));
    assert_eq!(map.num_shards(), 2);
}

#[test]
fn partition_map_keeps_its_shard_count() {
    let map = PartitionMap::by_host_id_modulo(&[HostId::from(0)], 4).unwrap();
    assert_eq!(map.num_shards(), 4);
    assert_eq!(map.clone().num_shards(), 4);
    let none = PartitionMap::from_host_shards(HashMap::new(), 3).unwrap();
    assert_eq!(none.num_shards(), 3);
    let laid_down = HashMap::from([(5, ShardId(1))]);
    let map = PartitionMap::from_host_shards(laid_down, 6).unwrap();
    assert_eq!(map.num_shards(), 6);
    assert_eq!(map.shard_for_host(HostId::from(5)), Some(ShardId(1)));
}

#[test]
fn partition_map_zero_shards_rejected() {
    let hosts: Vec<HostId> = vec![];
    assert!(PartitionMap::by_host_id_modulo(&hosts, 0).is_err());
}

#[test]
fn partition_map_lists_its_hosts() {
    let hosts = [HostId::from(9), HostId::from(2), HostId::from(5)];
    let map = PartitionMap::by_host_id_modulo(&hosts, 2).unwrap();
    let mut listed: Vec<u32> = map.host_ids().iter().map(|h| h.0).collect();
    listed.sort();
    assert_eq!(listed, [2, 5, 9]);
    assert_eq!(map.shard_for_host(HostId::from(7)), None);
}

#[test]
fn serialized_udp_round_trip() {
    let pkt = SerializedPacket::Udp {
        src_ip: Ipv4Addr::new(10, 0, 0, 1),
        dst_ip: Ipv4Addr::new(10, 0, 0, 2),
        src_port: 1234,
        dst_port: 5678,
        priority: 5u64,
        payload: b"hello world".to_vec(),
    };
    let bytes = pkt.to_bytes();
    let pkt2 = SerializedPacket::from_bytes(&bytes).unwrap();
    assert_eq!(pkt, pkt2);
}

#[test]
fn serialized_tcp_round_trip() {
    let pkt = SerializedPacket::Tcp {
        src_ip: Ipv4Addr::new(10, 0, 0, 1),
        dst_ip: Ipv4Addr::new(10, 0, 0, 2),
        src_port: 1234,
        dst_port: 80,
        flags: 0x12,
        seq: 1000,
        ack: 2000,
        window_size: 65535,
        window_scale: Some(7),
        selective_acks: vec![(100, 200), (300, 400)],
        timestamp: Some(12345),
        timestamp_echo: Some(67890),
        priority: 3u64,
        payload: b"GET / HTTP/1.1\r\n\r\n".to_vec(),
    };
    let bytes = pkt.to_bytes();
    let pkt2 = SerializedPacket::from_bytes(&bytes).unwrap();
    assert_eq!(pkt, pkt2);
}

#[test]
fn serialized_tcp_zero_payload() {
    let pkt = SerializedPacket::Tcp {
        src_ip: Ipv4Addr::new(10, 0, 0, 1),
        dst_ip: Ipv4Addr::new(10, 0, 0, 2),
        src_port: 1234,
        dst_port: 80,
        flags: 0x02,
        seq: 0,
        ack: 0,
        window_size: 0,
        window_scale: None,
        selective_acks: vec![],
        timestamp: None,
        timestamp_echo: None,
        priority: 0u64,
        payload: vec![],
    };
    let bytes = pkt.to_bytes();
    let pkt2 = SerializedPacket::from_bytes(&bytes).unwrap();
    assert_eq!(pkt, pkt2);
}

#[test]
fn serialized_udp_zero_payload() {
    let pkt = empty_udp();
    let bytes = pkt.to_bytes();
    let pkt2 = SerializedPacket::from_bytes(&bytes).unwrap();
    assert_eq!(pkt, pkt2);
}

#[test]
fn serialized_packet_rejects_other_bytes() {
    assert!(SerializedPacket::from_bytes(b"").is_err());
    let mut bytes = empty_udp().to_bytes();
    bytes.pop();
    assert!(SerializedPacket::from_bytes(&bytes).is_err());
}

#[test]
fn remote_packet_event_encode_decode_udp() {
    let event = RemotePacketEvent {
        deliver_time: after_start(1000),
        src_host_id: HostId::from(0u32),
        src_host_event_id: 42,
        dst_host_id: HostId::from(1u32),
        packet: SerializedPacket::Udp {
            src_ip: Ipv4Addr::new(10, 0, 0, 1),
            dst_ip: Ipv4Addr::new(10, 0, 0, 2),
            src_port: 8000,
            dst_port: 9000,
            priority: 0u64,
            payload: b"test".to_vec(),
        },
    };
    let batch = RemotePacketEvent::encode_batch(&[event]);
    let decoded = RemotePacketEvent::decode_batch(&batch).unwrap();
    assert_eq!(decoded.len(), 1);
    assert_eq!(decoded[0].src_host_id, HostId::from(0u32));
    assert_eq!(decoded[0].src_host_event_id, 42);
    assert_eq!(decoded[0].dst_host_id, HostId::from(1u32));
}

#[test]
fn remote_packet_event_deterministic_order() {
    let e1 = RemotePacketEvent {
        deliver_time: after_start(100),
        src_host_id: HostId::from(0u32),
        src_host_event_id: 0,
        dst_host_id: HostId::from(1u32),
        packet: empty_udp(),
    };
    let e2 = RemotePacketEvent {
        deliver_time: after_start(200),
        src_host_id: HostId::from(0u32),
        src_host_event_id: 1,
        dst_host_id: HostId::from(1u32),
        packet: empty_udp(),
    };
    let batch = RemotePacketEvent::encode_batch(&[e1.clone(), e2.clone()]);
    let decoded = RemotePacketEvent::decode_batch(&batch).unwrap();
    assert_eq!(decoded[0].deliver_time, e1.deliver_time);
    assert_eq!(decoded[1].deliver_time, e2.deliver_time);
}

#[test]
fn into_local_event_rejects_non_local() {
    let hosts: Vec<HostId> = vec![HostId::from(0), HostId::from(1)];
    let map = PartitionMap::by_host_id_modulo(&hosts, 2).unwrap();
    let event = RemotePacketEvent {
        deliver_time: EmulatedTime::simulation_start(),
        src_host_id: HostId::from(0u32),
        src_host_event_id: 0,
        dst_host_id: HostId::from(1u32),
        packet: empty_udp(),
    };
    // dst_host_id=1 belongs to shard 1, not shard 0
    let result = event.into_local_event(ShardId(0), &map);
    assert!(result.is_err());
}

#[test]
fn into_local_event_keeps_the_event() {
    let map = PartitionMap::by_host_id_modulo(&[HostId::from(0), HostId::from(1)], 2).unwrap();
    let delivery = make_test_event(0, 1, 7).into_local_event(ShardId(1), &map).unwrap();
    assert_eq!(delivery.deliver_time, after_start(700));
    assert_eq!(delivery.src_host_event_id, 7);
    assert_eq!(delivery.dst_host_id, HostId::from(1));
}

#[test]
fn frames_hold_their_length() {
    assert_eq!(frame(b"abc"), vec![0, 0, 0, 3, b'a', b'b', b'c']);
    assert_eq!(socket_file_name(ShardId(12)), "shadow-shard-12.sock");
    assert!(accept_batch_len(u32::MAX).is_err());
}

#[test]
fn earliest_event_is_the_first_of_a_sorted_list() {
    let events = vec![make_test_event(0, 1, 3), make_test_event(0, 1, 4)];
    assert_eq!(earliest(&events), Some(after_start(300)));
    assert_eq!(earliest(&Vec::new()), None);
}

#[test]
fn single_shard_reports_its_own_next_event() {
    let mut synchronizer = SingleShardSynchronizer;
    assert!(synchronizer.wait().is_ok());
    assert_eq!(synchronizer.global_min_next_event(after_start(5)).unwrap(), after_start(5));
}

#[test]
fn control_reports_and_responses_agree() {
    let report = ControlMessage::report(after_start(9));
    assert!(!report.to_bytes().is_empty());
    assert!(ControlResponse::from_bytes(b"").is_err());
    assert!(accept_response_len(u32::MAX).is_err());
}

#[test]
fn mpi_reductions_keep_times() {
    let number = MpiSynchronizer::local_number(after_start(77));
    assert_eq!(number, 77);
    assert_eq!(MpiSynchronizer::global_time(number), after_start(77));
    assert_eq!(MpiSynchronizer::local_number(EmulatedTime::max()), i64::MAX);
    assert_eq!(MpiSynchronizer::global_time(i64::MAX), EmulatedTime::max());
}

#[test]
fn mpi_universe_gives_rank_and_size() {
    let universe = MpiUniverse { rank: 2, size: 4 };
    assert_eq!(mpi_rank_size(Some(&universe)).unwrap(), (2, 4));
    assert!(MpiSynchronizer::new(Some(&universe)).is_ok());
    assert!(check_mpi(0, "MPI_Barrier").is_ok());
    let error = check_mpi(5, "MPI_Barrier").unwrap_err();
    assert!(error.to_string().contains("MPI_Barrier"));
    assert!(fatal_message("exchange", &error).contains("exchange"));
}

#[test]
fn mpi_parts_are_found_at_their_displacements() {
    assert_eq!(displacements(&[3, 0, 2]).unwrap(), vec![0, 3, 3]);
    assert!(displacements(&[i32::MAX, 1]).is_err());
    assert_eq!(part_counts(&vec![vec![1, 2], vec![], vec![3]]), vec![2, 0, 1]);
    assert_eq!(round_bytes(u64::MAX, 1), u64::MAX);
    assert_eq!(round_bytes(2, 1), 3);
    assert!(!payload_exchange_needed(0));
    assert!(payload_exchange_needed(1));
}

#[test]
fn mpi_round_delivers_what_was_sent() {
    let map = PartitionMap::by_host_id_modulo(&[HostId::from(0), HostId::from(1)], 2).unwrap();
    let universe = MpiUniverse { rank: 0, size: 2 };
    let mut exchange = MpiRemotePacketExchange::new(Some(&universe), map).unwrap();
    assert!(!exchange.requires_external_synchronization());

    let sent = [make_test_event(0, 1, 4), make_test_event(0, 1, 2)];
    let batches = exchange.outgoing_batches(&sent).unwrap();
    assert!(batches[0].is_empty());
    let counts = part_counts(&batches);
    let displs = displacements(&counts).unwrap();
    exchange.accept_round(&batches[1], &counts, &displs).unwrap();
    let (events, min_time) = exchange.receive();
    assert_eq!(events, [make_test_event(0, 1, 2), make_test_event(0, 1, 4)]);
    assert_eq!(min_time, Some(after_start(200)));

    let lost = [make_test_event(0, 9, 1)];
    assert!(exchange.outgoing_batches(&lost).is_err());
}

fn event_with_payload(len: usize) -> RemotePacketEvent {
    let mut event = make_test_event(0, 1, 1);
    event.packet = SerializedPacket::Udp {
        src_ip: Ipv4Addr::new(10, 0, 0, 1),
        dst_ip: Ipv4Addr::new(10, 0, 0, 2),
        src_port: 1,
        dst_port: 2,
        priority: 3,
        payload: vec![7; len],
    };
    event
}

#[test]
fn largest_payload_is_read_back() {
    let event = event_with_payload(MAX_PAYLOAD_BYTES);
    assert_eq!(event.packet.payload_len(), 16 * 1024 * 1024);
    let bytes = RemotePacketEvent::encode_batch(&[event.clone()]);
    assert_eq!(RemotePacketEvent::decode_batch(&bytes).unwrap(), [event]);
}

#[test]
fn payload_past_the_largest_is_refused() {
    let bytes = RemotePacketEvent::encode_batch(&[event_with_payload(MAX_PAYLOAD_BYTES + 1)]);
    assert!(RemotePacketEvent::batch_is_decodable(&bytes));
    assert_eq!(
        RemotePacketEvent::decode_batch(&bytes).unwrap_err(),
        PacketSerializationError::TooManySackBlocks(MAX_PAYLOAD_BYTES + 1)
    );
}

#[test]
fn mpi_reduction_over_many_ranks_gives_the_earliest_time() {
    let times = [after_start(90), EmulatedTime::max(), after_start(0), after_start(77)];
    let least = times.iter().map(|t| MpiSynchronizer::local_number(*t)).min().unwrap();
    assert_eq!(MpiSynchronizer::global_time(least), after_start(0));
    let idle = [EmulatedTime::max(), EmulatedTime::max(), EmulatedTime::max()];
    let least = idle.iter().map(|t| MpiSynchronizer::local_number(*t)).min().unwrap();
    assert_eq!(MpiSynchronizer::global_time(least), EmulatedTime::max());
}

#[test]
fn mpi_rank_receives_what_all_ranks_sent_to_it() {
    let hosts: Vec<HostId> = (0..3).map(HostId::from).collect();
    let map = PartitionMap::by_host_id_modulo(&hosts, 3).unwrap();
    let exchanges: Vec<MpiRemotePacketExchange> = (0..3)
        .map(|rank| {
            let universe = MpiUniverse { rank, size: 3 };
            MpiRemotePacketExchange::new(Some(&universe), map.clone()).unwrap()
        })
        .collect();
    let sent = [
        vec![make_test_event(0, 1, 5), make_test_event(0, 2, 1), make_test_event(0, 1, 3)],
        vec![make_test_event(1, 2, 9)],
        vec![make_test_event(2, 1, 4), make_test_event(2, 1, 3), make_test_event(2, 0, 8)],
    ];
    let mut receiver = MpiRemotePacketExchange::new(
        Some(&MpiUniverse { rank: 1, size: 3 }),
        map.clone(),
    )
    .unwrap();
    // what each rank sends to rank 1
    let parts: Vec<Vec<u8>> = (0..3)
        .map(|rank| exchanges[rank].outgoing_batches(&sent[rank]).unwrap().swap_remove(1))
        .collect();
    assert!(parts[1].is_empty());
    let counts = part_counts(&parts);
    let displs = displacements(&counts).unwrap();
    receiver.accept_round(&parts.concat(), &counts, &displs).unwrap();
    let (events, min_time) = receiver.receive();
    assert_eq!(
        events,
        [
            make_test_event(0, 1, 3),
            make_test_event(2, 1, 3),
            make_test_event(2, 1, 4),
            make_test_event(0, 1, 5),
        ]
    );
    assert_eq!(min_time, Some(after_start(300)));
    // nothing is received twice
    assert_eq!(receiver.receive(), (vec![], None));
}

#[test]
fn mpi_faults_are_found_before_anything_is_encoded() {
    let map = PartitionMap::by_host_id_modulo(&[HostId::from(0), HostId::from(1)], 2).unwrap();
    let universe = MpiUniverse { rank: 0, size: 1 };
    let exchange = MpiRemotePacketExchange::new(Some(&universe), map).unwrap();
    let mut unknown = make_test_event(0, 9, 1);
    unknown.deliver_time = EmulatedTime(0);
    assert!(exchange.has_fault(&[make_test_event(1, 0, 1), unknown.clone()]));
    assert_eq!(
        exchange.outgoing_batches(&[unknown]).unwrap_err().message,
        "Unknown destination host HostId(9)"
    );
    assert!(exchange.has_fault(&[make_test_event(0, 1, 1)]));
    assert_eq!(
        exchange.outgoing_batches(&[make_test_event(0, 1, 1)]).unwrap_err().message,
        "Destination shard 1 for host HostId(1) exceeds MPI world size 1"
    );
    assert!(!exchange.has_fault(&[make_test_event(1, 0, 1)]));
}

#[test]
fn mpi_round_that_the_format_cannot_carry_is_refused() {
    let map = PartitionMap::by_host_id_modulo(&[HostId::from(0)], 1).unwrap();
    let universe = MpiUniverse { rank: 0, size: 1 };
    let mut exchange = MpiRemotePacketExchange::new(Some(&universe), map).unwrap();
    let mut event = make_test_event(0, 0, 1);
    event.packet = SerializedPacket::Tcp {
        src_ip: Ipv4Addr::new(10, 0, 0, 1),
        dst_ip: Ipv4Addr::new(10, 0, 0, 2),
        src_port: 1,
        dst_port: 2,
        flags: 0,
        seq: 0,
        ack: 0,
        window_size: 0,
        window_scale: Some(1),
        selective_acks: vec![(1, 2); 65],
        timestamp: None,
        timestamp_echo: None,
        priority: 0,
        payload: vec![],
    };
    let parts = exchange.outgoing_batches(&[make_test_event(0, 0, 2), event]).unwrap();
    let counts = part_counts(&parts);
    let displs = displacements(&counts).unwrap();
    let refused = exchange.accept_round(&parts[0], &counts, &displs).unwrap_err();
    assert_eq!(
        refused.message,
        "Failed to decode MPI batch from rank 0: Too many SACK blocks: 65"
    );
    assert_eq!(exchange.receive(), (vec![], None));
}
