use std::time::Duration;

use shadow_rs::sim_stats::SharedSimStats;

#[test]
fn records_distributed_stats() {
    let mut stats = SharedSimStats::new();

    stats.record_remote_packets_sent(2, 100);
    stats.record_remote_packet_cut_sent(0, 1, 2, 100);
    stats.record_remote_packets_received(3, 200);
    stats.record_remote_packet_cut_received(0, 1, 3, 200);
    stats.record_distributed_barrier_wait(Duration::from_nanos(50).as_nanos());
    stats.record_mpi_barrier_wait(Duration::from_nanos(60).as_nanos());
    stats.record_mpi_allreduce_time(Duration::from_nanos(70).as_nanos());
    stats.record_mpi_alltoall_sizes_time(Duration::from_nanos(80).as_nanos());
    stats.record_mpi_alltoallv_payload_time(Duration::from_nanos(90).as_nanos());
    stats.record_remote_packet_encode_time(Duration::from_nanos(100).as_nanos());
    stats.record_remote_packet_decode_time(Duration::from_nanos(110).as_nanos());
    stats.record_remote_packet_inbound_injection_time(Duration::from_nanos(120).as_nanos());

    let distributed = stats.distributed.clone();
    assert_eq!(distributed.remote_packets_sent, 2);
    assert_eq!(distributed.remote_packet_payload_bytes_sent, 100);
    assert_eq!(distributed.remote_packets_received, 3);
    assert_eq!(distributed.remote_packet_payload_bytes_received, 200);
    let cut = distributed.remote_packet_cut_matrix.get("0->1").unwrap();
    assert_eq!(cut.src_shard, 0);
    assert_eq!(cut.dst_shard, 1);
    assert_eq!(cut.packets_sent, 2);
    assert_eq!(cut.payload_bytes_sent, 100);
    assert_eq!(cut.packets_received, 3);
    assert_eq!(cut.payload_bytes_received, 200);
    assert_eq!(distributed.control_barrier_wait_count, 1);
    assert_eq!(distributed.control_barrier_wait_time_ns, 50);
    assert_eq!(distributed.mpi_barrier_wait_count, 1);
    assert_eq!(distributed.mpi_barrier_wait_time_ns, 60);
    assert_eq!(distributed.mpi_allreduce_count, 1);
    assert_eq!(distributed.mpi_allreduce_time_ns, 70);
    assert_eq!(distributed.mpi_alltoall_sizes_count, 1);
    assert_eq!(distributed.mpi_alltoall_sizes_time_ns, 80);
    assert_eq!(distributed.mpi_alltoallv_payload_count, 1);
    assert_eq!(distributed.mpi_alltoallv_payload_time_ns, 90);
    assert_eq!(distributed.remote_packet_encode_count, 1);
    assert_eq!(distributed.remote_packet_encode_time_ns, 100);
    assert_eq!(distributed.remote_packet_decode_count, 1);
    assert_eq!(distributed.remote_packet_decode_time_ns, 110);
    assert_eq!(distributed.remote_packet_inbound_injection_count, 1);
    assert_eq!(distributed.remote_packet_inbound_injection_time_ns, 120);
}

#[test]
fn totals_are_sums_whatever_is_recorded_between() {
    let mut stats = SharedSimStats::new();
    stats.record_remote_packets_received(1, 10);
    stats.record_remote_packets_sent(100, 1000);
    stats.record_remote_packet_cut_received(1, 0, 1, 10);
    stats.record_remote_packets_received(2, 20);
    stats.record_mpi_barrier_wait(5);
    stats.record_remote_packet_cut_sent(0, 1, 100, 1000);
    stats.record_remote_packet_cut_received(2, 0, 9, 90);
    stats.record_remote_packets_received(3, 30);
    stats.record_remote_packet_cut_received(1, 0, 2, 20);
    stats.record_mpi_barrier_wait(u128::MAX);

    let distributed = &stats.distributed;
    assert_eq!(distributed.remote_packets_received, 6);
    assert_eq!(distributed.remote_packet_payload_bytes_received, 60);
    assert_eq!(distributed.remote_packets_sent, 100);
    assert_eq!(distributed.remote_packet_payload_bytes_sent, 1000);
    let cut = distributed.remote_packet_cut_matrix.get("1->0").unwrap();
    assert_eq!(cut.packets_received, 3);
    assert_eq!(cut.payload_bytes_received, 30);
    assert_eq!(cut.packets_sent, 0);
    for ((src_shard, dst_shard), cut) in distributed.remote_packet_cut_matrix.entries() {
        assert_eq!((cut.src_shard, cut.dst_shard), (src_shard, dst_shard));
    }
    assert_eq!(distributed.mpi_barrier_wait_count, 2);
    assert_eq!(distributed.mpi_barrier_wait_time_ns, u64::MAX);
    assert_eq!(distributed.control_barrier_wait_count, 0);
}
