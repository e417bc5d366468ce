//! Statistics of a simulation: objects, system calls, and what the shards of a split run sent each
//! other and how long they took over it.

use vstd::prelude::*;
use vstd::string::*;

use crate::assoc::{assoc, lemma_assoc_at, lemma_assoc_push, lemma_assoc_update};
use crate::counter::{Counter, added, sums_fit};
use crate::text::{
    decimal, lemma_decimal_digits, lemma_decimal_injective, push_decimal, same_text,
};

verus! {

/// What was sent over one directed cut between two shards.
#[derive(Clone, Copy, Debug, PartialEq, Eq, Structural)]
pub struct DistributedShardCutStats {
    pub src_shard: u32,
    pub dst_shard: u32,
    pub packets_sent: u64,
    pub payload_bytes_sent: u64,
    pub packets_received: u64,
    pub payload_bytes_received: u64,
}

impl DistributedShardCutStats {
    /// A cut over which nothing was sent yet.
    pub open spec fn unused(src_shard: u32, dst_shard: u32) -> Self {
        DistributedShardCutStats {
            src_shard,
            dst_shard,
            packets_sent: 0,
            payload_bytes_sent: 0,
            packets_received: 0,
            payload_bytes_received: 0,
        }
    }
}

impl Default for DistributedShardCutStats {
    fn default() -> (cut: Self)
        ensures
            cut == DistributedShardCutStats::unused(0, 0),
    {
        DistributedShardCutStats {
            src_shard: 0,
            dst_shard: 0,
            packets_sent: 0,
            payload_bytes_sent: 0,
            packets_received: 0,
            payload_bytes_received: 0,
        }
    }
}

/// The label of a cut, such as `0->1`.
pub open spec fn cut_label(src_shard: u32, dst_shard: u32) -> Seq<char> {
    decimal(src_shard as nat) + "->"@ + decimal(dst_shard as nat)
}

/// The statistics of every cut over which something was sent.
#[derive(Clone, Debug)]
pub struct CutMatrix {
    cuts: Vec<(u32, u32)>,
    stats: Vec<DistributedShardCutStats>,
}

impl View for CutMatrix {
    type V = Map<(u32, u32), DistributedShardCutStats>;

    closed spec fn view(&self) -> Map<(u32, u32), DistributedShardCutStats> {
        assoc(self.cuts@, self.stats@)
    }
}

/// The statistics of a cut, whether something was sent over it or not.
pub open spec fn cut_of(
    matrix: Map<(u32, u32), DistributedShardCutStats>,
    src_shard: u32,
    dst_shard: u32,
) -> DistributedShardCutStats {
    if matrix.contains_key((src_shard, dst_shard)) {
        matrix[(src_shard, dst_shard)]
    } else {
        DistributedShardCutStats::unused(src_shard, dst_shard)
    }
}

impl CutMatrix {
    /// Every cut is listed once, beside its statistics.
    pub closed spec fn is_listed(&self) -> bool {
        &&& self.cuts@.len() == self.stats@.len()
        &&& self.cuts@.no_duplicates()
    }

    /// Every cut is listed once, and its statistics carry its own two shards.
    pub open spec fn wf(&self) -> bool {
        &&& self.is_listed()
        &&& forall|cut: (u32, u32)| #[trigger]
            self@.contains_key(cut) ==> self@[cut].src_shard == cut.0 && self@[cut].dst_shard
                == cut.1
    }

    /// All cuts with their statistics, in the order in which they were first used.
    pub fn entries(&self) -> (entries: Vec<((u32, u32), DistributedShardCutStats)>)
        requires
            self.wf(),
        ensures
            forall|i: int| 0 <= i < entries@.len() ==> self@.contains_key(
                (#[trigger] entries@[i]).0,
            ) && self@[entries@[i].0] == entries@[i].1,
            forall|cut: (u32, u32)| #[trigger] self@.contains_key(cut) ==> exists|i: int|
                0 <= i < entries@.len() && (#[trigger] entries@[i]).0 == cut,
            forall|i: int, j: int|
                0 <= i < j < entries@.len() ==> (#[trigger] entries@[i]).0 != (
                #[trigger] entries@[j]).0,
    {
        let mut entries: Vec<((u32, u32), DistributedShardCutStats)> = Vec::new();
        let mut i: usize = 0;
        while i < self.cuts.len()
            invariant
                self.wf(),
                i <= self.cuts@.len(),
                entries@.len() == i,
                forall|j: int|
                    0 <= j < i ==> #[trigger] entries@[j] == (self.cuts@[j], self.stats@[j]),
            decreases self.cuts@.len() - i,
        {
            entries.push((self.cuts[i], self.stats[i]));
            i += 1;
        }
        proof {
            assert forall|j: int| 0 <= j < entries@.len() implies self@.contains_key(
                (#[trigger] entries@[j]).0,
            ) && self@[entries@[j].0] == entries@[j].1 by {
                lemma_assoc_at(self.cuts@, self.stats@, j);
            }
            assert forall|cut: (u32, u32)| #[trigger] self@.contains_key(cut) implies exists|k: int|
                0 <= k < entries@.len() && (#[trigger] entries@[k]).0 == cut by {
                let k = self.cuts@.index_of(cut);
                assert(entries@[k].0 == cut);
            }
        }
        entries
    }

    /// No cut was used.
    pub fn new() -> (matrix: Self)
        ensures
            matrix.wf(),
            matrix@ == Map::<(u32, u32), DistributedShardCutStats>::empty(),
    {
        let matrix = CutMatrix { cuts: Vec::new(), stats: Vec::new() };
        assert(matrix@ =~= Map::<(u32, u32), DistributedShardCutStats>::empty());
        matrix
    }

    /// The number of cuts over which something was sent.
    pub fn len(&self) -> (len: usize)
        requires
            self.wf(),
        ensures
            len == self@.dom().len(),
    {
        proof {
            assert(self.cuts@.to_set() =~= self@.dom());
            self.cuts@.unique_seq_to_set();
        }
        self.cuts.len()
    }

    /// The statistics of the cut with a label, if something was sent over it.
    pub fn get(&self, label: &str) -> (cut: Option<&DistributedShardCutStats>)
        requires
            self.wf(),
        ensures
            match cut {
                Some(c) => exists|src_shard: u32, dst_shard: u32| #[trigger]
                    cut_label(src_shard, dst_shard) == label@ && self@.contains_key(
                        (src_shard, dst_shard),
                    ) && self@[(src_shard, dst_shard)] == *c,
                None => forall|src_shard: u32, dst_shard: u32| #[trigger]
                    cut_label(src_shard, dst_shard) == label@ ==> !self@.contains_key(
                        (src_shard, dst_shard),
                    ),
            },
    {
        let mut i: usize = 0;
        while i < self.cuts.len()
            invariant
                self.wf(),
                i <= self.cuts@.len(),
                forall|j: int|
                    0 <= j < i ==> cut_label((#[trigger] self.cuts@[j]).0, self.cuts@[j].1)
                        != label@,
            decreases self.cuts@.len() - i,
        {
            let (src_shard, dst_shard) = self.cuts[i];
            let text = cut_label_text(src_shard, dst_shard);
            if same_text(text.as_str(), label) {
                proof {
                    lemma_assoc_at(self.cuts@, self.stats@, i as int);
                    assert(cut_label(src_shard, dst_shard) == label@);
                }
                return Some(&self.stats[i]);
            }
            i += 1;
        }
        None
    }

    /// The statistics of a cut, for change. A cut that was not used yet starts at zero.
    fn cut_mut(&mut self, src_shard: u32, dst_shard: u32) -> (cut: &mut DistributedShardCutStats)
        requires
            old(self).wf(),
        ensures
            final(self).is_listed(),
            *cut == cut_of(old(self)@, src_shard, dst_shard),
            final(self)@ == old(self)@.insert((src_shard, dst_shard), *final(cut)),
    {
        let ghost before = *self;
        let mut i: usize = 0;
        while i < self.cuts.len()
            invariant
                self.wf(),
                *self == before,
                before == *old(self),
                i <= self.cuts@.len(),
                forall|j: int| 0 <= j < i ==> #[trigger] self.cuts@[j] != (src_shard, dst_shard),
            decreases self.cuts@.len() - i,
        {
            if self.cuts[i].0 == src_shard && self.cuts[i].1 == dst_shard {
                proof {
                    lemma_assoc_at(self.cuts@, self.stats@, i as int);
                    assert forall|value: DistributedShardCutStats|
                        assoc(self.cuts@, #[trigger] self.stats@.update(i as int, value)) == assoc(
                            self.cuts@,
                            self.stats@,
                        ).insert((src_shard, dst_shard), value) by {
                        lemma_assoc_update(self.cuts@, self.stats@, i as int, value);
                    }
                }
                return &mut self.stats[i];
            }
            i += 1;
        }
        let unused = DistributedShardCutStats { src_shard, dst_shard, ..Default::default() };
        self.cuts.push((src_shard, dst_shard));
        self.stats.push(unused);
        proof {
            lemma_assoc_push(before.cuts@, before.stats@, (src_shard, dst_shard), unused);
            assert forall|value: DistributedShardCutStats|
                assoc(self.cuts@, #[trigger] self.stats@.update(i as int, value)) == assoc(
                    before.cuts@,
                    before.stats@,
                ).insert((src_shard, dst_shard), value) by {
                lemma_assoc_update(self.cuts@, self.stats@, i as int, value);
                assert(before@.insert((src_shard, dst_shard), unused).insert(
                    (src_shard, dst_shard),
                    value,
                ) =~= before@.insert((src_shard, dst_shard), value));
            }
        }
        &mut self.stats[i]
    }
}

/// The label of a cut as a string.
pub fn cut_label_text(src_shard: u32, dst_shard: u32) -> (label: String)
    ensures
        label@ == cut_label(src_shard, dst_shard),
{
    let mut label = String::new();
    push_decimal(&mut label, src_shard as u64);
    label.append("->");
    push_decimal(&mut label, dst_shard as u64);
    assert(label@ =~= cut_label(src_shard, dst_shard));
    label
}

/// What the shards of a split run sent each other, and how long they took over it.
#[derive(Clone, Debug)]
pub struct DistributedSimStats {
    pub remote_packets_sent: u64,
    pub remote_packet_payload_bytes_sent: u64,
    pub remote_packets_received: u64,
    pub remote_packet_payload_bytes_received: u64,
    pub remote_packet_cut_matrix: CutMatrix,
    pub control_barrier_wait_count: u64,
    pub control_barrier_wait_time_ns: u64,
    pub mpi_barrier_wait_count: u64,
    pub mpi_barrier_wait_time_ns: u64,
    pub mpi_allreduce_count: u64,
    pub mpi_allreduce_time_ns: u64,
    pub mpi_alltoall_sizes_count: u64,
    pub mpi_alltoall_sizes_time_ns: u64,
    pub mpi_alltoallv_payload_count: u64,
    pub mpi_alltoallv_payload_time_ns: u64,
    pub remote_packet_encode_count: u64,
    pub remote_packet_encode_time_ns: u64,
    pub remote_packet_decode_count: u64,
    pub remote_packet_decode_time_ns: u64,
    pub remote_packet_inbound_injection_count: u64,
    pub remote_packet_inbound_injection_time_ns: u64,
}

impl DistributedSimStats {
    /// All numbers are zero, and no cut was used.
    pub open spec fn is_unused(&self) -> bool {
        &&& self.remote_packet_cut_matrix.wf()
        &&& self.remote_packet_cut_matrix@ == Map::<(u32, u32), DistributedShardCutStats>::empty()
        &&& self.remote_packets_sent == 0
        &&& self.remote_packet_payload_bytes_sent == 0
        &&& self.remote_packets_received == 0
        &&& self.remote_packet_payload_bytes_received == 0
        &&& self.control_barrier_wait_count == 0
        &&& self.control_barrier_wait_time_ns == 0
        &&& self.mpi_barrier_wait_count == 0
        &&& self.mpi_barrier_wait_time_ns == 0
        &&& self.mpi_allreduce_count == 0
        &&& self.mpi_allreduce_time_ns == 0
        &&& self.mpi_alltoall_sizes_count == 0
        &&& self.mpi_alltoall_sizes_time_ns == 0
        &&& self.mpi_alltoallv_payload_count == 0
        &&& self.mpi_alltoallv_payload_time_ns == 0
        &&& self.remote_packet_encode_count == 0
        &&& self.remote_packet_encode_time_ns == 0
        &&& self.remote_packet_decode_count == 0
        &&& self.remote_packet_decode_time_ns == 0
        &&& self.remote_packet_inbound_injection_count == 0
        &&& self.remote_packet_inbound_injection_time_ns == 0
    }
}

impl Default for DistributedSimStats {
    fn default() -> (stats: Self)
        ensures
            stats.is_unused(),
    {
        DistributedSimStats {
            remote_packets_sent: 0,
            remote_packet_payload_bytes_sent: 0,
            remote_packets_received: 0,
            remote_packet_payload_bytes_received: 0,
            remote_packet_cut_matrix: CutMatrix::new(),
            control_barrier_wait_count: 0,
            control_barrier_wait_time_ns: 0,
            mpi_barrier_wait_count: 0,
            mpi_barrier_wait_time_ns: 0,
            mpi_allreduce_count: 0,
            mpi_allreduce_time_ns: 0,
            mpi_alltoall_sizes_count: 0,
            mpi_alltoall_sizes_time_ns: 0,
            mpi_alltoallv_payload_count: 0,
            mpi_alltoallv_payload_time_ns: 0,
            remote_packet_encode_count: 0,
            remote_packet_encode_time_ns: 0,
            remote_packet_decode_count: 0,
            remote_packet_decode_time_ns: 0,
            remote_packet_inbound_injection_count: 0,
            remote_packet_inbound_injection_time_ns: 0,
        }
    }
}

/// Statistics that one thread collects.
#[derive(Debug)]
pub struct LocalSimStats {
    pub alloc_counts: Counter,
    pub dealloc_counts: Counter,
    pub syscall_counts: Counter,
}

impl LocalSimStats {
    /// All counters are in order.
    pub open spec fn wf(&self) -> bool {
        &&& self.alloc_counts.wf()
        &&& self.dealloc_counts.wf()
        &&& self.syscall_counts.wf()
    }

    /// All counters are in order, and nothing was counted.
    pub open spec fn is_unused(&self) -> bool {
        &&& self.wf()
        &&& self.alloc_counts@ == Map::<Seq<char>, i64>::empty()
        &&& self.dealloc_counts@ == Map::<Seq<char>, i64>::empty()
        &&& self.syscall_counts@ == Map::<Seq<char>, i64>::empty()
    }

    /// Nothing counted.
    pub fn new() -> (stats: Self)
        ensures
            stats.is_unused(),
    {
        LocalSimStats {
            alloc_counts: Counter::new(),
            dealloc_counts: Counter::new(),
            syscall_counts: Counter::new(),
        }
    }
}

impl Default for LocalSimStats {
    fn default() -> (stats: Self)
        ensures
            stats.is_unused(),
    {
        LocalSimStats::new()
    }
}

/// A time total after a duration was added: it stays at the highest number that can be held.
pub open spec fn total_ns(total: u64, duration_ns: u128) -> u64 {
    if total + duration_ns > u64::MAX {
        u64::MAX
    } else {
        (total + duration_ns) as u64
    }
}

/// Adds a duration to a time total.
fn add_duration_ns(total: u64, duration_ns: u128) -> (sum: u64)
    ensures
        sum == total_ns(total, duration_ns),
{
    let addend: u64 = if duration_ns > u64::MAX as u128 {
        u64::MAX
    } else {
        duration_ns as u64
    };
    total.saturating_add(addend)
}

/// Work between shards that is timed.
#[derive(Clone, Copy, Debug, PartialEq, Eq, Structural)]
pub enum TimedWork {
    ControlBarrierWait,
    MpiBarrierWait,
    MpiAllreduce,
    MpiAlltoallSizes,
    MpiAlltoallvPayload,
    PacketEncode,
    PacketDecode,
    InboundInjection,
}

/// What is added up over a run: packets and payload bytes, in all and over one directed cut, and how
/// often each work was done.
#[derive(Clone, Copy, Debug, PartialEq, Eq, Structural)]
pub enum Total {
    PacketsSent,
    PayloadBytesSent,
    PacketsReceived,
    PayloadBytesReceived,
    CutPacketsSent(u32, u32),
    CutPayloadBytesSent(u32, u32),
    CutPacketsReceived(u32, u32),
    CutPayloadBytesReceived(u32, u32),
    TimesDone(TimedWork),
}

/// One call that records something.
#[derive(Clone, Copy, Debug, PartialEq, Eq, Structural)]
pub enum Recording {
    Sent { count: usize, payload_bytes: usize },
    CutSent { src_shard: u32, dst_shard: u32, count: usize, payload_bytes: usize },
    Received { count: usize, payload_bytes: usize },
    CutReceived { src_shard: u32, dst_shard: u32, count: usize, payload_bytes: usize },
    Timed { work: TimedWork, duration_ns: u128 },
}

impl Recording {
    /// What a call adds to a total.
    pub open spec fn amount(self, what: Total) -> int {
        match (self, what) {
            (Recording::Sent { count, .. }, Total::PacketsSent) => count as int,
            (Recording::Sent { payload_bytes, .. }, Total::PayloadBytesSent) => {
                payload_bytes as int
            },
            (Recording::Received { count, .. }, Total::PacketsReceived) => count as int,
            (Recording::Received { payload_bytes, .. }, Total::PayloadBytesReceived) => {
                payload_bytes as int
            },
            (
                Recording::CutSent { src_shard, dst_shard, count, .. },
                Total::CutPacketsSent(src, dst),
            ) if src == src_shard && dst == dst_shard => count as int,
            (
                Recording::CutSent { src_shard, dst_shard, payload_bytes, .. },
                Total::CutPayloadBytesSent(src, dst),
            ) if src == src_shard && dst == dst_shard => payload_bytes as int,
            (
                Recording::CutReceived { src_shard, dst_shard, count, .. },
                Total::CutPacketsReceived(src, dst),
            ) if src == src_shard && dst == dst_shard => count as int,
            (
                Recording::CutReceived { src_shard, dst_shard, payload_bytes, .. },
                Total::CutPayloadBytesReceived(src, dst),
            ) if src == src_shard && dst == dst_shard => payload_bytes as int,
            (Recording::Timed { work, .. }, Total::TimesDone(done)) if work == done => 1,
            _ => 0,
        }
    }

    /// The time that a call adds to a work.
    pub open spec fn time_ns(self, work: TimedWork) -> u128 {
        match self {
            Recording::Timed { work: done, duration_ns } if done == work => duration_ns,
            _ => 0,
        }
    }
}

impl DistributedSimStats {
    /// The number that stands for a total.
    pub open spec fn total(&self, what: Total) -> int {
        let matrix = self.remote_packet_cut_matrix@;
        match what {
            Total::PacketsSent => self.remote_packets_sent as int,
            Total::PayloadBytesSent => self.remote_packet_payload_bytes_sent as int,
            Total::PacketsReceived => self.remote_packets_received as int,
            Total::PayloadBytesReceived => self.remote_packet_payload_bytes_received as int,
            Total::CutPacketsSent(src, dst) => cut_of(matrix, src, dst).packets_sent as int,
            Total::CutPayloadBytesSent(src, dst) => {
                cut_of(matrix, src, dst).payload_bytes_sent as int
            },
            Total::CutPacketsReceived(src, dst) => {
                cut_of(matrix, src, dst).packets_received as int
            },
            Total::CutPayloadBytesReceived(src, dst) => {
                cut_of(matrix, src, dst).payload_bytes_received as int
            },
            Total::TimesDone(work) => self.times_done(work) as int,
        }
    }

    /// How often a work was done.
    pub open spec fn times_done(&self, work: TimedWork) -> u64 {
        match work {
            TimedWork::ControlBarrierWait => self.control_barrier_wait_count,
            TimedWork::MpiBarrierWait => self.mpi_barrier_wait_count,
            TimedWork::MpiAllreduce => self.mpi_allreduce_count,
            TimedWork::MpiAlltoallSizes => self.mpi_alltoall_sizes_count,
            TimedWork::MpiAlltoallvPayload => self.mpi_alltoallv_payload_count,
            TimedWork::PacketEncode => self.remote_packet_encode_count,
            TimedWork::PacketDecode => self.remote_packet_decode_count,
            TimedWork::InboundInjection => self.remote_packet_inbound_injection_count,
        }
    }

    /// The time that a work took in all.
    pub open spec fn time_ns(&self, work: TimedWork) -> u64 {
        match work {
            TimedWork::ControlBarrierWait => self.control_barrier_wait_time_ns,
            TimedWork::MpiBarrierWait => self.mpi_barrier_wait_time_ns,
            TimedWork::MpiAllreduce => self.mpi_allreduce_time_ns,
            TimedWork::MpiAlltoallSizes => self.mpi_alltoall_sizes_time_ns,
            TimedWork::MpiAlltoallvPayload => self.mpi_alltoallv_payload_time_ns,
            TimedWork::PacketEncode => self.remote_packet_encode_time_ns,
            TimedWork::PacketDecode => self.remote_packet_decode_time_ns,
            TimedWork::InboundInjection => self.remote_packet_inbound_injection_time_ns,
        }
    }
}

/// Whether a call, and nothing else, was added to each total and to the time of each work.
pub open spec fn is_recorded(
    before: DistributedSimStats,
    call: Recording,
    after: DistributedSimStats,
) -> bool {
    &&& forall|what: Total| #[trigger] after.total(what) == before.total(what) + call.amount(what)
    &&& forall|work: TimedWork| #[trigger]
        after.time_ns(work) == total_ns(before.time_ns(work), call.time_ns(work))
}

/// Statistics of the whole simulation. Threads that share them take turns.
#[derive(Debug)]
pub struct SharedSimStats {
    pub alloc_counts: Counter,
    pub dealloc_counts: Counter,
    pub syscall_counts: Counter,
    pub distributed: DistributedSimStats,
}

impl SharedSimStats {
    /// All counters and the cut matrix are in order.
    pub open spec fn wf(&self) -> bool {
        &&& self.alloc_counts.wf()
        &&& self.dealloc_counts.wf()
        &&& self.syscall_counts.wf()
        &&& self.distributed.remote_packet_cut_matrix.wf()
    }

    /// Nothing was counted and nothing was sent.
    pub open spec fn is_unused(&self) -> bool {
        &&& self.wf()
        &&& self.alloc_counts@ == Map::<Seq<char>, i64>::empty()
        &&& self.dealloc_counts@ == Map::<Seq<char>, i64>::empty()
        &&& self.syscall_counts@ == Map::<Seq<char>, i64>::empty()
        &&& self.distributed.is_unused()
    }

    /// Nothing counted and nothing sent.
    pub fn new() -> (stats: Self)
        ensures
            stats.is_unused(),
    {
        SharedSimStats {
            alloc_counts: Counter::new(),
            dealloc_counts: Counter::new(),
            syscall_counts: Counter::new(),
            distributed: DistributedSimStats::default(),
        }
    }

    /// Adds what one thread counted, and resets that thread's counts.
    pub fn add_from_local_stats(&mut self, local: &mut LocalSimStats)
        requires
            old(self).wf(),
            old(local).wf(),
            sums_fit(old(self).alloc_counts@, old(local).alloc_counts@),
            sums_fit(old(self).dealloc_counts@, old(local).dealloc_counts@),
            sums_fit(old(self).syscall_counts@, old(local).syscall_counts@),
        ensures
            final(self).wf(),
            final(self).alloc_counts@ == added(old(self).alloc_counts@, old(local).alloc_counts@),
            final(self).dealloc_counts@ == added(
                old(self).dealloc_counts@,
                old(local).dealloc_counts@,
            ),
            final(self).syscall_counts@ == added(
                old(self).syscall_counts@,
                old(local).syscall_counts@,
            ),
            final(self).distributed == old(self).distributed,
            final(local).is_unused(),
    {
        self.alloc_counts.add_counter(&local.alloc_counts);
        self.dealloc_counts.add_counter(&local.dealloc_counts);
        self.syscall_counts.add_counter(&local.syscall_counts);

        local.alloc_counts = Counter::new();
        local.dealloc_counts = Counter::new();
        local.syscall_counts = Counter::new();
    }

    /// Packets were sent.
    pub fn record_remote_packets_sent(&mut self, count: usize, payload_bytes: usize)
        requires
            old(self).distributed.remote_packets_sent + count <= u64::MAX,
            old(self).distributed.remote_packet_payload_bytes_sent + payload_bytes <= u64::MAX,
        ensures
            *final(self) == (SharedSimStats {
                distributed: DistributedSimStats {
                    remote_packets_sent: (old(self).distributed.remote_packets_sent
                        + count) as u64,
                    remote_packet_payload_bytes_sent: (old(
                        self,
                    ).distributed.remote_packet_payload_bytes_sent + payload_bytes) as u64,
                    ..old(self).distributed
                },
                ..*old(self)
            }),
            is_recorded(
                old(self).distributed,
                (Recording::Sent { count, payload_bytes }),
                final(self).distributed,
            ),
    {
        self.distributed.remote_packets_sent = self.distributed.remote_packets_sent
            + count as u64;
        self.distributed.remote_packet_payload_bytes_sent =
            self.distributed.remote_packet_payload_bytes_sent + payload_bytes as u64;
    }

    /// Packets were sent over one cut.
    pub fn record_remote_packet_cut_sent(
        &mut self,
        src_shard: u32,
        dst_shard: u32,
        count: usize,
        payload_bytes: usize,
    )
        requires
            old(self).wf(),
            cut_of(
                old(self).distributed.remote_packet_cut_matrix@,
                src_shard,
                dst_shard,
            ).packets_sent + count <= u64::MAX,
            cut_of(
                old(self).distributed.remote_packet_cut_matrix@,
                src_shard,
                dst_shard,
            ).payload_bytes_sent + payload_bytes <= u64::MAX,
        ensures
            final(self).wf(),
            final(self).distributed.remote_packet_cut_matrix@ == ({
                let matrix = old(self).distributed.remote_packet_cut_matrix@;
                let cut = cut_of(matrix, src_shard, dst_shard);
                matrix.insert(
                    (src_shard, dst_shard),
                    DistributedShardCutStats {
                        packets_sent: (cut.packets_sent + count) as u64,
                        payload_bytes_sent: (cut.payload_bytes_sent + payload_bytes) as u64,
                        ..cut
                    },
                )
            }),
            *final(self) == (SharedSimStats {
                distributed: DistributedSimStats {
                    remote_packet_cut_matrix: final(self).distributed.remote_packet_cut_matrix,
                    ..old(self).distributed
                },
                ..*old(self)
            }),
            is_recorded(
                old(self).distributed,
                (Recording::CutSent { src_shard, dst_shard, count, payload_bytes }),
                final(self).distributed,
            ),
    {
        let cut = self.distributed.remote_packet_cut_matrix.cut_mut(src_shard, dst_shard);
        cut.packets_sent = cut.packets_sent + count as u64;
        cut.payload_bytes_sent = cut.payload_bytes_sent + payload_bytes as u64;
    }

    /// Packets were received.
    pub fn record_remote_packets_received(&mut self, count: usize, payload_bytes: usize)
        requires
            old(self).distributed.remote_packets_received + count <= u64::MAX,
            old(self).distributed.remote_packet_payload_bytes_received + payload_bytes <= u64::MAX,
        ensures
            *final(self) == (SharedSimStats {
                distributed: DistributedSimStats {
                    remote_packets_received: (old(self).distributed.remote_packets_received
                        + count) as u64,
                    remote_packet_payload_bytes_received: (old(
                        self,
                    ).distributed.remote_packet_payload_bytes_received + payload_bytes) as u64,
                    ..old(self).distributed
                },
                ..*old(self)
            }),
            is_recorded(
                old(self).distributed,
                (Recording::Received { count, payload_bytes }),
                final(self).distributed,
            ),
    {
        self.distributed.remote_packets_received = self.distributed.remote_packets_received
            + count as u64;
        self.distributed.remote_packet_payload_bytes_received =
            self.distributed.remote_packet_payload_bytes_received + payload_bytes as u64;
    }

    /// Packets were received over one cut.
    pub fn record_remote_packet_cut_received(
        &mut self,
        src_shard: u32,
        dst_shard: u32,
        count: usize,
        payload_bytes: usize,
    )
        requires
            old(self).wf(),
            cut_of(
                old(self).distributed.remote_packet_cut_matrix@,
                src_shard,
                dst_shard,
            ).packets_received + count <= u64::MAX,
            cut_of(
                old(self).distributed.remote_packet_cut_matrix@,
                src_shard,
                dst_shard,
            ).payload_bytes_received + payload_bytes <= u64::MAX,
        ensures
            final(self).wf(),
            final(self).distributed.remote_packet_cut_matrix@ == ({
                let matrix = old(self).distributed.remote_packet_cut_matrix@;
                let cut = cut_of(matrix, src_shard, dst_shard);
                matrix.insert(
                    (src_shard, dst_shard),
                    DistributedShardCutStats {
                        packets_received: (cut.packets_received + count) as u64,
                        payload_bytes_received: (cut.payload_bytes_received + payload_bytes) as u64,
                        ..cut
                    },
                )
            }),
            *final(self) == (SharedSimStats {
                distributed: DistributedSimStats {
                    remote_packet_cut_matrix: final(self).distributed.remote_packet_cut_matrix,
                    ..old(self).distributed
                },
                ..*old(self)
            }),
            is_recorded(
                old(self).distributed,
                (Recording::CutReceived { src_shard, dst_shard, count, payload_bytes }),
                final(self).distributed,
            ),
    {
        let cut = self.distributed.remote_packet_cut_matrix.cut_mut(src_shard, dst_shard);
        cut.packets_received = cut.packets_received + count as u64;
        cut.payload_bytes_received = cut.payload_bytes_received + payload_bytes as u64;
    }

    /// Counts a wait at the control barrier, and the time it took.
    pub fn record_distributed_barrier_wait(&mut self, duration_ns: u128)
        requires
            old(self).distributed.control_barrier_wait_count < u64::MAX,
        ensures
            *final(self) == (SharedSimStats {
                distributed: DistributedSimStats {
                    control_barrier_wait_count: (old(self).distributed.control_barrier_wait_count + 1) as u64,
                    control_barrier_wait_time_ns: total_ns(
                        old(self).distributed.control_barrier_wait_time_ns,
                        duration_ns,
                    ),
                    ..old(self).distributed
                },
                ..*old(self)
            }),
            is_recorded(
                old(self).distributed,
                (Recording::Timed { work: TimedWork::ControlBarrierWait, duration_ns }),
                final(self).distributed,
            ),
    {
        self.distributed.control_barrier_wait_count = self.distributed.control_barrier_wait_count + 1;
        self.distributed.control_barrier_wait_time_ns = add_duration_ns(
            self.distributed.control_barrier_wait_time_ns,
            duration_ns,
        );
    }

    /// Counts a wait at an MPI barrier, and the time it took.
    pub fn record_mpi_barrier_wait(&mut self, duration_ns: u128)
        requires
            old(self).distributed.mpi_barrier_wait_count < u64::MAX,
        ensures
            *final(self) == (SharedSimStats {
                distributed: DistributedSimStats {
                    mpi_barrier_wait_count: (old(self).distributed.mpi_barrier_wait_count + 1) as u64,
                    mpi_barrier_wait_time_ns: total_ns(
                        old(self).distributed.mpi_barrier_wait_time_ns,
                        duration_ns,
                    ),
                    ..old(self).distributed
                },
                ..*old(self)
            }),
            is_recorded(
                old(self).distributed,
                (Recording::Timed { work: TimedWork::MpiBarrierWait, duration_ns }),
                final(self).distributed,
            ),
    {
        self.distributed.mpi_barrier_wait_count = self.distributed.mpi_barrier_wait_count + 1;
        self.distributed.mpi_barrier_wait_time_ns = add_duration_ns(
            self.distributed.mpi_barrier_wait_time_ns,
            duration_ns,
        );
    }

    /// Counts an MPI reduction over all ranks, and the time it took.
    pub fn record_mpi_allreduce_time(&mut self, duration_ns: u128)
        requires
            old(self).distributed.mpi_allreduce_count < u64::MAX,
        ensures
            *final(self) == (SharedSimStats {
                distributed: DistributedSimStats {
                    mpi_allreduce_count: (old(self).distributed.mpi_allreduce_count + 1) as u64,
                    mpi_allreduce_time_ns: total_ns(
                        old(self).distributed.mpi_allreduce_time_ns,
                        duration_ns,
                    ),
                    ..old(self).distributed
                },
                ..*old(self)
            }),
            is_recorded(
                old(self).distributed,
                (Recording::Timed { work: TimedWork::MpiAllreduce, duration_ns }),
                final(self).distributed,
            ),
    {
        self.distributed.mpi_allreduce_count = self.distributed.mpi_allreduce_count + 1;
        self.distributed.mpi_allreduce_time_ns = add_duration_ns(
            self.distributed.mpi_allreduce_time_ns,
            duration_ns,
        );
    }

    /// Counts an MPI exchange of batch sizes, and the time it took.
    pub fn record_mpi_alltoall_sizes_time(&mut self, duration_ns: u128)
        requires
            old(self).distributed.mpi_alltoall_sizes_count < u64::MAX,
        ensures
            *final(self) == (SharedSimStats {
                distributed: DistributedSimStats {
                    mpi_alltoall_sizes_count: (old(self).distributed.mpi_alltoall_sizes_count + 1) as u64,
                    mpi_alltoall_sizes_time_ns: total_ns(
                        old(self).distributed.mpi_alltoall_sizes_time_ns,
                        duration_ns,
                    ),
                    ..old(self).distributed
                },
                ..*old(self)
            }),
            is_recorded(
                old(self).distributed,
                (Recording::Timed { work: TimedWork::MpiAlltoallSizes, duration_ns }),
                final(self).distributed,
            ),
    {
        self.distributed.mpi_alltoall_sizes_count = self.distributed.mpi_alltoall_sizes_count + 1;
        self.distributed.mpi_alltoall_sizes_time_ns = add_duration_ns(
            self.distributed.mpi_alltoall_sizes_time_ns,
            duration_ns,
        );
    }

    /// Counts an MPI exchange of batches, and the time it took.
    pub fn record_mpi_alltoallv_payload_time(&mut self, duration_ns: u128)
        requires
            old(self).distributed.mpi_alltoallv_payload_count < u64::MAX,
        ensures
            *final(self) == (SharedSimStats {
                distributed: DistributedSimStats {
                    mpi_alltoallv_payload_count: (old(self).distributed.mpi_alltoallv_payload_count + 1) as u64,
                    mpi_alltoallv_payload_time_ns: total_ns(
                        old(self).distributed.mpi_alltoallv_payload_time_ns,
                        duration_ns,
                    ),
                    ..old(self).distributed
                },
                ..*old(self)
            }),
            is_recorded(
                old(self).distributed,
                (Recording::Timed { work: TimedWork::MpiAlltoallvPayload, duration_ns }),
                final(self).distributed,
            ),
    {
        self.distributed.mpi_alltoallv_payload_count = self.distributed.mpi_alltoallv_payload_count + 1;
        self.distributed.mpi_alltoallv_payload_time_ns = add_duration_ns(
            self.distributed.mpi_alltoallv_payload_time_ns,
            duration_ns,
        );
    }

    /// Counts the encoding of remote packets, and the time it took.
    pub fn record_remote_packet_encode_time(&mut self, duration_ns: u128)
        requires
            old(self).distributed.remote_packet_encode_count < u64::MAX,
        ensures
            *final(self) == (SharedSimStats {
                distributed: DistributedSimStats {
                    remote_packet_encode_count: (old(self).distributed.remote_packet_encode_count + 1) as u64,
                    remote_packet_encode_time_ns: total_ns(
                        old(self).distributed.remote_packet_encode_time_ns,
                        duration_ns,
                    ),
                    ..old(self).distributed
                },
                ..*old(self)
            }),
            is_recorded(
                old(self).distributed,
                (Recording::Timed { work: TimedWork::PacketEncode, duration_ns }),
                final(self).distributed,
            ),
    {
        self.distributed.remote_packet_encode_count = self.distributed.remote_packet_encode_count + 1;
        self.distributed.remote_packet_encode_time_ns = add_duration_ns(
            self.distributed.remote_packet_encode_time_ns,
            duration_ns,
        );
    }

    /// Counts the decoding of remote packets, and the time it took.
    pub fn record_remote_packet_decode_time(&mut self, duration_ns: u128)
        requires
            old(self).distributed.remote_packet_decode_count < u64::MAX,
        ensures
            *final(self) == (SharedSimStats {
                distributed: DistributedSimStats {
                    remote_packet_decode_count: (old(self).distributed.remote_packet_decode_count + 1) as u64,
                    remote_packet_decode_time_ns: total_ns(
                        old(self).distributed.remote_packet_decode_time_ns,
                        duration_ns,
                    ),
                    ..old(self).distributed
                },
                ..*old(self)
            }),
            is_recorded(
                old(self).distributed,
                (Recording::Timed { work: TimedWork::PacketDecode, duration_ns }),
                final(self).distributed,
            ),
    {
        self.distributed.remote_packet_decode_count = self.distributed.remote_packet_decode_count + 1;
        self.distributed.remote_packet_decode_time_ns = add_duration_ns(
            self.distributed.remote_packet_decode_time_ns,
            duration_ns,
        );
    }

    /// Counts the handing over of inbound packets to hosts, and the time it took.
    pub fn record_remote_packet_inbound_injection_time(&mut self, duration_ns: u128)
        requires
            old(self).distributed.remote_packet_inbound_injection_count < u64::MAX,
        ensures
            *final(self) == (SharedSimStats {
                distributed: DistributedSimStats {
                    remote_packet_inbound_injection_count: (old(self).distributed.remote_packet_inbound_injection_count + 1) as u64,
                    remote_packet_inbound_injection_time_ns: total_ns(
                        old(self).distributed.remote_packet_inbound_injection_time_ns,
                        duration_ns,
                    ),
                    ..old(self).distributed
                },
                ..*old(self)
            }),
            is_recorded(
                old(self).distributed,
                (Recording::Timed { work: TimedWork::InboundInjection, duration_ns }),
                final(self).distributed,
            ),
    {
        self.distributed.remote_packet_inbound_injection_count = self.distributed.remote_packet_inbound_injection_count + 1;
        self.distributed.remote_packet_inbound_injection_time_ns = add_duration_ns(
            self.distributed.remote_packet_inbound_injection_time_ns,
            duration_ns,
        );
    }
}

impl Default for SharedSimStats {
    fn default() -> (stats: Self)
        ensures
            stats.is_unused(),
    {
        SharedSimStats::new()
    }
}

/// Object statistics as they are written out.
#[derive(Debug)]
pub struct ObjectStatsForOutput {
    pub alloc_counts: Counter,
    pub dealloc_counts: Counter,
}

/// Statistics as they are written out.
#[derive(Debug)]
pub struct SimStatsForOutput {
    pub objects: ObjectStatsForOutput,
    pub syscalls: Counter,
    pub distributed: DistributedSimStats,
}

impl SimStatsForOutput {
    /// Takes the data out of `stats`, which is reset.
    pub fn new(stats: &mut SharedSimStats) -> (output: Self)
        ensures
            output.objects.alloc_counts == old(stats).alloc_counts,
            output.objects.dealloc_counts == old(stats).dealloc_counts,
            output.syscalls == old(stats).syscall_counts,
            output.distributed == old(stats).distributed,
            final(stats).is_unused(),
    {
        let mut taken = SharedSimStats::new();
        std::mem::swap(&mut taken, stats);
        SimStatsForOutput {
            objects: ObjectStatsForOutput {
                alloc_counts: taken.alloc_counts,
                dealloc_counts: taken.dealloc_counts,
            },
            syscalls: taken.syscall_counts,
            distributed: taken.distributed,
        }
    }
}

/// Different cuts have different labels.
pub proof fn law_cut_labels_distinct(a: (u32, u32), b: (u32, u32))
    requires
        cut_label(a.0, a.1) == cut_label(b.0, b.1),
    ensures
        a == b,
{
    reveal_strlit("->");
    let left = decimal(a.0 as nat);
    let right = decimal(b.0 as nat);
    let label = cut_label(a.0, a.1);
    lemma_decimal_digits(a.0 as nat);
    lemma_decimal_digits(b.0 as nat);
    assert(label[left.len() as int] == '-');
    assert(label[right.len() as int] == '-');
    if left.len() < right.len() {
        assert(label[left.len() as int] == right[left.len() as int]);
    }
    if right.len() < left.len() {
        assert(label[right.len() as int] == left[right.len() as int]);
    }
    assert(left =~= label.take(left.len() as int));
    assert(right =~= label.take(right.len() as int));
    lemma_decimal_injective(a.0 as nat, b.0 as nat);
    assert(decimal(a.1 as nat) =~= label.skip(left.len() + 2int));
    assert(decimal(b.1 as nat) =~= label.skip(right.len() + 2int));
    lemma_decimal_injective(a.1 as nat, b.1 as nat);
}

/// Time totals do not depend on the order in which durations are added.
pub proof fn law_time_totals_commute(total: u64, first_ns: u128, second_ns: u128)
    ensures
        total_ns(total_ns(total, first_ns), second_ns) == total_ns(
            total_ns(total, second_ns),
            first_ns,
        ),
{
}

/// What the calls add to a total.
pub open spec fn sum_of(calls: Seq<Recording>, what: Total) -> int
    decreases calls.len(),
{
    if calls.len() == 0 {
        0
    } else {
        sum_of(calls.drop_last(), what) + calls.last().amount(what)
    }
}

/// The time that the calls add to a work.
pub open spec fn time_of(calls: Seq<Recording>, work: TimedWork) -> int
    decreases calls.len(),
{
    if calls.len() == 0 {
        0
    } else {
        time_of(calls.drop_last(), work) + calls.last().time_ns(work)
    }
}

/// Whether `states` are the statistics before the first call, between the calls and after the last
/// one, in a run that starts with unused statistics.
pub open spec fn is_run(states: Seq<DistributedSimStats>, calls: Seq<Recording>) -> bool {
    &&& states.len() == calls.len() + 1
    &&& states[0].is_unused()
    &&& forall|i: int|
        0 <= i < calls.len() ==> is_recorded(states[i], #[trigger] calls[i], states[i + 1])
}

/// After any calls, in whatever order, each total is the sum of what the calls for it recorded, and
/// the time of each work is the sum of its durations, or the highest number that can be held where
/// the sum is above it.
pub proof fn law_totals_are_sums_of_what_was_recorded(
    states: Seq<DistributedSimStats>,
    calls: Seq<Recording>,
    what: Total,
    work: TimedWork,
)
    requires
        is_run(states, calls),
    ensures
        states.last().total(what) == sum_of(calls, what),
        states.last().time_ns(work) == (if time_of(calls, work) > u64::MAX {
            u64::MAX as int
        } else {
            time_of(calls, work)
        }),
    decreases calls.len(),
{
    if calls.len() > 0 {
        let earlier = states.drop_last();
        let others = calls.drop_last();
        assert forall|i: int| 0 <= i < others.len() implies is_recorded(
            earlier[i],
            #[trigger] others[i],
            earlier[i + 1],
        ) by {
            assert(others[i] == calls[i]);
        }
        law_totals_are_sums_of_what_was_recorded(earlier, others, what, work);
        lemma_time_not_negative(others, work);
        let last = calls.len() - 1;
        assert(is_recorded(states[last], calls[last], states[last + 1]));
    }
}

proof fn lemma_time_not_negative(calls: Seq<Recording>, work: TimedWork)
    ensures
        time_of(calls, work) >= 0,
    decreases calls.len(),
{
    if calls.len() > 0 {
        lemma_time_not_negative(calls.drop_last(), work);
    }
}

/// The label of a cut names the sending shard, an arrow and the receiving shard.
pub proof fn law_cut_labels_lead_from_sender_to_receiver(src_shard: u32, dst_shard: u32)
    ensures
        cut_label(src_shard, dst_shard).len() == decimal(src_shard as nat).len() + 2 + decimal(
            dst_shard as nat,
        ).len(),
        cut_label(src_shard, dst_shard).take(decimal(src_shard as nat).len() as int) == decimal(
            src_shard as nat,
        ),
        cut_label(src_shard, dst_shard)[decimal(src_shard as nat).len() as int] == '-',
        cut_label(src_shard, dst_shard)[decimal(src_shard as nat).len() + 1int] == '>',
        cut_label(src_shard, dst_shard).skip(decimal(src_shard as nat).len() + 2int) == decimal(
            dst_shard as nat,
        ),
{
    reveal_strlit("->");
    let label = cut_label(src_shard, dst_shard);
    let left = decimal(src_shard as nat);
    assert(label.take(left.len() as int) =~= left);
    assert(label.skip(left.len() + 2int) =~= decimal(dst_shard as nat));
}

/// A time total grows by the duration until it reaches the highest number, and stays there.
pub proof fn law_time_totals_saturate(total: u64, duration_ns: u128)
    ensures
        total_ns(total, duration_ns) >= total,
        total + duration_ns <= 0xffff_ffff_ffff_ffff ==> total_ns(total, duration_ns) == total
            + duration_ns,
        total + duration_ns >= 0xffff_ffff_ffff_ffff ==> total_ns(total, duration_ns)
            == 0xffff_ffff_ffff_ffff,
{
}

/// Nothing was sent or received over a cut that is not in the matrix, and what is in the matrix is
/// what the cut holds.
pub proof fn law_cuts_are_found_in_the_matrix(
    matrix: Map<(u32, u32), DistributedShardCutStats>,
    src_shard: u32,
    dst_shard: u32,
)
    ensures
        matrix.contains_key((src_shard, dst_shard)) ==> cut_of(matrix, src_shard, dst_shard)
            == matrix[(src_shard, dst_shard)],
        !matrix.contains_key((src_shard, dst_shard)) ==> {
            let cut = cut_of(matrix, src_shard, dst_shard);
            &&& cut.src_shard == src_shard
            &&& cut.dst_shard == dst_shard
            &&& cut.packets_sent == 0
            &&& cut.payload_bytes_sent == 0
            &&& cut.packets_received == 0
            &&& cut.payload_bytes_received == 0
        },
{
}

} // verus!
