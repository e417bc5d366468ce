//! The exchange of remote packets between shards: what is sent where, and what is made of what
//! comes in.

use vstd::prelude::*;
use vstd::string::*;

use crate::bytes::{be_bytes, law_four_bytes, lemma_be_bytes_len, push_all, push_be};
use crate::ids::ShardId;
use crate::sorting::{
    is_sorted_version, law_first_of_sorted_is_least, law_sorting_is_idempotent, lemma_picked_places,
    sort_by_order_key,
};
use crate::text::{decimal, lemma_decimal_injective, push_decimal};
use crate::time::EmulatedTime;
use crate::transport::error::TransportError;
use crate::transport::event::{
    EventModel, RemotePacketDeliveryError, RemotePacketEvent, after_start, batch_bytes,
    batch_times_in_range, event_models, law_sorted_events_are_in_delivery_order,
    lemma_sorted_event_models, parse_batch,
};

verus! {

/// An exchange of remote packet events between shards. Events go out sorted by delivery time,
/// sending host, event number and receiving host; what comes in is sorted again, so that the order
/// of arrival makes no difference.
pub trait RemotePacketExchange {
    /// Whether the events may be sent.
    spec fn can_send(&self, events: Seq<EventModel>) -> bool;

    /// Whether a shard may receive.
    spec fn can_receive(&self, dst_shard: ShardId) -> bool;

    /// Whether shards must be synchronized between sending and receiving.
    fn requires_external_synchronization(&self) -> bool;

    /// Sends events to the shards of their receiving hosts.
    fn send(&mut self, src_shard: ShardId, events: &[RemotePacketEvent]) -> Result<
        (),
        TransportError,
    >
        requires
            old(self).can_send(event_models(events@)),
    ;

    /// Receives the events for a shard, sorted, with the earliest delivery time.
    fn receive(&mut self, dst_shard: ShardId) -> Result<
        (Vec<RemotePacketEvent>, Option<EmulatedTime>),
        TransportError,
    >
        requires
            old(self).can_receive(dst_shard),
    ;
}

/// Failures of an exchange.
#[derive(Debug)]
pub enum RemotePacketExchangeError {
    NoBackend,
    BackendError(String),
    DeliveryError(RemotePacketDeliveryError),
}

impl RemotePacketExchangeError {
    /// The message for users.
    pub open spec fn message(self) -> Seq<char> {
        match self {
            RemotePacketExchangeError::NoBackend => "No remote exchange backend configured"@,
            RemotePacketExchangeError::BackendError(text) => "Exchange backend error: "@ + text@,
            RemotePacketExchangeError::DeliveryError(e) => "Delivery error: "@ + e.message(),
        }
    }

    /// The message as a string.
    pub fn to_string(&self) -> (text: String)
        ensures
            text@ == self.message(),
    {
        let mut text = String::new();
        match self {
            RemotePacketExchangeError::NoBackend => {
                text.append("No remote exchange backend configured");
            },
            RemotePacketExchangeError::BackendError(inner) => {
                text.append("Exchange backend error: ");
                text.append(inner.as_str());
            },
            RemotePacketExchangeError::DeliveryError(e) => {
                text.append("Delivery error: ");
                text.append(e.to_string().as_str());
            },
        }
        assert(text@ =~= self.message());
        text
    }
}

impl From<RemotePacketDeliveryError> for RemotePacketExchangeError {
    fn from(e: RemotePacketDeliveryError) -> (error: Self) {
        RemotePacketExchangeError::DeliveryError(e)
    }
}

impl vstd::std_specs::convert::FromSpecImpl<RemotePacketDeliveryError> for RemotePacketExchangeError {
    open spec fn obeys_from_spec() -> bool {
        true
    }

    open spec fn from_spec(e: RemotePacketDeliveryError) -> Self {
        RemotePacketExchangeError::DeliveryError(e)
    }
}

/// The earliest delivery time of sorted events, if there are any.
pub open spec fn first_time(events: Seq<EventModel>) -> Option<EmulatedTime> {
    if events.len() == 0 {
        None
    } else {
        Some(events[0].deliver_time)
    }
}

/// The earliest delivery time of sorted events.
pub fn earliest(events: &Vec<RemotePacketEvent>) -> (time: Option<EmulatedTime>)
    ensures
        time == first_time(event_models(events@)),
{
    if events.len() == 0 {
        None
    } else {
        Some(events[0].deliver_time)
    }
}

/// No event is delivered before the first of the sorted events.
pub proof fn law_first_time_is_least(input: Seq<EventModel>, output: Seq<EventModel>, i: int)
    requires
        is_sorted_version(input, output),
        0 <= i < output.len(),
    ensures
        first_time(output) matches Some(t) && t.0 <= output[i].deliver_time.0,
{
    law_first_of_sorted_is_least(input, output, i);
}

/// The exchange of a run that is not split: nothing can be sent, and nothing comes in.
#[derive(Debug)]
pub struct NoopRemotePacketExchange;

/// What the exchange of a run that is not split says to outbound packets.
pub open spec fn noop_message(count: nat) -> Seq<char> {
    "NoopRemotePacketExchange: "@ + decimal(count)
        + " outbound remote packets with no remote backend. Check distributed config and partition map."@
}

impl RemotePacketExchange for NoopRemotePacketExchange {
    open spec fn can_send(&self, events: Seq<EventModel>) -> bool {
        true
    }

    open spec fn can_receive(&self, dst_shard: ShardId) -> bool {
        true
    }

    fn requires_external_synchronization(&self) -> (required: bool)
        ensures
            required,
    {
        true
    }

    fn send(&mut self, src_shard: ShardId, events: &[RemotePacketEvent]) -> (sent: Result<
        (),
        TransportError,
    >)
        ensures
            match sent {
                Ok(()) => events@.len() == 0,
                Err(e) => events@.len() != 0 && e@ == noop_message(events@.len()),
            },
    {
        if events.len() != 0 {
            let mut text = String::new();
            text.append("NoopRemotePacketExchange: ");
            push_decimal(&mut text, events.len() as u64);
            text.append(
                " outbound remote packets with no remote backend. Check distributed config and partition map.",
            );
            assert(text@ =~= noop_message(events@.len()));
            return Err(TransportError::new(text));
        }
        Ok(())
    }

    fn receive(&mut self, dst_shard: ShardId) -> (received: Result<
        (Vec<RemotePacketEvent>, Option<EmulatedTime>),
        TransportError,
    >)
        ensures
            received matches Ok((events, time)) && events@.len() == 0 && time is None,
    {
        Ok((Vec::new(), None))
    }
}

/// The events whose receiving host the host-number modulo gives to a shard.
pub open spec fn bound_for(events: Seq<EventModel>, num_shards: u32, shard: u32) -> Seq<EventModel> {
    events.filter(|e: EventModel| e.dst_host_id.0 % num_shards == shard)
}

/// Deals events out to shards by the number of the receiving host modulo the shard count, each
/// shard's events in the order in which they stand.
fn group_by_modulo(events: &[RemotePacketEvent], num_shards: u32) -> (groups: Vec<
    Vec<RemotePacketEvent>,
>)
    requires
        num_shards != 0 || events@.len() == 0,
    ensures
        groups@.len() == num_shards,
        forall|s: int|
            0 <= s < num_shards ==> event_models((#[trigger] groups@[s])@) == bound_for(
                event_models(events@),
                num_shards,
                s as u32,
            ),
{
    let ghost models = event_models(events@);
    let mut groups: Vec<Vec<RemotePacketEvent>> = Vec::new();
    let mut shard: u32 = 0;
    while shard < num_shards
        invariant
            shard <= num_shards,
            groups@.len() == shard,
            forall|s: int| 0 <= s < shard ==> (#[trigger] groups@[s])@.len() == 0,
        decreases num_shards - shard,
    {
        groups.push(Vec::new());
        shard += 1;
    }
    let mut i: usize = 0;
    proof {
        reveal(Seq::filter);
        assert forall|s: int| 0 <= s < num_shards implies event_models((#[trigger] groups@[s])@)
            == bound_for(models.take(0), num_shards, s as u32) by {
            assert(event_models(groups@[s]@) =~= bound_for(models.take(0), num_shards, s as u32));
        }
    }
    while i < events.len()
        invariant
            i <= events.len(),
            num_shards != 0 || events@.len() == 0,
            models == event_models(events@),
            groups@.len() == num_shards,
            forall|s: int|
                0 <= s < num_shards ==> event_models((#[trigger] groups@[s])@) == bound_for(
                    models.take(i as int),
                    num_shards,
                    s as u32,
                ),
        decreases events.len() - i,
    {
        let event = events[i].clone();
        let dst: usize = (event.dst_host_id.0 % num_shards) as usize;
        let ghost model = event@;
        let ghost before = groups@;
        groups[dst].push(event);
        proof {
            assert(models.take(i + 1) =~= models.take(i as int).push(model));
            assert forall|s: int| 0 <= s < num_shards implies event_models((#[trigger] groups@[s])@)
                == bound_for(models.take(i + 1), num_shards, s as u32) by {
                let earlier = bound_for(models.take(i as int), num_shards, s as u32);
                lemma_bound_for_push(models.take(i as int), model, num_shards, s as u32);
                assert(event_models(before[s]@) == earlier);
                if s == dst {
                    assert(event_models(groups@[s]@) =~= earlier.push(model));
                } else {
                    assert(groups@[s] == before[s]);
                }
            }
        }
        i += 1;
    }
    assert(models.take(i as int) =~= models);
    groups
}

proof fn lemma_bound_for_push(
    events: Seq<EventModel>,
    event: EventModel,
    num_shards: u32,
    shard: u32,
)
    ensures
        bound_for(events.push(event), num_shards, shard) == (if event.dst_host_id.0 % num_shards
            == shard {
            bound_for(events, num_shards, shard).push(event)
        } else {
            bound_for(events, num_shards, shard)
        }),
{
    reveal(Seq::filter);
    assert(events.push(event).drop_last() =~= events);
}

/// An exchange within one process, for tests and prototypes: shards are told apart by the number
/// of the receiving host modulo the shard count.
#[derive(Debug)]
pub struct InProcessRemotePacketExchange {
    queues: Vec<Vec<RemotePacketEvent>>,
    num_shards: u32,
}

impl View for InProcessRemotePacketExchange {
    type V = Seq<Seq<EventModel>>;

    /// The events that wait for each shard.
    closed spec fn view(&self) -> Seq<Seq<EventModel>> {
        Seq::new(self.queues@.len(), |s: int| event_models(self.queues@[s]@))
    }
}

impl InProcessRemotePacketExchange {
    /// There is one queue for each shard.
    pub closed spec fn wf(&self) -> bool {
        self.queues@.len() == self.num_shards
    }

    /// An exchange between a number of shards, with nothing waiting.
    pub fn new(num_shards: u32) -> (exchange: Self)
        ensures
            exchange.wf(),
            exchange@ == Seq::new(num_shards as nat, |s: int| Seq::<EventModel>::empty()),
    {
        let mut queues: Vec<Vec<RemotePacketEvent>> = Vec::new();
        let mut shard: u32 = 0;
        while shard < num_shards
            invariant
                shard <= num_shards,
                queues@.len() == shard,
                forall|s: int| 0 <= s < shard ==> (#[trigger] queues@[s])@.len() == 0,
            decreases num_shards - shard,
        {
            queues.push(Vec::new());
            shard += 1;
        }
        let exchange = InProcessRemotePacketExchange { queues, num_shards };
        proof {
            assert forall|s: int| 0 <= s < num_shards implies #[trigger] exchange@[s] == Seq::<
                EventModel,
            >::empty() by {
                assert(event_models(queues@[s]@) =~= Seq::<EventModel>::empty());
            }
            assert(exchange@ =~= Seq::new(
                num_shards as nat,
                |s: int| Seq::<EventModel>::empty(),
            ));
        }
        exchange
    }
}

/// Whether a queue grew by the sorted events of a group.
pub open spec fn grew_by_sorted(
    before: Seq<EventModel>,
    group: Seq<EventModel>,
    after: Seq<EventModel>,
) -> bool {
    exists|sorted: Seq<EventModel>| #[trigger]
        is_sorted_version(group, sorted) && after == before + sorted
}

impl RemotePacketExchange for InProcessRemotePacketExchange {
    open spec fn can_send(&self, events: Seq<EventModel>) -> bool {
        &&& self.wf()
        &&& self@.len() != 0 || events.len() == 0
    }

    open spec fn can_receive(&self, dst_shard: ShardId) -> bool {
        &&& self.wf()
        &&& dst_shard.0 < self@.len()
    }

    fn requires_external_synchronization(&self) -> (required: bool)
        ensures
            required,
    {
        true
    }

    fn send(&mut self, src_shard: ShardId, events: &[RemotePacketEvent]) -> (sent: Result<
        (),
        TransportError,
    >)
        ensures
            sent is Ok,
            final(self).wf(),
            final(self)@.len() == old(self)@.len(),
            forall|s: int|
                0 <= s < final(self)@.len() ==> grew_by_sorted(
                    old(self)@[s],
                    bound_for(event_models(events@), old(self)@.len() as u32, s as u32),
                    #[trigger] final(self)@[s],
                ),
    {
        let ghost models = event_models(events@);
        let ghost before = self.queues@;
        let mut groups = group_by_modulo(events, self.num_shards);
        let ghost dealt = groups@;
        let mut i: usize = 0;
        while i < groups.len()
            invariant
                i <= groups@.len(),
                groups@.len() == self.num_shards,
                self.queues@.len() == self.num_shards,
                self.num_shards == old(self).num_shards,
                before == old(self).queues@,
                before.len() == self.num_shards,
                models == event_models(events@),
                dealt.len() == groups@.len(),
                forall|s: int| i <= s < groups@.len() ==> #[trigger] groups@[s] == dealt[s],
                forall|s: int| i <= s < groups@.len() ==> #[trigger] self.queues@[s] == before[s],
                forall|s: int|
                    0 <= s < self.num_shards ==> event_models((#[trigger] dealt[s])@) == bound_for(
                        models,
                        self.num_shards,
                        s as u32,
                    ),
                forall|s: int|
                    0 <= s < i ==> grew_by_sorted(
                        event_models(before[s]@),
                        bound_for(models, self.num_shards, s as u32),
                        event_models((#[trigger] self.queues@[s])@),
                    ),
            decreases groups@.len() - i,
        {
            let mut sorted: Vec<RemotePacketEvent> = Vec::new();
            std::mem::swap(&mut sorted, &mut groups[i]);
            let ghost group = sorted@;
            sort_by_order_key(&mut sorted);
            let ghost ordered = sorted@;
            let ghost queued = self.queues@;
            self.queues[i].append(&mut sorted);
            proof {
                lemma_sorted_event_models(group, ordered);
                assert(event_models(self.queues@[i as int]@) =~= event_models(before[i as int]@)
                    + event_models(ordered));
                assert(grew_by_sorted(
                    event_models(before[i as int]@),
                    bound_for(models, self.num_shards, i as u32),
                    event_models(self.queues@[i as int]@),
                ));
            }
            i += 1;
        }
        Ok(())
    }

    fn receive(&mut self, dst_shard: ShardId) -> (received: Result<
        (Vec<RemotePacketEvent>, Option<EmulatedTime>),
        TransportError,
    >)
        ensures
            received matches Ok((events, time)) && is_sorted_version(
                old(self)@[dst_shard.0 as int],
                event_models(events@),
            ) && time == first_time(event_models(events@)),
            received matches Ok((events, _)) ==> forall|i: int, j: int|
                0 <= i < j < events@.len() ==> {
                    ||| (#[trigger] events@[i]).deliver_time.0 < (#[trigger] events@[j]).deliver_time.0
                    ||| events@[i].deliver_time == events@[j].deliver_time && events@[i].src_host_id.0
                        < events@[j].src_host_id.0
                    ||| events@[i].deliver_time == events@[j].deliver_time && events@[i].src_host_id
                        == events@[j].src_host_id && events@[i].src_host_event_id
                        < events@[j].src_host_event_id
                    ||| events@[i].deliver_time == events@[j].deliver_time && events@[i].src_host_id
                        == events@[j].src_host_id && events@[i].src_host_event_id
                        == events@[j].src_host_event_id && events@[i].dst_host_id.0
                        <= events@[j].dst_host_id.0
                },
            final(self).wf(),
            final(self)@ == old(self)@.update(dst_shard.0 as int, Seq::<EventModel>::empty()),
    {
        let mut events: Vec<RemotePacketEvent> = Vec::new();
        let idx: usize = dst_shard.as_usize();
        std::mem::swap(&mut events, &mut self.queues[idx]);
        let ghost waiting = events@;
        sort_by_order_key(&mut events);
        proof {
            lemma_sorted_event_models(waiting, events@);
            assert forall|i: int, j: int| 0 <= i < j < events@.len() implies {
                ||| (#[trigger] events@[i]).deliver_time.0 < (#[trigger] events@[j]).deliver_time.0
                ||| events@[i].deliver_time == events@[j].deliver_time && events@[i].src_host_id.0
                    < events@[j].src_host_id.0
                ||| events@[i].deliver_time == events@[j].deliver_time && events@[i].src_host_id
                    == events@[j].src_host_id && events@[i].src_host_event_id < events@[j].src_host_event_id
                ||| events@[i].deliver_time == events@[j].deliver_time && events@[i].src_host_id
                    == events@[j].src_host_id && events@[i].src_host_event_id == events@[j].src_host_event_id
                    && events@[i].dst_host_id.0 <= events@[j].dst_host_id.0
            } by {
                law_sorted_events_are_in_delivery_order(event_models(waiting), event_models(events@), i, j);
            }
            assert(event_models(self.queues@[idx as int]@) =~= Seq::<EventModel>::empty());
            assert(self@ =~= old(self)@.update(idx as int, Seq::<EventModel>::empty()));
        }
        let min_time = earliest(&events);
        Ok((events, min_time))
    }
}

/// What one shard sends, another receives: of a queue that was empty, the receiver gets the sorted
/// events that are bound for it.
pub proof fn law_received_is_what_was_sent(
    group: Seq<EventModel>,
    queue: Seq<EventModel>,
    received: Seq<EventModel>,
)
    requires
        grew_by_sorted(Seq::empty(), group, queue),
        is_sorted_version(queue, received),
    ensures
        is_sorted_version(group, received),
{
    let sorted = choose|sorted: Seq<EventModel>| #[trigger]
        is_sorted_version(group, sorted) && queue == Seq::<EventModel>::empty() + sorted;
    assert(queue =~= sorted);
    law_sorting_is_idempotent(group, queue, received);
}

/// Every event is bound for one shard, whose number is below the shard count.
pub proof fn law_events_have_one_destination(events: Seq<EventModel>, num_shards: u32, i: int)
    requires
        num_shards != 0,
        0 <= i < events.len(),
    ensures
        forall|shard: u32| #[trigger]
            bound_for(events, num_shards, shard).contains(events[i]) <==> shard
                == events[i].dst_host_id.0 % num_shards,
        events[i].dst_host_id.0 % num_shards < num_shards,
{
    assert forall|shard: u32| #[trigger]
        bound_for(events, num_shards, shard).contains(events[i]) <==> shard
            == events[i].dst_host_id.0 % num_shards by {
        let pred = |e: EventModel| e.dst_host_id.0 % num_shards == shard;
        broadcast use vstd::seq_lib::group_filter_ensures;

        if bound_for(events, num_shards, shard).contains(events[i]) {
            let k = choose|k: int|
                0 <= k < events.filter(pred).len() && events.filter(pred)[k] == events[i];
            assert(pred(events.filter(pred)[k]));
        }
        if shard == events[i].dst_host_id.0 % num_shards {
            assert(pred(events[i]));
            assert(events.filter(pred).contains(events[i]));
        }
    }
}

/// The name of a shard's socket within the socket directory.
pub open spec fn socket_name(shard: ShardId) -> Seq<char> {
    "shadow-shard-"@ + decimal(shard.0 as nat) + ".sock"@
}

/// The name of a shard's socket within the socket directory, as a string.
pub fn socket_file_name(shard: ShardId) -> (name: String)
    ensures
        name@ == socket_name(shard),
{
    let mut name = String::new();
    name.append("shadow-shard-");
    push_decimal(&mut name, shard.0 as u64);
    name.append(".sock");
    assert(name@ =~= socket_name(shard));
    name
}

/// A length in four bytes, then the bytes.
pub open spec fn frame_bytes(data: Seq<u8>) -> Seq<u8> {
    be_bytes(data.len(), 4) + data
}

/// Bytes behind their length.
pub fn frame(data: &[u8]) -> (framed: Vec<u8>)
    ensures
        framed@ == frame_bytes(data@),
{
    let mut framed: Vec<u8> = Vec::new();
    push_be(&mut framed, data.len() as u64, 4);
    push_all(&mut framed, data);
    assert(framed@ =~= frame_bytes(data@));
    framed
}

/// Whether a frame holds the sorted batch of a group.
pub open spec fn frames_sorted(group: Seq<EventModel>, frame: Seq<u8>) -> bool {
    exists|sorted: Seq<EventModel>| #[trigger]
        is_sorted_version(group, sorted) && frame == frame_bytes(batch_bytes(sorted))
}

/// Whether a shard is sent a frame: it is not the sender, and events are bound for it.
pub open spec fn is_sent_to(
    events: Seq<EventModel>,
    own_shard: ShardId,
    num_shards: u32,
    shard: u32,
) -> bool {
    &&& shard < num_shards
    &&& shard != own_shard.0
    &&& bound_for(events, num_shards, shard).len() != 0
}

/// The frames that a shard sends for a list of events, with the shards that they go to.
///
/// The shards ascend, and each gets one frame, which holds all events that are bound for it.
pub fn outgoing_frames(own_shard: ShardId, num_shards: u32, events: &[RemotePacketEvent]) -> (frames:
    Vec<(ShardId, Vec<u8>)>)
    requires
        num_shards != 0 || events@.len() == 0,
        after_start(event_models(events@)),
    ensures
        forall|k: int|
            0 <= k < frames@.len() ==> is_sent_to(
                event_models(events@),
                own_shard,
                num_shards,
                (#[trigger] frames@[k]).0.0,
            ) && frames_sorted(
                bound_for(event_models(events@), num_shards, frames@[k].0.0),
                frames@[k].1@,
            ),
        forall|k: int, l: int|
            0 <= k < l < frames@.len() ==> (#[trigger] frames@[k]).0.0 < (
            #[trigger] frames@[l]).0.0,
        forall|shard: u32| #[trigger]
            is_sent_to(event_models(events@), own_shard, num_shards, shard) ==> exists|k: int|
                0 <= k < frames@.len() && (#[trigger] frames@[k]).0.0 == shard,
{
    let ghost models = event_models(events@);
    let mut groups = group_by_modulo(events, num_shards);
    let ghost dealt = groups@;
    let mut frames: Vec<(ShardId, Vec<u8>)> = Vec::new();
    let mut shard: u32 = 0;
    while shard < num_shards
        invariant
            shard <= num_shards,
            groups@.len() == num_shards,
            dealt.len() == num_shards,
            models == event_models(events@),
            after_start(models),
            forall|s: int| shard <= s < num_shards ==> #[trigger] groups@[s] == dealt[s],
            forall|s: int|
                0 <= s < num_shards ==> event_models((#[trigger] dealt[s])@) == bound_for(
                    models,
                    num_shards,
                    s as u32,
                ),
            forall|k: int|
                0 <= k < frames@.len() ==> (#[trigger] frames@[k]).0.0 < shard && is_sent_to(
                    models,
                    own_shard,
                    num_shards,
                    frames@[k].0.0,
                ) && frames_sorted(
                    bound_for(models, num_shards, frames@[k].0.0),
                    frames@[k].1@,
                ),
            forall|k: int, l: int|
                0 <= k < l < frames@.len() ==> (#[trigger] frames@[k]).0.0 < (
                #[trigger] frames@[l]).0.0,
            forall|s: u32| #[trigger]
                is_sent_to(models, own_shard, num_shards, s) && s < shard ==> exists|k: int|
                    0 <= k < frames@.len() && (#[trigger] frames@[k]).0.0 == s,
        decreases num_shards - shard,
    {
        let mut group: Vec<RemotePacketEvent> = Vec::new();
        std::mem::swap(&mut group, &mut groups[shard as usize]);
        let ghost bound = bound_for(models, num_shards, shard);
        assert(event_models(group@) == bound);
        let ghost before = frames@;
        if group.len() != 0 && shard != own_shard.0 {
            let ghost unsorted = group@;
            sort_by_order_key(&mut group);
            proof {
                lemma_sorted_event_models(unsorted, group@);
                lemma_bound_for_after_start(models, num_shards, shard);
                lemma_sorted_after_start(bound, event_models(group@));
            }
            let batch = RemotePacketEvent::encode_batch(&group);
            let framed = frame(&batch);
            frames.push((ShardId(shard), framed));
            proof {
                assert(is_sorted_version(bound, event_models(group@)));
                assert(frames_sorted(bound, framed@));
                assert(frames@[before.len() as int].0.0 == shard);
            }
        }
        proof {
            assert forall|s: u32| #[trigger]
                is_sent_to(models, own_shard, num_shards, s) && s < shard + 1 implies exists|k: int|
                0 <= k < frames@.len() && (#[trigger] frames@[k]).0.0 == s by {
                if s < shard {
                    let k = choose|k: int| 0 <= k < before.len() && (#[trigger] before[k]).0.0 == s;
                    assert(frames@[k] == before[k]);
                } else {
                    assert(frames@[before.len() as int].0.0 == s);
                }
            }
        }
        shard += 1;
    }
    frames
}

proof fn lemma_bound_for_after_start(events: Seq<EventModel>, num_shards: u32, shard: u32)
    requires
        after_start(events),
    ensures
        after_start(bound_for(events, num_shards, shard)),
    decreases events.len(),
{
    reveal(Seq::filter);
    if events.len() > 0 {
        lemma_bound_for_after_start(events.drop_last(), num_shards, shard);
    }
}

/// Sorting keeps delivery times.
pub proof fn lemma_sorted_after_start(input: Seq<EventModel>, output: Seq<EventModel>)
    requires
        is_sorted_version(input, output),
        after_start(input),
    ensures
        after_start(output),
{
}

/// The largest batch that a peer may send: 256 MiB.
pub const MAX_PEER_BATCH_BYTES: u32 = 256 * 1024 * 1024;

/// What is said to a batch that is too large.
pub open spec fn batch_too_large_message(len: nat) -> Seq<char> {
    "Batch too large from peer: "@ + decimal(len) + " bytes"@
}

/// The number of bytes to read behind a length that a peer sent.
pub fn accept_batch_len(len: u32) -> (bytes: Result<usize, TransportError>)
    ensures
        match bytes {
            Ok(n) => len <= MAX_PEER_BATCH_BYTES && n == len,
            Err(e) => len > MAX_PEER_BATCH_BYTES && e@ == batch_too_large_message(len as nat),
        },
        bytes is Ok <==> len <= 0x1000_0000,
{
    if len > MAX_PEER_BATCH_BYTES {
        let mut text = String::new();
        text.append("Batch too large from peer: ");
        push_decimal(&mut text, len as u64);
        text.append(" bytes");
        assert(text@ =~= batch_too_large_message(len as nat));
        return Err(TransportError::new(text));
    }
    Ok(len as usize)
}

/// The batches of one round of receiving: one is due from each other shard.
#[derive(Debug)]
pub struct InboundRound {
    due: u32,
    events: Vec<RemotePacketEvent>,
}

impl InboundRound {
    /// The number of batches that are still due.
    pub closed spec fn batches_due(&self) -> u32 {
        self.due
    }

    /// The events that came in so far, in the order of arrival.
    pub closed spec fn arrived(&self) -> Seq<EventModel> {
        event_models(self.events@)
    }

    /// A round in which each shard but one sends a batch.
    pub fn new(num_shards: u32) -> (round: Self)
        requires
            num_shards > 0,
        ensures
            round.batches_due() == num_shards - 1,
            round.arrived() == Seq::<EventModel>::empty(),
    {
        let round = InboundRound { due: num_shards - 1, events: Vec::new() };
        assert(round.arrived() =~= Seq::<EventModel>::empty());
        round
    }

    /// Whether all batches came in.
    pub fn is_complete(&self) -> (complete: bool)
        ensures
            complete == (self.batches_due() == 0),
    {
        self.due == 0
    }

    /// Takes in the batch of one peer. On bytes that are no batch nothing changes.
    pub fn accept(&mut self, data: &[u8]) -> (accepted: Result<(), TransportError>)
        requires
            old(self).batches_due() > 0,
            batch_times_in_range(data@),
        ensures
            match (accepted, parse_batch(data@)) {
                (Ok(()), Ok(events)) => {
                    &&& final(self).batches_due() == old(self).batches_due() - 1
                    &&& final(self).arrived() == old(self).arrived() + events
                },
                (Err(e), Err(reason)) => {
                    &&& *final(self) == *old(self)
                    &&& e@ == "Failed to decode peer batch: "@ + reason.message()
                },
                _ => false,
            },
    {
        match RemotePacketEvent::decode_batch(data) {
            Ok(list) => {
                let mut more = list;
                self.events.append(&mut more);
                self.due = self.due - 1;
                assert(self.arrived() =~= old(self).arrived() + event_models(list@));
                Ok(())
            },
            Err(reason) => {
                let mut text = String::new();
                text.append("Failed to decode peer batch: ");
                text.append(reason.to_string().as_str());
                assert(text@ =~= "Failed to decode peer batch: "@ + reason.message());
                Err(TransportError::new(text))
            },
        }
    }

    /// The events of the round, sorted, with the earliest delivery time.
    pub fn finish(self) -> (result: (Vec<RemotePacketEvent>, Option<EmulatedTime>))
        ensures
            is_sorted_version(self.arrived(), event_models(result.0@)),
            result.1 == first_time(event_models(result.0@)),
            forall|i: int, j: int|
                0 <= i < j < result.0@.len() ==> {
                    ||| (#[trigger] result.0@[i]).deliver_time.0 < (#[trigger] result.0@[j]).deliver_time.0
                    ||| result.0@[i].deliver_time == result.0@[j].deliver_time && result.0@[i].src_host_id.0
                        < result.0@[j].src_host_id.0
                    ||| result.0@[i].deliver_time == result.0@[j].deliver_time && result.0@[i].src_host_id
                        == result.0@[j].src_host_id && result.0@[i].src_host_event_id
                        < result.0@[j].src_host_event_id
                    ||| result.0@[i].deliver_time == result.0@[j].deliver_time && result.0@[i].src_host_id
                        == result.0@[j].src_host_id && result.0@[i].src_host_event_id
                        == result.0@[j].src_host_event_id && result.0@[i].dst_host_id.0
                        <= result.0@[j].dst_host_id.0
                },
    {
        let mut events = self.events;
        let ghost unsorted = events@;
        sort_by_order_key(&mut events);
        proof {
            lemma_sorted_event_models(unsorted, events@);
            assert forall|i: int, j: int| 0 <= i < j < events@.len() implies {
                ||| (#[trigger] events@[i]).deliver_time.0 < (#[trigger] events@[j]).deliver_time.0
                ||| events@[i].deliver_time == events@[j].deliver_time && events@[i].src_host_id.0
                    < events@[j].src_host_id.0
                ||| events@[i].deliver_time == events@[j].deliver_time && events@[i].src_host_id
                    == events@[j].src_host_id && events@[i].src_host_event_id < events@[j].src_host_event_id
                ||| events@[i].deliver_time == events@[j].deliver_time && events@[i].src_host_id
                    == events@[j].src_host_id && events@[i].src_host_event_id == events@[j].src_host_event_id
                    && events@[i].dst_host_id.0 <= events@[j].dst_host_id.0
            } by {
                law_sorted_events_are_in_delivery_order(event_models(unsorted), event_models(events@), i, j);
            }
        }
        let min_time = earliest(&events);
        (events, min_time)
    }
}

/// A batch in the format that all exchanges share.
pub fn encode_remote_packet_batch(events: &[RemotePacketEvent]) -> (buf: Vec<u8>)
    requires
        after_start(event_models(events@)),
    ensures
        buf@ == batch_bytes(event_models(events@)),
{
    RemotePacketEvent::encode_batch(events)
}

/// The events of a batch in the format that all exchanges share.
pub fn decode_remote_packet_batch(data: &[u8]) -> (events: Result<
    Vec<RemotePacketEvent>,
    TransportError,
>)
    requires
        batch_times_in_range(data@),
    ensures
        match (events, parse_batch(data@)) {
            (Ok(list), Ok(models)) => event_models(list@) == models,
            (Err(e), Err(reason)) => e@ == "Batch decode error: "@ + reason.message(),
            _ => false,
        },
{
    match RemotePacketEvent::decode_batch(data) {
        Ok(list) => Ok(list),
        Err(reason) => {
            let mut text = String::new();
            text.append("Batch decode error: ");
            text.append(reason.to_string().as_str());
            assert(text@ =~= "Batch decode error: "@ + reason.message());
            Err(TransportError::new(text))
        },
    }
}

/// The earliest delivery time of sorted events is there if and only if there are events, and it is
/// the time of one of them.
pub proof fn law_first_time_is_one_of_the_times(events: Seq<EventModel>)
    ensures
        first_time(events) is None <==> events.len() == 0,
        first_time(events) matches Some(time) ==> exists|i: int|
            0 <= i < events.len() && (#[trigger] events[i]).deliver_time == time,
{
    if events.len() > 0 {
        assert(events[0].deliver_time == first_time(events)->0);
    }
}

/// Different shards have different sockets.
pub proof fn law_sockets_differ(a: ShardId, b: ShardId)
    ensures
        socket_name(a) == socket_name(b) <==> a == b,
{
    let left = decimal(a.0 as nat);
    let right = decimal(b.0 as nat);
    if socket_name(a) == socket_name(b) {
        let front = "shadow-shard-"@;
        let back = ".sock"@;
        assert(socket_name(a).len() == front.len() + left.len() + back.len());
        assert(socket_name(b).len() == front.len() + right.len() + back.len());
        assert(left =~= socket_name(a).subrange(
            front.len() as int,
            front.len() + left.len() as int,
        ));
        assert(right =~= socket_name(b).subrange(
            front.len() as int,
            front.len() + right.len() as int,
        ));
        lemma_decimal_injective(a.0 as nat, b.0 as nat);
    }
}

/// Behind its length a frame holds what was framed, byte for byte.
pub proof fn law_frame_holds_its_length_and_data(data: Seq<u8>)
    requires
        data.len() <= u32::MAX,
    ensures
        frame_bytes(data).len() == 4 + data.len(),
        frame_bytes(data)[0] * 0x100_0000 + frame_bytes(data)[1] * 0x1_0000 + frame_bytes(data)[2]
            * 0x100 + frame_bytes(data)[3] == data.len(),
        frame_bytes(data).skip(4) == data,
{
    let n = data.len();
    assert(frame_bytes(data).skip(4) =~= data) by {
        lemma_be_bytes_len(n, 4);
    }
    lemma_be_bytes_len(n, 4);
    law_four_bytes(n);
}

/// Where the events that are bound for a shard stood: the places ascend, and they are those of all
/// events whose receiving host leaves the shard's number modulo the shard count.
pub proof fn law_bound_events_keep_their_order(
    events: Seq<EventModel>,
    num_shards: u32,
    shard: u32,
) -> (places: Seq<int>)
    requires
        num_shards != 0,
    ensures
        places.len() == bound_for(events, num_shards, shard).len(),
        forall|k: int|
            0 <= k < places.len() ==> 0 <= #[trigger] places[k] < events.len()
                && events[places[k]].dst_host_id.0 % num_shards == shard && events[places[k]]
                == bound_for(events, num_shards, shard)[k],
        forall|k: int, l: int|
            0 <= k < l < places.len() ==> #[trigger] places[k] < #[trigger] places[l],
        forall|i: int|
            0 <= i < events.len() && (#[trigger] events[i]).dst_host_id.0 % num_shards == shard
                ==> places.contains(i),
{
    lemma_picked_places(events, |e: EventModel| e.dst_host_id.0 % num_shards == shard)
}

/// A shard is sent a frame if and only if it is another shard than the sender, and the number of
/// some event's receiving host leaves its number modulo the shard count.
pub proof fn law_frames_go_where_events_are_bound(
    events: Seq<EventModel>,
    own_shard: ShardId,
    num_shards: u32,
    shard: u32,
)
    requires
        num_shards != 0,
    ensures
        is_sent_to(events, own_shard, num_shards, shard) <==> shard != own_shard.0 && shard
            < num_shards && exists|i: int|
            0 <= i < events.len() && (#[trigger] events[i]).dst_host_id.0 % num_shards == shard,
{
    let places = law_bound_events_keep_their_order(events, num_shards, shard);
    if places.len() > 0 {
        let i = places[0];
        assert(events[i].dst_host_id.0 % num_shards == shard);
    }
    if exists|i: int|
        0 <= i < events.len() && (#[trigger] events[i]).dst_host_id.0 % num_shards == shard {
        let i = choose|i: int|
            0 <= i < events.len() && (#[trigger] events[i]).dst_host_id.0 % num_shards == shard;
        assert(places.contains(i));
    }
}

/// What is said to packets that nothing can send, to batches that are too large, and to exchanges
/// that failed.
pub proof fn law_what_is_said_of_exchanges(count: nat, text: String, e: RemotePacketDeliveryError)
    ensures
        noop_message(count) == "NoopRemotePacketExchange: "@ + decimal(count)
            + " outbound remote packets with no remote backend. Check distributed config and partition map."@,
        batch_too_large_message(count) == "Batch too large from peer: "@ + decimal(count)
            + " bytes"@,
        RemotePacketExchangeError::NoBackend.message() == "No remote exchange backend configured"@,
        RemotePacketExchangeError::BackendError(text).message() == "Exchange backend error: "@
            + text@,
        RemotePacketExchangeError::DeliveryError(e).message() == "Delivery error: "@ + e.message(),
{
}

} // verus!
