//! The windows in which a simulation advances.

use vstd::prelude::*;
use vstd::string::*;

use crate::distributed::error::RemotePacketExchangeError;
use crate::distributed::exchange::DistributedSynchronizer;
use crate::text::{decimal, push_decimal};
use crate::time::{EMUTIME_MAX, EMUTIME_SIMULATION_START, EmulatedTime, SimulationTime};

verus! {

/// The window that begins with the earliest next event: it is one runahead long, or as long as the
/// simulation still runs. There is none where the simulation is over.
pub open spec fn window(
    min_next_event_time: EmulatedTime,
    runahead: SimulationTime,
    end_time: EmulatedTime,
) -> Option<(EmulatedTime, EmulatedTime)> {
    let ahead = if min_next_event_time.0 + runahead.0 <= EMUTIME_MAX {
        (min_next_event_time.0 + runahead.0) as u64
    } else {
        EMUTIME_MAX
    };
    let end = if ahead < end_time.0 {
        EmulatedTime(ahead)
    } else {
        end_time
    };
    if min_next_event_time.0 < end.0 {
        Some((min_next_event_time, end))
    } else {
        None
    }
}

/// What the manager of the hosts asks of the controller.
pub trait SimController {
    /// Called when all remote packets of a window were sent.
    fn remote_packet_send_complete(&mut self) -> Result<(), RemotePacketExchangeError>;

    /// Called when a window is over, with the next event of the hosts of this process. Gives the
    /// next window, if there is one.
    fn manager_finished_current_round(
        &mut self,
        min_next_event_time: EmulatedTime,
        runahead: SimulationTime,
    ) -> Result<Option<(EmulatedTime, EmulatedTime)>, RemotePacketExchangeError>
        requires
            runahead.0 != 0,
    ;
}

/// Decides how far the simulation advances. In a split run it does so together with the controllers
/// of the other shards, through the synchronizer.
#[derive(Debug)]
pub struct Controller<S: DistributedSynchronizer> {
    end_time: EmulatedTime,
    distributed_control: Option<S>,
}

impl<S: DistributedSynchronizer> Controller<S> {
    /// When the simulation ends.
    pub closed spec fn end(&self) -> EmulatedTime {
        self.end_time
    }

    /// Whether the run is split.
    pub closed spec fn is_distributed(&self) -> bool {
        self.distributed_control is Some
    }

    /// What the controller reaches the other shards through.
    pub closed spec fn synchronizer(&self) -> S {
        self.distributed_control->0
    }

    /// The controller of a simulation that stops after a time.
    pub fn new(stop_time: SimulationTime, distributed_control: Option<S>) -> (controller: Self)
        requires
            stop_time.valid(),
        ensures
            controller.end().0 == EMUTIME_SIMULATION_START + stop_time.0,
            controller.end().valid(),
            controller.is_distributed() == distributed_control is Some,
            distributed_control matches Some(control) ==> controller.synchronizer() == control,
    {
        Controller {
            end_time: EmulatedTime::at_simulation_nanos(stop_time.as_nanos()),
            distributed_control,
        }
    }

    /// When the simulation ends.
    pub fn end_time(&self) -> (time: EmulatedTime)
        ensures
            time == self.end(),
    {
        self.end_time
    }

    /// The next window, given the earliest next event of all shards.
    pub fn next_window(&self, min_next_event_time: EmulatedTime, runahead: SimulationTime) -> (next:
        Option<(EmulatedTime, EmulatedTime)>)
        requires
            runahead.0 != 0,
        ensures
            next == window(min_next_event_time, runahead, self.end()),
            self.end().valid() ==> (next is Some <==> min_next_event_time.0 < self.end().0),
            self.end().valid() ==> (next matches Some((start, end)) ==> start
                == min_next_event_time && end.0 == (if start.0 + runahead.0 < self.end().0 {
                start.0 + runahead.0
            } else {
                self.end().0 as int
            })),
    {
        let new_start = min_next_event_time;
        let ahead = match new_start.checked_add(runahead) {
            Some(time) => time,
            None => EmulatedTime::max(),
        };
        let new_end = if ahead.0 < self.end_time.0 {
            ahead
        } else {
            self.end_time
        };
        if new_start.0 < new_end.0 {
            Some((new_start, new_end))
        } else {
            None
        }
    }
}

impl<S: DistributedSynchronizer> SimController for Controller<S> {
    /// Waits for the other shards, where there are any, and passes on what the wait gave.
    fn remote_packet_send_complete(&mut self) -> (waited: Result<(), RemotePacketExchangeError>)
        ensures
            !old(self).is_distributed() ==> waited is Ok,
            old(self).is_distributed() ==> exists|control: &mut S|
                {
                    &&& #[trigger] call_ensures(S::wait, (control,), waited)
                    &&& *control == old(self).synchronizer()
                    &&& *final(control) == final(self).synchronizer()
                },
            final(self).end() == old(self).end(),
            final(self).is_distributed() == old(self).is_distributed(),
    {
        match &mut self.distributed_control {
            Some(control) => control.wait(),
            None => Ok(()),
        }
    }

    /// Reports the next event of this process to the other shards, where there are any. The window
    /// begins with the event that they answer with, and their failure is passed on.
    fn manager_finished_current_round(
        &mut self,
        min_next_event_time: EmulatedTime,
        runahead: SimulationTime,
    ) -> (next: Result<Option<(EmulatedTime, EmulatedTime)>, RemotePacketExchangeError>)
        ensures
            !old(self).is_distributed() ==> (next matches Ok(w) && w == window(
                min_next_event_time,
                runahead,
                old(self).end(),
            )),
            !old(self).is_distributed() && old(self).end().valid() ==> (next matches Ok(w) && match w {
                Some((start, end)) => {
                    &&& start == min_next_event_time
                    &&& start.0 + runahead.0 <= old(self).end().0 ==> end.0 == start.0 + runahead.0
                    &&& start.0 + runahead.0 > old(self).end().0 ==> end == old(self).end()
                },
                None => old(self).end().0 <= min_next_event_time.0,
            }),
            old(self).is_distributed() ==> exists|
                control: &mut S,
                answer: Result<EmulatedTime, RemotePacketExchangeError>,
            |
                {
                    &&& #[trigger] call_ensures(
                        S::wait_for_global_min_next_event,
                        (control, min_next_event_time),
                        answer,
                    )
                    &&& *control == old(self).synchronizer()
                    &&& *final(control) == final(self).synchronizer()
                    &&& match answer {
                        Ok(global_min) => next matches Ok(w) && w == window(
                            global_min,
                            runahead,
                            old(self).end(),
                        ),
                        Err(failure) => next matches Err(e) && e == failure,
                    }
                },
            final(self).end() == old(self).end(),
            final(self).is_distributed() == old(self).is_distributed(),
    {
        let global_min = match &mut self.distributed_control {
            Some(control) => match control.wait_for_global_min_next_event(min_next_event_time) {
                Ok(time) => time,
                Err(e) => {
                    return Err(e);
                },
            },
            None => min_next_event_time,
        };
        Ok(self.next_window(global_min, runahead))
    }
}

/// A window begins with the earliest next event, is not empty, is no longer than the runahead, and
/// does not go beyond the end of the simulation.
pub proof fn law_window_bounds(
    min_next_event_time: EmulatedTime,
    runahead: SimulationTime,
    end_time: EmulatedTime,
)
    requires
        end_time.valid(),
    ensures
        window(min_next_event_time, runahead, end_time) matches Some((start, end)) ==> {
            &&& start == min_next_event_time
            &&& start.0 < end.0
            &&& end.0 <= end_time.0
            &&& end.0 - start.0 <= runahead.0
        },
{
}

/// The simulation goes on as long as the earliest next event lies before its end.
pub proof fn law_simulation_runs_to_its_end(
    min_next_event_time: EmulatedTime,
    runahead: SimulationTime,
    end_time: EmulatedTime,
)
    requires
        end_time.valid(),
        runahead.0 != 0,
    ensures
        window(min_next_event_time, runahead, end_time) is Some <==> min_next_event_time.0
            < end_time.0,
{
}

/// A packet that is sent within a window over a path whose latency is not below the runahead
/// arrives after the window: no shard can be sent a packet that it should have handled already.
pub proof fn law_packets_arrive_after_the_window(
    min_next_event_time: EmulatedTime,
    runahead: SimulationTime,
    end_time: EmulatedTime,
    sent: EmulatedTime,
    latency: SimulationTime,
)
    requires
        window(min_next_event_time, runahead, end_time) matches Some((start, end)) && start.0
            <= sent.0 < end.0,
        runahead.0 <= latency.0,
    ensures
        window(min_next_event_time, runahead, end_time) matches Some((start, end)) && end.0
            <= sent.0 + latency.0,
{
}

/// Windows do not overlap: where nothing happens before a window ends, the next window begins
/// there or later.
pub proof fn law_windows_do_not_overlap(
    first_min: EmulatedTime,
    second_min: EmulatedTime,
    runahead: SimulationTime,
    end_time: EmulatedTime,
)
    requires
        window(first_min, runahead, end_time) matches Some((start, end)) && end.0 <= second_min.0,
        window(second_min, runahead, end_time) is Some,
    ensures
        window(first_min, runahead, end_time) matches Some((start, end)) && window(
            second_min,
            runahead,
            end_time,
        ) matches Some((next_start, next_end)) && end.0 <= next_start.0 && start.0 < next_start.0,
{
}

/// How the packets of a process reach other shards.
#[derive(Clone, Copy, Debug, PartialEq, Eq, Structural)]
pub enum ExchangeChoice {
    /// Through sockets in the directory that the parent process gave.
    UnixSocket,
    /// Through MPI.
    Mpi,
    /// Not at all.
    Noop,
}

/// How the packets of a process reach other shards. A socket directory goes before MPI, and MPI is
/// used where it is built in and the run is split.
pub fn choose_exchange(has_socket_dir: bool, mpi_built_in: bool, shard_count: u32) -> (choice:
    ExchangeChoice)
    ensures
        choice == (if has_socket_dir {
            ExchangeChoice::UnixSocket
        } else if mpi_built_in && shard_count > 1 {
            ExchangeChoice::Mpi
        } else {
            ExchangeChoice::Noop
        }),
{
    if has_socket_dir {
        ExchangeChoice::UnixSocket
    } else if mpi_built_in && shard_count > 1 {
        ExchangeChoice::Mpi
    } else {
        ExchangeChoice::Noop
    }
}

/// What is said at the end of a run in which processes failed.
pub open spec fn failed_processes_text(count: nat) -> Seq<char> {
    decimal(count) + " managed processes in unexpected final state"@
}

/// How a run ends, given the number of processes that ended in another state than expected.
pub fn run_outcome(num_plugin_errors: u32) -> (outcome: Result<(), String>)
    ensures
        match outcome {
            Ok(()) => num_plugin_errors == 0,
            Err(text) => num_plugin_errors != 0 && text@ == failed_processes_text(
                num_plugin_errors as nat,
            ),
        },
{
    if num_plugin_errors > 0 {
        let mut text = String::new();
        push_decimal(&mut text, num_plugin_errors as u64);
        text.append(" managed processes in unexpected final state");
        assert(text@ =~= failed_processes_text(num_plugin_errors as nat));
        return Err(text);
    }
    Ok(())
}

/// A window reaches as far as it may: one whole runahead behind its start where the simulation runs
/// that long, and else to the end of the simulation.
pub proof fn law_window_reaches_as_far_as_it_may(
    min_next_event_time: EmulatedTime,
    runahead: SimulationTime,
    end_time: EmulatedTime,
)
    requires
        end_time.valid(),
    ensures
        window(min_next_event_time, runahead, end_time) matches Some((start, end)) ==> {
            &&& start.0 + runahead.0 <= end_time.0 ==> end.0 == start.0 + runahead.0
            &&& start.0 + runahead.0 > end_time.0 ==> end == end_time
        },
{
}

/// Of two runaheads the longer one gives the window that reaches further, unless both windows are
/// cut off by the end of the simulation.
pub proof fn law_longer_runahead_gives_longer_window(
    min_next_event_time: EmulatedTime,
    shorter: SimulationTime,
    longer: SimulationTime,
    end_time: EmulatedTime,
)
    requires
        end_time.valid(),
        shorter.0 < longer.0,
        window(min_next_event_time, shorter, end_time) is Some,
    ensures
        window(min_next_event_time, shorter, end_time) matches Some((a, first_end)) && window(
            min_next_event_time,
            longer,
            end_time,
        ) matches Some((b, second_end)) && a == b && (first_end.0 < second_end.0 || first_end
            == end_time && second_end == end_time),
{
}

/// What is said at the end of a run names the number of processes that failed.
pub proof fn law_failed_processes_are_counted(count: nat)
    ensures
        failed_processes_text(count) == decimal(count)
            + " managed processes in unexpected final state"@,
{
}

} // verus!
