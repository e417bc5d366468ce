//! Simulated time: instants and spans, in nanoseconds.

use vstd::prelude::*;

verus! {

/// A span of simulated time in nanoseconds.
#[derive(Clone, Copy, Debug, PartialEq, Eq, PartialOrd, Ord, Hash, Structural)]
pub struct SimulationTime(pub u64);

/// An instant of simulated time, in nanoseconds since the Unix epoch.
#[derive(Clone, Copy, Debug, PartialEq, Eq, PartialOrd, Ord, Hash, Structural)]
pub struct EmulatedTime(pub u64);

/// The number that stands for "no instant" where instants are written as plain numbers.
pub const EMUTIME_INVALID: u64 = 0xffff_ffff_ffff_ffff;

/// The latest instant: one below the invalid number.
pub const EMUTIME_MAX: u64 = 0xffff_ffff_ffff_fffe;

/// Midnight of January 1, 2000 (UTC), at which every simulation starts.
pub const EMUTIME_SIMULATION_START: u64 = 946_684_800_000_000_000;

/// The longest span: from the start of a simulation to the latest instant.
pub const SIMTIME_MAX: u64 = EMUTIME_MAX - EMUTIME_SIMULATION_START;

impl SimulationTime {
    /// Spans that a simulation can hold.
    pub open spec fn valid(self) -> bool {
        self.0 <= SIMTIME_MAX
    }

    /// The span of `nanos` nanoseconds.
    pub fn from_nanos(nanos: u64) -> (span: Self)
        requires
            nanos <= SIMTIME_MAX,
        ensures
            span == SimulationTime(nanos),
            span.valid(),
    {
        SimulationTime(nanos)
    }

    /// The span in nanoseconds.
    pub fn as_nanos(self) -> (nanos: u64)
        ensures
            nanos == self.0,
    {
        self.0
    }
}

impl EmulatedTime {
    /// Numbers that denote an instant.
    pub open spec fn valid(self) -> bool {
        self.0 <= EMUTIME_MAX
    }

    /// The instant that a plain number stands for, unless it is the invalid number.
    pub open spec fn instant(value: u64) -> Option<EmulatedTime> {
        if value == EMUTIME_INVALID {
            None
        } else {
            Some(EmulatedTime(value))
        }
    }

    /// The plain number of an instant, or the invalid number for none.
    pub open spec fn number(time: Option<EmulatedTime>) -> u64 {
        match time {
            Some(t) => t.0,
            None => EMUTIME_INVALID,
        }
    }

    /// The instant at which every simulation starts.
    pub fn simulation_start() -> (time: EmulatedTime)
        ensures
            time == EmulatedTime(EMUTIME_SIMULATION_START),
            time.valid(),
    {
        EmulatedTime(EMUTIME_SIMULATION_START)
    }

    /// The Unix epoch.
    pub fn unix_epoch() -> (time: EmulatedTime)
        ensures
            time == EmulatedTime(0),
            time.valid(),
    {
        EmulatedTime(0)
    }

    /// The latest instant.
    pub fn max() -> (time: EmulatedTime)
        ensures
            time == EmulatedTime(EMUTIME_MAX),
            time.valid(),
    {
        EmulatedTime(EMUTIME_MAX)
    }

    /// The instant that `instant` gives.
    pub fn from_c_emutime(value: u64) -> (time: Option<Self>)
        ensures
            time == EmulatedTime::instant(value),
            time matches Some(t) ==> t.valid(),
    {
        if value == EMUTIME_INVALID {
            None
        } else {
            Some(EmulatedTime(value))
        }
    }

    /// The plain number that `number` gives.
    pub fn to_c_emutime(time: Option<Self>) -> (value: u64)
        ensures
            value == EmulatedTime::number(time),
    {
        match time {
            Some(t) => t.0,
            None => EMUTIME_INVALID,
        }
    }

    /// The span from `earlier` to this instant.
    pub fn duration_since(&self, earlier: &EmulatedTime) -> (span: SimulationTime)
        requires
            earlier.0 <= self.0,
        ensures
            span.0 == self.0 - earlier.0,
    {
        SimulationTime(self.0 - earlier.0)
    }

    /// The instant one span later, if there is one.
    pub fn checked_add(self, span: SimulationTime) -> (time: Option<EmulatedTime>)
        ensures
            time == (if self.0 + span.0 <= EMUTIME_MAX {
                Some(EmulatedTime((self.0 + span.0) as u64))
            } else {
                None
            }),
            time matches Some(t) ==> t.valid(),
    {
        match self.0.checked_add(span.0) {
            Some(sum) => if sum <= EMUTIME_MAX {
                Some(EmulatedTime(sum))
            } else {
                None
            },
            None => None,
        }
    }

    /// The instant `nanos` nanoseconds into the simulation.
    pub fn at_simulation_nanos(nanos: u64) -> (time: EmulatedTime)
        requires
            nanos <= SIMTIME_MAX,
        ensures
            time.0 == EMUTIME_SIMULATION_START + nanos,
            time.valid(),
    {
        EmulatedTime(EMUTIME_SIMULATION_START + nanos)
    }
}

/// Writing an instant as a plain number and reading it back gives the instant.
pub proof fn law_emulated_time_number_round_trip(time: EmulatedTime)
    requires
        time.valid(),
    ensures
        EmulatedTime::instant(EmulatedTime::number(Some(time))) == Some(time),
{
}

/// Every number but the highest stands for the instant of that number, and the highest for none.
pub proof fn law_highest_number_stands_for_no_instant(value: u64)
    ensures
        EmulatedTime::instant(value) is None <==> value == 0xffff_ffff_ffff_ffff,
        EmulatedTime::instant(value) matches Some(time) ==> time.0 == value,
        EmulatedTime::number(EmulatedTime::instant(value)) == value,
        EmulatedTime::number(Some(EmulatedTime(value))) == value,
{
}

/// A simulation starts 946684800 seconds after the Unix epoch, and the longest span leads from
/// there to the latest instant.
pub proof fn law_longest_span_ends_at_the_latest_instant(span: SimulationTime)
    ensures
        span.valid() <==> 946_684_800 * 1_000_000_000 + span.0 <= 0xffff_ffff_ffff_fffe,
        span.valid() <==> EMUTIME_SIMULATION_START + span.0 <= EMUTIME_MAX,
{
}

} // verus!
