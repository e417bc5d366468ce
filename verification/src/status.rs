//! What users are told of the progress of a simulation.

use vstd::prelude::*;
use vstd::string::*;

use crate::text::{decimal, push_decimal, push_signed_decimal, signed_decimal};
use crate::time::{EMUTIME_SIMULATION_START, EmulatedTime};

verus! {

/// How far a simulation has come.
#[derive(Clone, Copy, Debug, PartialEq, Eq, Structural)]
pub struct ShadowStatusBarState {
    pub current: EmulatedTime,
    pub end: EmulatedTime,
    pub num_failed_processes: u32,
}

/// The line that users see.
pub open spec fn status_text(
    percent: int,
    simulated: Seq<char>,
    simulated_end: Seq<char>,
    realtime: Seq<char>,
    num_failed_processes: nat,
) -> Seq<char> {
    signed_decimal(percent) + "% — simulated: "@ + simulated + "/"@ + simulated_end
        + ", realtime: "@ + realtime + ", processes failed: "@ + decimal(num_failed_processes)
}

impl ShadowStatusBarState {
    /// The simulation begins.
    pub fn new(end: EmulatedTime) -> (state: Self)
        ensures
            state == (ShadowStatusBarState {
                current: EmulatedTime(EMUTIME_SIMULATION_START),
                end,
                num_failed_processes: 0,
            }),
    {
        ShadowStatusBarState {
            current: EmulatedTime::simulation_start(),
            end,
            num_failed_processes: 0,
        }
    }

    /// The line that users see, given the share of the simulation that is done and the texts of its
    /// times.
    pub fn describe(
        &self,
        percent: i8,
        simulated: &str,
        simulated_end: &str,
        realtime: &str,
    ) -> (text: String)
        ensures
            text@ == status_text(
                percent as int,
                simulated@,
                simulated_end@,
                realtime@,
                self.num_failed_processes as nat,
            ),
    {
        let mut text = String::new();
        push_signed_decimal(&mut text, percent as i64);
        text.append("% — simulated: ");
        text.append(simulated);
        text.append("/");
        text.append(simulated_end);
        text.append(", realtime: ");
        text.append(realtime);
        text.append(", processes failed: ");
        push_decimal(&mut text, self.num_failed_processes as u64);
        assert(text@ =~= status_text(
            percent as int,
            simulated@,
            simulated_end@,
            realtime@,
            self.num_failed_processes as nat,
        ));
        text
    }
}

/// The ways in which progress is shown: line by line, or in one place of a terminal.
#[derive(Clone, Copy, Debug, PartialEq, Eq, Structural)]
pub enum StatusLogger {
    Printer(ShadowStatusBarState),
    Bar(ShadowStatusBarState),
}

impl StatusLogger {
    /// The way that fits where the progress is shown.
    pub fn new(state: ShadowStatusBarState, terminal: bool) -> (logger: Self)
        ensures
            logger == (if terminal {
                StatusLogger::Bar(state)
            } else {
                StatusLogger::Printer(state)
            }),
    {
        if terminal {
            StatusLogger::Bar(state)
        } else {
            StatusLogger::Printer(state)
        }
    }

    /// How far the simulation has come.
    pub fn status(&self) -> (state: &ShadowStatusBarState)
        ensures
            match *self {
                StatusLogger::Printer(shown) => *state == shown,
                StatusLogger::Bar(shown) => *state == shown,
            },
    {
        match self {
            StatusLogger::Printer(state) => state,
            StatusLogger::Bar(state) => state,
        }
    }
}

/// The status shows the percentage, the simulated time of all that is simulated, the real time and
/// the number of failed processes, in this order.
pub proof fn law_status_shows_its_parts(
    percent: int,
    simulated: Seq<char>,
    simulated_end: Seq<char>,
    realtime: Seq<char>,
    num_failed_processes: nat,
)
    ensures
        status_text(percent, simulated, simulated_end, realtime, num_failed_processes)
            == signed_decimal(percent) + "% — simulated: "@ + simulated + "/"@ + simulated_end
            + ", realtime: "@ + realtime + ", processes failed: "@ + decimal(num_failed_processes),
{
}

} // verus!
