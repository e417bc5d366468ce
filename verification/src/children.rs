//! Waiting for the shard processes of a run.

use vstd::prelude::*;
use vstd::string::*;

use crate::ids::ShardId;
use crate::sim_config::error::ConfigError;

verus! {

/// What polling a process gave.
#[derive(Debug)]
pub enum Polled {
    /// The process could not be polled.
    Failed(String),
    /// The process runs.
    Running,
    /// The process is gone. The text says how it ended.
    Exited { success: bool, status: String },
}

/// What to do next.
#[derive(Clone, Copy, Debug, PartialEq, Eq, Structural)]
pub enum WaitStep {
    /// Nothing: all processes are gone.
    Done,
    /// Poll the process in a place of the list.
    Poll(usize),
    /// Wait a moment: no process was gone in the last round.
    Sleep,
}

/// What follows from polling a process.
#[derive(Debug)]
pub enum WaitOutcome {
    /// The process stays in the list.
    Keep,
    /// The process leaves the list, and the last of the list takes its place.
    Remove,
    /// The process leaves the list in the same way, all others are killed, and the wait fails.
    KillOthers(ConfigError),
    /// The wait fails.
    GiveUp(ConfigError),
}

/// What is said to a process that could not be polled.
pub open spec fn poll_failure_text(shard: ShardId) -> Seq<char> {
    "Failed to poll distributed shard "@ + shard.shown()
}

/// What is said to a process that did not end well.
pub open spec fn exit_failure_text(shard: ShardId, status: Seq<char>) -> Seq<char> {
    "distributed shard "@ + shard.shown() + " exited with "@ + status
}

/// A list from which one element was taken; the last element fills the gap.
pub open spec fn swap_removed<T>(list: Seq<T>, i: int) -> Seq<T> {
    if i == list.len() - 1 {
        list.drop_last()
    } else {
        list.update(i, list.last()).drop_last()
    }
}

/// The processes that were not gone when last polled, and how far the current round has come.
#[derive(Debug)]
pub struct ChildWatch {
    running: Vec<ShardId>,
    next: usize,
    made_progress: bool,
}

/// What a watch holds.
pub struct WatchModel {
    pub running: Seq<ShardId>,
    pub next: nat,
    pub made_progress: bool,
}

impl View for ChildWatch {
    type V = WatchModel;

    closed spec fn view(&self) -> WatchModel {
        WatchModel {
            running: self.running@,
            next: self.next as nat,
            made_progress: self.made_progress,
        }
    }
}

/// The next step, with the watch after it. At the end of a round without progress there is a wait,
/// and at the end of each the next round begins.
pub open spec fn stepped(watch: WatchModel) -> (WaitStep, WatchModel) {
    if watch.running.len() == 0 {
        (WaitStep::Done, watch)
    } else if watch.next < watch.running.len() {
        (WaitStep::Poll(watch.next as usize), watch)
    } else {
        let begun = WatchModel { next: 0, made_progress: false, ..watch };
        if watch.made_progress {
            (WaitStep::Poll(0), begun)
        } else {
            (WaitStep::Sleep, begun)
        }
    }
}

/// The watch after a process was polled.
pub open spec fn after_poll(watch: WatchModel, polled: Polled) -> WatchModel {
    match polled {
        Polled::Failed(_) => watch,
        Polled::Running => WatchModel { next: watch.next + 1, ..watch },
        Polled::Exited { .. } => WatchModel {
            running: swap_removed(watch.running, watch.next as int),
            made_progress: true,
            ..watch
        },
    }
}

/// Whether an outcome is what polling a process comes to.
pub open spec fn is_outcome(outcome: WaitOutcome, shard: ShardId, polled: Polled) -> bool {
    match polled {
        Polled::Failed(cause) => outcome matches WaitOutcome::GiveUp(e) && e@ == seq![
            poll_failure_text(shard),
            cause@,
        ],
        Polled::Running => outcome is Keep,
        Polled::Exited { success, status } => if success {
            outcome is Remove
        } else {
            outcome matches WaitOutcome::KillOthers(e) && e@ == seq![
                exit_failure_text(shard, status@),
            ]
        },
    }
}

impl ChildWatch {
    /// The place of the next process is in the list or at its end.
    pub closed spec fn wf(&self) -> bool {
        self.next <= self.running@.len()
    }

    /// The first round begins.
    pub fn new(shards: Vec<ShardId>) -> (watch: Self)
        ensures
            watch.wf(),
            watch@ == (WatchModel { running: shards@, next: 0, made_progress: false }),
    {
        ChildWatch { running: shards, next: 0, made_progress: false }
    }

    /// What to do next.
    pub fn next_step(&mut self) -> (step: WaitStep)
        requires
            old(self).wf(),
        ensures
            final(self).wf(),
            (step, final(self)@) == stepped(old(self)@),
            step is Poll ==> final(self)@.next < final(self)@.running.len(),
    {
        if self.running.len() == 0 {
            return WaitStep::Done;
        }
        if self.next < self.running.len() {
            return WaitStep::Poll(self.next);
        }
        let progress = self.made_progress;
        self.next = 0;
        self.made_progress = false;
        if progress {
            WaitStep::Poll(0)
        } else {
            WaitStep::Sleep
        }
    }

    /// The process that was next was polled.
    pub fn polled(&mut self, polled: Polled) -> (outcome: WaitOutcome)
        requires
            old(self).wf(),
            old(self)@.next < old(self)@.running.len(),
        ensures
            final(self).wf(),
            final(self)@ == after_poll(old(self)@, polled),
            is_outcome(outcome, old(self)@.running[old(self)@.next as int], polled),
    {
        match polled {
            Polled::Failed(cause) => {
                let mut text = String::new();
                text.append("Failed to poll distributed shard ");
                let shard: ShardId = self.running[self.next];
                shard.push_shown(&mut text);
                let ghost said = cause@;
                assert(text@ =~= poll_failure_text(shard));
                let error = ConfigError::new(cause).context(text);
                assert(error@ =~= seq![poll_failure_text(shard), said]);
                WaitOutcome::GiveUp(error)
            },
            Polled::Running => {
                assert(self.next < self.running.len());
                self.next = self.next + 1;
                WaitOutcome::Keep
            },
            Polled::Exited { success, status } => {
                let shard: ShardId = self.running[self.next];
                self.made_progress = true;
                self.running.swap_remove(self.next);
                assert(self.running@ =~= swap_removed(old(self).running@, old(self).next as int));
                if success {
                    return WaitOutcome::Remove;
                }
                let mut text = String::new();
                text.append("distributed shard ");
                shard.push_shown(&mut text);
                text.append(" exited with ");
                text.append(status.as_str());
                assert(text@ =~= exit_failure_text(shard, status@));
                WaitOutcome::KillOthers(ConfigError::new(text))
            },
        }
    }
}

/// A process that is gone leaves the list, and no other does.
pub proof fn law_others_stay_watched<T>(list: Seq<T>, i: int)
    requires
        0 <= i < list.len(),
    ensures
        swap_removed(list, i).to_multiset() == list.to_multiset().remove(list[i]),
        swap_removed(list, i).len() == list.len() - 1,
{
    broadcast use vstd::seq_lib::group_to_multiset_ensures;

    let shorter = list.drop_last();
    let last = list.last();
    assert(list =~= shorter.push(last));
    assert(list.to_multiset() =~= shorter.to_multiset().insert(last));
    if i == list.len() - 1 {
        assert(swap_removed(list, i).to_multiset() =~= list.to_multiset().remove(list[i]));
    } else {
        assert(swap_removed(list, i) =~= shorter.update(i, last));
        assert(shorter.update(i, last).to_multiset() =~= shorter.to_multiset().insert(
            last,
        ).remove(shorter[i]));
    }
}

/// The wait is over exactly when every process is gone.
pub proof fn law_wait_ends_when_all_are_gone(watch: WatchModel)
    ensures
        stepped(watch).0 is Done <==> watch.running.len() == 0,
{
}

/// Each step brings the wait forward: polling a process removes it or goes on to the next, and
/// between two polls there is at most one wait.
pub proof fn law_every_process_is_polled_again(watch: WatchModel)
    requires
        watch.running.len() > 0,
        watch.next <= watch.running.len() <= usize::MAX,
    ensures
        stepped(watch).0 is Sleep ==> stepped(stepped(watch).1).0 == WaitStep::Poll(0),
        stepped(watch).0 matches WaitStep::Poll(i) ==> i == stepped(watch).1.next
            && i < watch.running.len(),
{
}

/// Taking one process out of the list leaves every other in its place, but for the last, which
/// stands where the one was.
pub proof fn law_places_are_kept<T>(list: Seq<T>, i: int, j: int)
    requires
        0 <= i < list.len(),
        0 <= j < list.len() - 1,
    ensures
        swap_removed(list, i).len() == list.len() - 1,
        j != i ==> swap_removed(list, i)[j] == list[j],
        j == i ==> swap_removed(list, i)[j] == list[list.len() - 1],
{
}

/// A poll that fails changes nothing, a process that runs is passed over, and one that is gone is
/// taken out of the list, which is progress.
pub proof fn law_polls_change_the_watch(watch: WatchModel, polled: Polled)
    requires
        watch.next < watch.running.len(),
    ensures
        polled is Failed ==> after_poll(watch, polled) == watch,
        polled is Running ==> after_poll(watch, polled).next == watch.next + 1 && after_poll(
            watch,
            polled,
        ).running == watch.running && after_poll(watch, polled).made_progress
            == watch.made_progress,
        polled is Exited ==> after_poll(watch, polled).next == watch.next && after_poll(
            watch,
            polled,
        ).running.to_multiset() == watch.running.to_multiset().remove(
            watch.running[watch.next as int],
        ) && after_poll(watch, polled).running.len() == watch.running.len() - 1 && after_poll(
            watch,
            polled,
        ).made_progress,
{
    if polled is Exited {
        law_others_stay_watched(watch.running, watch.next as int);
    }
}

/// There is a wait exactly where a round is over, processes are left and none was found gone in
/// it. A step takes no process out of the list, and progress is forgotten only where a round
/// begins.
pub proof fn law_waits_come_after_rounds_without_progress(watch: WatchModel)
    requires
        watch.running.len() <= usize::MAX,
    ensures
        stepped(watch).0 is Sleep <==> watch.running.len() > 0 && watch.next >= watch.running.len()
            && !watch.made_progress,
        stepped(watch).0 matches WaitStep::Poll(i) ==> i == (if watch.next < watch.running.len() {
            watch.next as int
        } else {
            0
        }),
        stepped(watch).1.running == watch.running,
        watch.next < watch.running.len() ==> stepped(watch).1 == watch,
        watch.running.len() > 0 && watch.next >= watch.running.len() ==> stepped(watch).1.next == 0
            && !stepped(watch).1.made_progress,
{
}

/// The wait is given up where a process cannot be polled, goes on where it runs or ended well, and
/// ends the other processes where it ended badly.
pub proof fn law_outcomes_of_polls(outcome: WaitOutcome, shard: ShardId, polled: Polled)
    requires
        is_outcome(outcome, shard, polled),
    ensures
        outcome is GiveUp <==> polled is Failed,
        outcome is Keep <==> polled is Running,
        outcome is Remove <==> (polled matches Polled::Exited { success, .. } && success),
        outcome is KillOthers <==> (polled matches Polled::Exited { success, .. } && !success),
{
}

/// What is said to a process that cannot be polled or that ended badly.
pub proof fn law_what_is_said_of_processes(shard: ShardId, status: Seq<char>)
    ensures
        poll_failure_text(shard) == "Failed to poll distributed shard "@ + shard.shown(),
        exit_failure_text(shard, status) == "distributed shard "@ + shard.shown()
            + " exited with "@ + status,
{
}

} // verus!
