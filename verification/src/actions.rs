use vstd::prelude::*;

use crate::behavior_tree::{Behavior, BehaviorCommand, BehaviorResult};

verus! {

/// A span of time, in whole seconds and nanoseconds.
#[derive(Clone, Copy, Debug, PartialEq, Eq, Structural, Hash)]
pub struct Duration {
    secs: u64,
    nanos: u32,
}

impl Duration {
    /// The span in nanoseconds.
    pub closed spec fn total_nanos(&self) -> int {
        self.secs * 1_000_000_000 + self.nanos
    }

    /// Fewer than a second of nanoseconds are kept next to the seconds.
    pub closed spec fn wf(&self) -> bool {
        self.nanos < 1_000_000_000
    }

    /// A span of `secs` seconds and `nanos` nanoseconds; nanoseconds beyond
    /// a second carry into the seconds, which must not overflow.
    pub fn new(secs: u64, nanos: u32) -> (r: Duration)
        requires
            secs + nanos / 1_000_000_000 <= u64::MAX,
        ensures
            r.wf(),
            r.total_nanos() == secs * 1_000_000_000 + nanos,
    {
        let extra = (nanos / 1_000_000_000) as u64;
        Duration { secs: secs + extra, nanos: nanos % 1_000_000_000 }
    }

    /// The empty span.
    pub fn zero() -> (r: Duration)
        ensures
            r.wf(),
            r.total_nanos() == 0,
    {
        Duration { secs: 0, nanos: 0 }
    }

    pub fn as_secs(&self) -> (r: u64)
        requires
            self.wf(),
        ensures
            r == self.total_nanos() / 1_000_000_000,
    {
        self.secs
    }

    pub fn subsec_nanos(&self) -> (r: u32)
        requires
            self.wf(),
        ensures
            r == self.total_nanos() % 1_000_000_000,
    {
        self.nanos
    }

    /// `self - rhs`, or `None` when `rhs` is longer than `self`.
    pub fn checked_sub(self, rhs: Duration) -> (r: Option<Duration>)
        requires
            self.wf(),
            rhs.wf(),
        ensures
            r is Some <==> rhs.total_nanos() <= self.total_nanos(),
            r matches Some(d) ==> d.wf() && d.total_nanos() == self.total_nanos() - rhs.total_nanos(),
    {
        if self.secs < rhs.secs {
            None
        } else if self.nanos >= rhs.nanos {
            Some(Duration { secs: self.secs - rhs.secs, nanos: self.nanos - rhs.nanos })
        } else if self.secs > rhs.secs {
            Some(Duration { secs: self.secs - rhs.secs - 1, nanos: self.nanos + 1_000_000_000 - rhs.nanos })
        } else {
            None
        }
    }
}

/// Runs the children in order until one fails.
#[derive(Clone, Copy, Debug, PartialEq, Eq, Structural)]
pub struct SequenceUntilFailure {
    pub index: usize,
}

/// Runs the children in order until [`Behavior::child_succeeded`] holds for
/// the one that returned, then succeeds; fails after the last child. As that
/// test holds for a child that failed, the sequence stops at the first
/// failing child.
#[derive(Clone, Copy, Debug, PartialEq, Eq, Structural)]
pub struct SequenceUntilSuccess {
    pub index: usize,
}

/// Succeeds, after running its first child if it has one.
#[derive(Clone, Copy, Debug, PartialEq, Eq, Structural)]
pub struct AlwaysSucceed;

/// Fails, after running its first child if it has one.
#[derive(Clone, Copy, Debug, PartialEq, Eq, Structural)]
pub struct AlwaysFail;

/// Runs its first child, then fails when [`Behavior::child_succeeded`] holds
/// and succeeds otherwise. As that test holds for a child that failed, the
/// child's result is passed through unchanged.
#[derive(Clone, Copy, Debug, PartialEq, Eq, Structural)]
pub struct InvertResult;

/// Waits for `duration`, then succeeds.
#[derive(Clone, Copy, Debug, PartialEq, Eq, Structural)]
pub struct Sleep {
    pub duration: Duration,
}

/// Reports `message`, then succeeds.
#[derive(Clone, Debug)]
pub struct LogMessage {
    pub message: String,
}

/// The behavior is unchanged apart from its command and its action.
pub open spec fn same_position<A, B>(a: &Behavior<A>, b: &Behavior<B>) -> bool {
    &&& a.spec_node_id() == b.spec_node_id()
    &&& a.spec_num_children() == b.spec_num_children()
    &&& a.spec_child_result() == b.spec_child_result()
}

/// One step of [`SequenceUntilFailure`]: fail when the child that returned
/// failed; otherwise run the next child, or succeed after the last one.
pub fn process_sequence_until_failure(behavior: &mut Behavior<SequenceUntilFailure>)
    ensures
        same_position(final(behavior), old(behavior)),
        old(behavior).spec_child_result() == Some(BehaviorResult::Failure) ==> {
            &&& final(behavior).spec_command() == (BehaviorCommand::Exit { result: BehaviorResult::Failure })
            &&& final(behavior).spec_action() == old(behavior).spec_action()
        },
        old(behavior).spec_child_result() != Some(BehaviorResult::Failure) ==> if old(behavior).spec_action().index
            < old(behavior).spec_num_children() {
            &&& final(behavior).spec_command() == (BehaviorCommand::RunChild { index: old(behavior).spec_action().index })
            &&& final(behavior).spec_action().index == old(behavior).spec_action().index + 1
        } else {
            &&& final(behavior).spec_command() == (BehaviorCommand::Exit { result: BehaviorResult::Success })
            &&& final(behavior).spec_action() == old(behavior).spec_action()
        },
{
    if behavior.child_failed() {
        behavior.failure();
        return;
    }
    let index = behavior.action().index;
    if index < behavior.num_children() {
        behavior.run_child(index);
        behavior.action_mut().index = index + 1;
    } else {
        behavior.success();
    }
}

/// One step of [`SequenceUntilSuccess`]: succeed when the child that
/// returned is reported successful by [`Behavior::child_succeeded`];
/// otherwise run the next child, or fail after the last one.
pub fn process_sequence_until_success(behavior: &mut Behavior<SequenceUntilSuccess>)
    ensures
        same_position(final(behavior), old(behavior)),
        old(behavior).spec_child_result() == Some(BehaviorResult::Failure) ==> {
            &&& final(behavior).spec_command() == (BehaviorCommand::Exit { result: BehaviorResult::Success })
            &&& final(behavior).spec_action() == old(behavior).spec_action()
        },
        old(behavior).spec_child_result() != Some(BehaviorResult::Failure) ==> if old(behavior).spec_action().index
            < old(behavior).spec_num_children() {
            &&& final(behavior).spec_command() == (BehaviorCommand::RunChild { index: old(behavior).spec_action().index })
            &&& final(behavior).spec_action().index == old(behavior).spec_action().index + 1
        } else {
            &&& final(behavior).spec_command() == (BehaviorCommand::Exit { result: BehaviorResult::Failure })
            &&& final(behavior).spec_action() == old(behavior).spec_action()
        },
{
    if behavior.child_succeeded() {
        behavior.success();
        return;
    }
    let index = behavior.action().index;
    if index < behavior.num_children() {
        behavior.run_child(index);
        behavior.action_mut().index = index + 1;
    } else {
        behavior.failure();
    }
}

/// One step of [`AlwaysSucceed`]: succeed when there is no child or the
/// child has returned; otherwise run the first child.
pub fn process_always_succeed(behavior: &mut Behavior<AlwaysSucceed>)
    ensures
        same_position(final(behavior), old(behavior)),
        final(behavior).spec_action() == old(behavior).spec_action(),
        final(behavior).spec_command() == (if old(behavior).spec_num_children() == 0 || old(
            behavior,
        ).spec_child_result() is Some {
            BehaviorCommand::Exit { result: BehaviorResult::Success }
        } else {
            BehaviorCommand::RunChild { index: 0 }
        }),
{
    if behavior.num_children() == 0 || behavior.has_returned_from_child() {
        behavior.success();
    } else {
        behavior.run_child(0);
    }
}

/// One step of [`AlwaysFail`]: fail when there is no child or the child has
/// returned; otherwise run the first child.
pub fn process_always_fail(behavior: &mut Behavior<AlwaysFail>)
    ensures
        same_position(final(behavior), old(behavior)),
        final(behavior).spec_action() == old(behavior).spec_action(),
        final(behavior).spec_command() == (if old(behavior).spec_num_children() == 0 || old(
            behavior,
        ).spec_child_result() is Some {
            BehaviorCommand::Exit { result: BehaviorResult::Failure }
        } else {
            BehaviorCommand::RunChild { index: 0 }
        }),
{
    if behavior.num_children() == 0 || behavior.has_returned_from_child() {
        behavior.failure();
    } else {
        behavior.run_child(0);
    }
}

/// One step of [`InvertResult`]: run the first child until it returns, then
/// fail when [`Behavior::child_succeeded`] holds and succeed otherwise.
pub fn process_invert_result(behavior: &mut Behavior<InvertResult>)
    ensures
        same_position(final(behavior), old(behavior)),
        final(behavior).spec_action() == old(behavior).spec_action(),
        final(behavior).spec_command() == (if old(behavior).spec_child_result() is None {
            BehaviorCommand::RunChild { index: 0 }
        } else if old(behavior).spec_child_result() == Some(BehaviorResult::Failure) {
            BehaviorCommand::Exit { result: BehaviorResult::Failure }
        } else {
            BehaviorCommand::Exit { result: BehaviorResult::Success }
        }),
{
    if !behavior.has_returned_from_child() {
        behavior.run_child(0);
        return;
    }
    if behavior.child_succeeded() {
        behavior.failure()
    } else {
        behavior.success()
    }
}

/// One step of [`Sleep`], `delta` after the previous one: the remaining
/// time shrinks by `delta`, and the behavior succeeds once `delta` is longer
/// than what remained.
pub fn process_sleep(behavior: &mut Behavior<Sleep>, delta: Duration)
    requires
        old(behavior).spec_action().duration.wf(),
        delta.wf(),
    ensures
        same_position(final(behavior), old(behavior)),
        final(behavior).spec_action().duration.wf(),
        delta.total_nanos() <= old(behavior).spec_action().duration.total_nanos() ==> {
            &&& final(behavior).spec_action().duration.total_nanos() == old(behavior).spec_action().duration.total_nanos()
                - delta.total_nanos()
            &&& final(behavior).spec_command() == old(behavior).spec_command()
        },
        delta.total_nanos() > old(behavior).spec_action().duration.total_nanos() ==> {
            &&& final(behavior).spec_action() == old(behavior).spec_action()
            &&& final(behavior).spec_command() == (BehaviorCommand::Exit { result: BehaviorResult::Success })
        },
{
    match behavior.action().duration.checked_sub(delta) {
        Some(v) => behavior.action_mut().duration = v,
        None => behavior.success(),
    }
}

/// One step of [`LogMessage`]: the message has been reported, the
/// behavior succeeds.
pub fn process_log_message(behavior: &mut Behavior<LogMessage>)
    ensures
        same_position(final(behavior), old(behavior)),
        final(behavior).spec_action() == old(behavior).spec_action(),
        final(behavior).spec_command() == (BehaviorCommand::Exit { result: BehaviorResult::Success }),
{
    behavior.success();
}

} // verus!
