//! The stepping policy: how many events the simulation may dispatch, and
//! when the run is over. The loop that dispatches events, refreshes
//! snapshots and evaluates breakpoints lives with the caller; these
//! decisions are the part worth pinning down.

use vstd::prelude::*;

verus! {

/// Whether a step budget still allows progress: an exhausted budget blocks,
/// an absent one does not.
pub open spec fn limit_allows(limit: Option<usize>) -> bool {
    match limit {
        None => true,
        Some(v) => v > 0,
    }
}

/// The operator-controlled execution budget: how many events may still be
/// dispatched (`None` means run freely), and how many events to dispatch per
/// rendered frame.
pub struct ExecutionParameters {
    pub limit: Option<usize>,
    pub pre_frame_count: usize,
}

impl ExecutionParameters {
    /// Freshly launched: paused (no budget) and single-event batches.
    pub fn new() -> (r: ExecutionParameters)
        ensures
            r.limit == Some(0usize),
            r.pre_frame_count == 0,
    {
        ExecutionParameters { limit: Some(0), pre_frame_count: 0 }
    }

    /// Whether the simulation may dispatch further events this frame: the
    /// budget allows it and events remain, or the run has not started yet.
    pub fn can_progress(&self, was_started: bool, events_remaining: usize) -> (r: bool)
        ensures
            r == ((limit_allows(self.limit) && events_remaining > 0) || !was_started),
    {
        let allows = match self.limit {
            None => true,
            Some(v) => v > 0,
        };
        (allows && events_remaining > 0) || !was_started
    }

    /// Whether the run is over: it started and either hit its configured
    /// limit or drained its event queue.
    pub fn should_finish(
        &self,
        was_started: bool,
        reached_limit: bool,
        events_remaining: usize,
    ) -> (r: bool)
        ensures
            r == (was_started && (reached_limit || events_remaining == 0)),
    {
        was_started && (reached_limit || events_remaining == 0)
    }

    /// Account for dispatched events: the budget never goes below zero.
    pub fn consume(&mut self, steps: usize)
        ensures
            final(self).pre_frame_count == old(self).pre_frame_count,
            final(self).limit == match old(self).limit {
                None => None::<usize>,
                Some(v) => Some(if v >= steps {
                    (v - steps) as usize
                } else {
                    0usize
                }),
            },
    {
        self.limit = match self.limit {
            None => None,
            Some(v) => Some(
                if v >= steps {
                    v - steps
                } else {
                    0
                },
            ),
        };
    }

    /// Halt further automatic stepping.
    pub fn stop(&mut self)
        ensures
            final(self).limit == Some(0usize),
            final(self).pre_frame_count == old(self).pre_frame_count,
    {
        self.limit = Some(0);
    }

    /// Run freely, with no budget.
    pub fn run_free(&mut self)
        ensures
            final(self).limit == None::<usize>,
            final(self).pre_frame_count == old(self).pre_frame_count,
    {
        self.limit = None;
    }

    /// Allow exactly one more event.
    pub fn single_step(&mut self)
        ensures
            final(self).limit == Some(1usize),
            final(self).pre_frame_count == old(self).pre_frame_count,
    {
        self.limit = Some(1);
    }

    /// Set how many events one frame dispatches.
    pub fn set_batch(&mut self, count: usize)
        ensures
            final(self).pre_frame_count == count,
            final(self).limit == old(self).limit,
    {
        self.pre_frame_count = count;
    }
}

} // verus!
