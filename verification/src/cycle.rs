//! The course of one cycle: which stage follows which, where a failure ends
//! the cycle, and how requests for an extra cycle are folded into one.

use vstd::prelude::*;

verus! {

/// The stages of a cycle, in the order in which they run.
#[derive(Debug, Clone, Copy, PartialEq, Eq, Structural)]
pub enum Stage {
    /// Fetch and normalise the records of every source.
    Collect,
    /// Write one fragment file per source.
    WriteFragments,
    /// Merge static and generated fragments into the destination file.
    Merge,
    /// Ask the name server to load the destination file again.
    Reload,
}

/// What the loop does once a stage is over.
#[derive(Debug, Clone, Copy, PartialEq, Eq, Structural)]
pub enum NextStep {
    /// Go on with this stage of the same cycle.
    Run(Stage),
    /// The cycle is over: wait for the next one.
    Wait,
}

/// The stage behind `stage`, and `None` behind the last.
pub open spec fn following_stage(stage: Stage) -> Option<Stage> {
    match stage {
        Stage::Collect => Some(Stage::WriteFragments),
        Stage::WriteFragments => Some(Stage::Merge),
        Stage::Merge => Some(Stage::Reload),
        Stage::Reload => None,
    }
}

/// The step behind `stage`: the following stage where `stage` succeeded and
/// is not the last, and the end of the cycle otherwise.
pub open spec fn step_after(stage: Stage, succeeded: bool) -> NextStep {
    match following_stage(stage) {
        Some(next) if succeeded => NextStep::Run(next),
        _ => NextStep::Wait,
    }
}

/// How many stages a cycle still has when it is about to run `stage`.
pub open spec fn stages_left(stage: Stage) -> nat {
    match stage {
        Stage::Collect => 4,
        Stage::WriteFragments => 3,
        Stage::Merge => 2,
        Stage::Reload => 1,
    }
}

/// Decides what follows `stage`.
///
/// A failed stage ends the cycle, so that nothing is merged from fragments
/// that were not written and nothing is loaded that was not merged. A failed
/// reload ends it like a successful one.
pub fn next_step(stage: Stage, succeeded: bool) -> (next: NextStep)
    ensures
        next == step_after(stage, succeeded),
        !succeeded ==> next == NextStep::Wait,
        next matches NextStep::Run(following) ==> stages_left(following) + 1 == stages_left(stage),
{
    if !succeeded {
        return NextStep::Wait;
    }
    match stage {
        Stage::Collect => NextStep::Run(Stage::WriteFragments),
        Stage::WriteFragments => NextStep::Run(Stage::Merge),
        Stage::Merge => NextStep::Run(Stage::Reload),
        Stage::Reload => NextStep::Wait,
    }
}

/// The step that a cycle has come to after the stages with the results
/// `results`, one after the other, starting from `step`.
pub open spec fn step_after_results(step: NextStep, results: Seq<bool>) -> NextStep
    decreases results.len(),
{
    if results.len() == 0 {
        step
    } else {
        match step {
            NextStep::Run(stage) => step_after_results(
                step_after(stage, results[0]),
                results.drop_first(),
            ),
            NextStep::Wait => NextStep::Wait,
        }
    }
}

/// No cycle runs on for ever: whatever the results of its stages, after four
/// of them the loop waits for the next cycle.
pub proof fn lemma_cycle_ends(results: Seq<bool>)
    requires
        results.len() >= 4,
    ensures
        step_after_results(NextStep::Run(Stage::Collect), results) == NextStep::Wait,
{
    reveal_with_fuel(step_after_results, 6);
    let second = results.drop_first();
    let third = second.drop_first();
    let fourth = third.drop_first();
    let rest = fourth.drop_first();
    lemma_waiting_stays(rest);
}

/// A cycle that is over stays over.
pub proof fn lemma_waiting_stays(results: Seq<bool>)
    ensures
        step_after_results(NextStep::Wait, results) == NextStep::Wait,
{
}

/// Once a stage has failed the cycle is over: no later stage runs.
pub proof fn lemma_failure_ends_the_cycle(results: Seq<bool>, failed: int)
    requires
        0 <= failed < results.len(),
        !results[failed],
    ensures
        step_after_results(NextStep::Run(Stage::Collect), results.take(failed + 1))
            == NextStep::Wait,
{
    let upto = results.take(failed + 1);
    if failed >= 4 {
        lemma_cycle_ends(upto);
    } else {
        reveal_with_fuel(step_after_results, 6);
        assert(upto[failed] == results[failed]);
        if failed >= 1 {
            assert(upto.drop_first()[failed - 1] == upto[failed]);
        }
        if failed >= 2 {
            assert(upto.drop_first().drop_first()[failed - 2] == upto[failed]);
        }
        if failed >= 3 {
            assert(upto.drop_first().drop_first().drop_first()[failed - 3] == upto[failed]);
        }
    }
}

/// The requests for a cycle out of turn that came in and were not served yet.
///
/// However many requests arrive while a cycle runs, they are served by one
/// cycle.
#[derive(Debug)]
pub struct RunRequests {
    pending: bool,
}

impl View for RunRequests {
    type V = bool;

    /// Whether a request is waiting to be served.
    closed spec fn view(&self) -> bool {
        self.pending
    }
}

impl RunRequests {
    /// No request is waiting.
    pub fn new() -> (requests: RunRequests)
        ensures
            !requests@,
    {
        RunRequests { pending: false }
    }

    /// Notes a request. A request that is already waiting absorbs it.
    pub fn request(&mut self)
        ensures
            final(self)@,
    {
        self.pending = true;
    }

    /// Serves what is waiting: says whether a cycle is owed, and leaves nothing
    /// waiting.
    pub fn take(&mut self) -> (owed: bool)
        ensures
            owed == old(self)@,
            !final(self)@,
    {
        let owed = self.pending;
        self.pending = false;
        owed
    }
}

} // verus!
