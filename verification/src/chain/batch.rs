//! Handing the events of one read to a session.
//!
//! The events go to the session one after the other, and recovery is finished once
//! it took all of them. The first failure ends this: later events are not handed
//! on, recovery is not finished, and the submitter learns nothing of the read.

use crate::chain::scan::ChainEventBatch;
use crate::chain::types::ChainEvent;
use crate::dkg::error::DkgError;
use vstd::prelude::*;

verus! {

/// How far the session has come with a batch.
#[derive(Clone, Copy)]
pub enum BatchStage {
    /// It took this many events and is handed the next one.
    Events(usize),
    /// It took all events and finishes its recovery.
    Recovering,
    /// It took the batch.
    Taken,
    Failed(DkgError),
}

/// What a session is to do for a batch.
#[derive(Debug)]
pub enum BatchTask {
    HandleEvent(ChainEvent),
    FinishRecovery,
    /// There is nothing more to do for the session.
    End,
}

/// The stage once a session took `count` of `total` events.
pub open spec fn stage_after(count: nat, total: nat, recovers: bool) -> BatchStage {
    if count < total {
        BatchStage::Events(count as usize)
    } else if recovers {
        BatchStage::Recovering
    } else {
        BatchStage::Taken
    }
}

/// The stage after the session did what it was asked for, or failed to.
pub open spec fn next_stage(stage: BatchStage, total: nat, recovers: bool, done: bool) -> BatchStage {
    match stage {
        BatchStage::Events(count) => if done {
            stage_after((count + 1) as nat, total, recovers)
        } else {
            BatchStage::Failed(DkgError::Operation { operation: "handle DKG chain event" })
        },
        BatchStage::Recovering => if done {
            BatchStage::Taken
        } else {
            BatchStage::Failed(DkgError::Operation { operation: "finish DKG chain recovery" })
        },
        ended => ended,
    }
}

/// The stage after these outcomes.
pub open spec fn stage_of(total: nat, recovers: bool, outcomes: Seq<bool>) -> BatchStage
    decreases outcomes.len(),
{
    if outcomes.len() == 0 {
        stage_after(0, total, recovers)
    } else {
        next_stage(
            stage_of(total, recovers, outcomes.drop_last()),
            total,
            recovers,
            outcomes.last(),
        )
    }
}

/// A batch on its way into a session.
pub struct BatchRun {
    batch: ChainEventBatch,
    stage: BatchStage,
}

impl BatchRun {
    pub closed spec fn batch(self) -> ChainEventBatch {
        self.batch
    }

    pub closed spec fn stage(self) -> BatchStage {
        self.stage
    }

    pub open spec fn wf(self) -> bool {
        self.stage() matches BatchStage::Events(count) ==> count < self.batch().events@.len()
    }

    /// The session is done with the batch, or failed.
    pub open spec fn ended(self) -> bool {
        self.stage() is Taken || self.stage() is Failed
    }

    pub fn new(batch: ChainEventBatch) -> (run: Self)
        ensures
            run.wf(),
            run.batch() == batch,
            run.stage() == stage_after(0, batch.events@.len(), batch.recovery_complete_after),
    {
        let stage: BatchStage = if batch.events.len() > 0 {
            BatchStage::Events(0)
        } else if batch.recovery_complete_after {
            BatchStage::Recovering
        } else {
            BatchStage::Taken
        };
        BatchRun { batch, stage }
    }

    /// What the session is to do next.
    pub fn task(&self) -> (task: BatchTask)
        requires
            self.wf(),
        ensures
            match self.stage() {
                BatchStage::Events(count) => task matches BatchTask::HandleEvent(event) && event@
                    == self.batch().events@[count as int]@,
                BatchStage::Recovering => task is FinishRecovery,
                _ => task is End,
            },
    {
        match self.stage {
            BatchStage::Events(count) => BatchTask::HandleEvent(self.batch.events[count].duplicate()),
            BatchStage::Recovering => BatchTask::FinishRecovery,
            _ => BatchTask::End,
        }
    }

    /// Takes whether the session did it.
    pub fn did(&mut self, done: bool)
        requires
            old(self).wf(),
        ensures
            final(self).wf(),
            final(self).batch() == old(self).batch(),
            final(self).stage() == next_stage(
                old(self).stage(),
                old(self).batch().events@.len(),
                old(self).batch().recovery_complete_after,
                done,
            ),
    {
        let total: usize = self.batch.events.len();
        self.stage =
        match self.stage {
            BatchStage::Events(count) => if !done {
                BatchStage::Failed(DkgError::operation("handle DKG chain event"))
            } else if count + 1 < total {
                BatchStage::Events(count + 1)
            } else if self.batch.recovery_complete_after {
                BatchStage::Recovering
            } else {
                BatchStage::Taken
            },
            BatchStage::Recovering => if done {
                BatchStage::Taken
            } else {
                BatchStage::Failed(DkgError::operation("finish DKG chain recovery"))
            },
            ended => ended,
        };
    }

    /// The batch, if the session took it, or why it did not.
    pub fn outcome(&self) -> (outcome: Result<&ChainEventBatch, DkgError>)
        requires
            self.ended(),
        ensures
            match self.stage() {
                BatchStage::Failed(error) => outcome == Err::<&ChainEventBatch, _>(error),
                _ => outcome is Ok && *outcome->Ok_0 == self.batch(),
            },
    {
        match self.stage {
            BatchStage::Failed(error) => Err(error),
            _ => Ok(&self.batch),
        }
    }
}

/// Whether the first `count` outcomes are all good.
pub open spec fn all_done(outcomes: Seq<bool>, count: nat) -> bool {
    count <= outcomes.len() && forall|i: int| 0 <= i < count ==> #[trigger] outcomes[i]
}

proof fn lemma_stage(total: nat, recovers: bool, outcomes: Seq<bool>)
    requires
        total <= usize::MAX,
    ensures
        match stage_of(total, recovers, outcomes) {
            BatchStage::Events(count) => count == outcomes.len() && count < total && all_done(
                outcomes,
                count as nat,
            ),
            BatchStage::Recovering => recovers && outcomes.len() == total && all_done(outcomes, total),
            BatchStage::Taken => all_done(
                outcomes,
                (if recovers {
                    total + 1
                } else {
                    total
                }),
            ),
            BatchStage::Failed(error) => exists|i: int|
                0 <= i < outcomes.len() && !#[trigger] outcomes[i] && all_done(outcomes, i as nat) && error
                    == (DkgError::Operation {
                    operation: if i < total {
                        "handle DKG chain event"
                    } else {
                        "finish DKG chain recovery"
                    },
                }) && i < (if recovers {
                    total + 1
                } else {
                    total
                }),
        },
    decreases outcomes.len(),
{
    if outcomes.len() > 0 {
        let earlier = outcomes.drop_last();
        lemma_stage(total, recovers, earlier);
        match stage_of(total, recovers, earlier) {
            BatchStage::Events(count) => {
                assert forall|i: int| 0 <= i < count implies #[trigger] outcomes[i] by {
                    assert(earlier[i]);
                }
                if !outcomes.last() {
                    assert(!outcomes[count as int]);
                }
            },
            BatchStage::Recovering => {
                assert forall|i: int| 0 <= i < total implies #[trigger] outcomes[i] by {
                    assert(earlier[i]);
                }
                if !outcomes.last() {
                    assert(!outcomes[total as int]);
                }
            },
            BatchStage::Taken => {
                assert forall|i: int|
                    0 <= i < (if recovers {
                        total + 1
                    } else {
                        total
                    }) implies #[trigger] outcomes[i] by {
                    assert(earlier[i]);
                }
            },
            BatchStage::Failed(error) => {
                let i = choose|i: int|
                    0 <= i < earlier.len() && !#[trigger] earlier[i] && all_done(earlier, i as nat)
                        && error == (DkgError::Operation {
                        operation: if i < total {
                            "handle DKG chain event"
                        } else {
                            "finish DKG chain recovery"
                        },
                    }) && i < (if recovers {
                        total + 1
                    } else {
                        total
                    });
                assert(!outcomes[i]);
                assert forall|j: int| 0 <= j < i implies #[trigger] outcomes[j] by {
                    assert(earlier[j]);
                }
            },
        }
    }
}

/// The first event that a session fails to take ends a batch, whatever comes
/// later: the batch is not taken, and recovery is never finished for it.
pub proof fn law_failed_event_ends_the_batch(
    total: nat,
    recovers: bool,
    outcomes: Seq<bool>,
    failed: int,
)
    requires
        total <= usize::MAX,
        0 <= failed < outcomes.len(),
        failed < total,
        all_done(outcomes, failed as nat),
        !outcomes[failed],
    ensures
        stage_of(total, recovers, outcomes) == BatchStage::Failed(
            DkgError::Operation { operation: "handle DKG chain event" },
        ),
{
    lemma_stage(total, recovers, outcomes);
    assert(!all_done(outcomes, outcomes.len()));
    match stage_of(total, recovers, outcomes) {
        BatchStage::Failed(error) => {
            let i = choose|i: int|
                0 <= i < outcomes.len() && !#[trigger] outcomes[i] && all_done(outcomes, i as nat) && error
                    == (DkgError::Operation {
                    operation: if i < total {
                        "handle DKG chain event"
                    } else {
                        "finish DKG chain recovery"
                    },
                }) && i < (if recovers {
                    total + 1
                } else {
                    total
                });
            if i < failed {
                assert(outcomes[i]);
            } else if failed < i {
                assert(outcomes[failed]);
            }
        },
        _ => {
            assert(outcomes[failed]);
        },
    }
}

/// A batch is taken only once every event was, in order, and recovery is finished
/// only after that.
pub proof fn law_taken_batch_was_taken_whole(total: nat, recovers: bool, outcomes: Seq<bool>)
    requires
        total <= usize::MAX,
        stage_of(total, recovers, outcomes) is Taken || stage_of(total, recovers, outcomes) is Recovering,
    ensures
        all_done(outcomes, total),
        stage_of(total, recovers, outcomes) is Taken && recovers ==> all_done(outcomes, total + 1),
{
    lemma_stage(total, recovers, outcomes);
}

/// Events are handed on in their order: after as many as were taken comes the next
/// one, then the end of recovery where the batch completes it, and then nothing.
pub proof fn law_events_are_handed_on_in_order(total: nat, recovers: bool, outcomes: Seq<bool>)
    requires
        total <= usize::MAX,
        all_done(outcomes, outcomes.len()),
    ensures
        outcomes.len() < total ==> stage_of(total, recovers, outcomes) == BatchStage::Events(
            outcomes.len() as usize,
        ),
        outcomes.len() == total && recovers ==> stage_of(total, recovers, outcomes) is Recovering,
        outcomes.len() == total && !recovers ==> stage_of(total, recovers, outcomes) is Taken,
        outcomes.len() > total ==> stage_of(total, recovers, outcomes) is Taken,
    decreases outcomes.len(),
{
    if outcomes.len() > 0 {
        let fewer = outcomes.drop_last();
        assert(outcomes[outcomes.len() - 1]);
        assert forall|i: int| 0 <= i < fewer.len() implies #[trigger] fewer[i] by {
            assert(outcomes[i]);
        }
        law_events_are_handed_on_in_order(total, recovers, fewer);
    }
}

/// A recovery that cannot be finished fails the batch.
pub proof fn law_failed_recovery_ends_the_batch(total: nat, recovers: bool)
    ensures
        next_stage(BatchStage::Recovering, total, recovers, false) is Failed,
        next_stage(BatchStage::Recovering, total, recovers, true) is Taken,
        next_stage(BatchStage::Taken, total, recovers, false) is Taken,
{
}

} // verus!
