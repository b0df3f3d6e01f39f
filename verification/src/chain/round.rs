//! One round of attempts to submit.
//!
//! A round goes over some submissions. A submission whose nonce is used up is
//! retired and the round goes on with the next one; after any other outcome the
//! round is over. So a round sends at most one transaction.

use crate::chain::submitter::{
    call_tx_id, lemma_settled_stays, prepared_numbers, refreshes, signs, AttemptPlan, RefreshOutcome, TxKey,
    TxSubmissionError, TxSubmissions, TxSubmitter, TxSubmitterView,
};
use crate::chain::tx::{refresh_decision, ChainTxId, ContractCall, DkgTransactionContext, PreparedTx};
use crate::chain::types::{ChainCall, ChainEventView};
use crate::dkg::error::DkgError;
use crate::dkg::ids::{Epoch, SeqNum};
use vstd::prelude::*;

verus! {

/// How far a round has come.
#[derive(Clone, Copy)]
pub enum RoundStage {
    /// The next submission is to be selected.
    Selecting,
    /// The context of a submission is being read at a block.
    Reading(TxKey, SeqNum),
    /// The call of a submission is being encoded, to be signed with a nonce, the
    /// largest fee, and the base fee it was computed from.
    Encoding(TxKey, u64, u128, u64),
    Over,
}

/// A round of attempts.
pub struct SubmissionRound {
    keys: Vec<TxKey>,
    stage: RoundStage,
}

/// The model of a round.
#[verifier::ext_equal]
pub struct RoundView {
    /// The submissions that it goes over.
    pub keys: Seq<TxKey>,
    pub stage: RoundStage,
}

impl View for SubmissionRound {
    type V = RoundView;

    closed spec fn view(&self) -> RoundView {
        RoundView { keys: self.keys@, stage: self.stage }
    }
}

/// What is to be done for a round.
#[derive(Debug)]
pub enum RoundTask {
    /// Nothing more: the round is over.
    Over,
    /// The context of a submission is to be read at a block.
    ReadContext { key: TxKey, block: SeqNum },
    /// A submission was retired; the round goes on.
    Retired(ChainCall),
    /// A call is to be encoded.
    Encode(ContractCall),
    /// A transaction is to be sent; the round is over.
    Send(PreparedTx),
    /// A submission has to wait; the round is over.
    Failed(TxSubmissionError),
}

/// A round and the submitter it works on.
#[verifier::ext_equal]
pub struct RoundState {
    pub round: RoundView,
    pub submitter: TxSubmitterView,
}

impl RoundView {
    /// The round at another stage.
    pub open spec fn at(self, stage: RoundStage) -> RoundView {
        RoundView { stage, ..self }
    }
}

impl RoundState {
    /// The submission that the round works on is the selected one.
    pub open spec fn fits(self) -> bool {
        match self.round.stage {
            RoundStage::Reading(key, _) => self.submitter.submissions.selected(self.round.keys)
                == Some(key),
            RoundStage::Encoding(key, ..) => self.submitter.submissions.selected(self.round.keys)
                == Some(key),
            _ => true,
        }
    }
}

/// What a round does that selects a submission, or is over.
pub open spec fn round_selects(before: RoundState, after: RoundState, task: RoundTask) -> bool {
    &&& after.submitter == before.submitter
    &&& if before.round.stage is Over {
        after.round == before.round && task is Over
    } else {
        match before.submitter.submissions.selected(before.round.keys) {
            None => after.round == before.round.at(RoundStage::Over) && task is Over,
            Some(key) => if before.submitter.has_context_block(key) {
                &&& task matches RoundTask::ReadContext { key: read, block } && read == key
                    && before.submitter.is_context_block(key, block) && after.round
                    == before.round.at(RoundStage::Reading(key, block))
            } else {
                &&& after.round == before.round.at(RoundStage::Over)
                &&& task == RoundTask::Failed(TxSubmissionError::MissingContext)
            },
        }
    }
}

/// What a round does with the context that was read: it goes on with the next
/// submission only where this one is retired.
pub open spec fn round_reads(
    before: RoundState,
    after: RoundState,
    context: Result<DkgTransactionContext, DkgError>,
    task: RoundTask,
) -> bool {
    before.round.stage matches RoundStage::Reading(key, block) && exists|outcome: RefreshOutcome|
        #[trigger] refreshes(before.submitter, after.submitter, key, block, context, outcome)
            && match outcome {
            RefreshOutcome::Failed(error) => {
                &&& task == RoundTask::Failed(error)
                &&& after.round == before.round.at(RoundStage::Over)
            },
            RefreshOutcome::Retired(call) => {
                &&& task == RoundTask::Retired(call)
                &&& after.round == before.round.at(RoundStage::Selecting)
            },
            RefreshOutcome::Send(prepared) => {
                &&& task == RoundTask::Send(prepared)
                &&& after.round == before.round.at(RoundStage::Over)
            },
            RefreshOutcome::Prepare { call, nonce, max_fee_per_gas, base_fee_per_gas } => {
                &&& task == RoundTask::Encode(call)
                &&& after.round == before.round.at(
                    RoundStage::Encoding(key, nonce, max_fee_per_gas, base_fee_per_gas),
                )
            },
        }
}

/// What a round does with an encoded call: it is signed with the numbers that were
/// decided on.
pub open spec fn round_signs(
    before: RoundState,
    after: RoundState,
    input: Seq<u8>,
    task: RoundTask,
) -> bool {
    before.round.stage matches RoundStage::Encoding(key, nonce, max_fee_per_gas, base_fee_per_gas)
        && after.round == before.round.at(RoundStage::Over) && exists|result: Result<PreparedTx, DkgError>|
        #[trigger] signs(
            before.submitter,
            after.submitter,
            key,
            nonce,
            max_fee_per_gas,
            base_fee_per_gas,
            input,
            result,
        ) && match result {
            Ok(prepared) => task == RoundTask::Send(prepared),
            Err(error) => task == RoundTask::Failed(TxSubmissionError::Operation(error)),
        }
}

/// What a round does in one step, whatever it is handed.
pub open spec fn round_steps(before: RoundState, after: RoundState, task: RoundTask) -> bool {
    match before.round.stage {
        RoundStage::Reading(..) => exists|context: Result<DkgTransactionContext, DkgError>| #[trigger]
            round_reads(before, after, context, task),
        RoundStage::Encoding(..) => exists|input: Seq<u8>| #[trigger]
            round_signs(before, after, input, task),
        _ => round_selects(before, after, task),
    }
}

proof fn lemma_first_pending(submissions: TxSubmissions, keys: Seq<TxKey>)
    ensures
        submissions.first_pending(keys) matches Some(key) ==> keys.contains(key)
            && submissions.pending.contains_key(key),
    decreases keys.len(),
{
    if keys.len() > 0 && !submissions.pending.contains_key(keys[0]) {
        lemma_first_pending(submissions, keys.skip(1));
        if submissions.first_pending(keys.skip(1)) is Some {
            let key = submissions.first_pending(keys.skip(1))->Some_0;
            let i = choose|i: int| 0 <= i < keys.skip(1).len() && keys.skip(1)[i] == key;
            assert(keys[i + 1] == key);
        }
    }
}

/// A selected submission is one of those to go over, is pending, and is the
/// prepared one where there is one.
proof fn lemma_selected(submissions: TxSubmissions, keys: Seq<TxKey>)
    requires
        submissions.consistent(),
    ensures
        submissions.selected(keys) matches Some(key) ==> {
            &&& keys.contains(key)
            &&& submissions.pending.contains_key(key)
            &&& submissions.prepared is Some ==> submissions.prepared->Some_0.0 == key
        },
{
    lemma_first_pending(submissions, keys);
}

impl SubmissionRound {
    pub fn new(keys: Vec<TxKey>) -> (round: Self)
        ensures
            round@ == (RoundView { keys: keys@, stage: RoundStage::Selecting }),
    {
        SubmissionRound { keys, stage: RoundStage::Selecting }
    }

    /// The round and its submitter.
    pub open spec fn with(self, submitter: TxSubmitter) -> RoundState {
        RoundState { round: self@, submitter: submitter@ }
    }

    /// Selects the next submission, unless the round is over.
    pub fn next(&mut self, submitter: &TxSubmitter) -> (task: RoundTask)
        requires
            submitter.wf(),
            old(self)@.stage is Selecting || old(self)@.stage is Over,
        ensures
            round_selects(old(self).with(*submitter), final(self).with(*submitter), task),
            final(self).with(*submitter).fits(),
    {
        match self.stage {
            RoundStage::Over => RoundTask::Over,
            _ => match submitter.next_attempt(&self.keys) {
                AttemptPlan::Idle => {
                    self.stage = RoundStage::Over;
                    RoundTask::Over
                },
                AttemptPlan::MissingContext { .. } => {
                    self.stage = RoundStage::Over;
                    RoundTask::Failed(TxSubmissionError::MissingContext)
                },
                AttemptPlan::ReadContext { key, block } => {
                    self.stage = RoundStage::Reading(key, block);
                    RoundTask::ReadContext { key, block }
                },
            },
        }
    }

    /// Takes the context of the selected submission, or why it could not be read.
    pub fn context_read(
        &mut self,
        submitter: &mut TxSubmitter,
        context: Result<DkgTransactionContext, DkgError>,
    ) -> (task: RoundTask)
        requires
            old(submitter).wf(),
            old(self)@.stage is Reading,
            old(self).with(*old(submitter)).fits(),
        ensures
            final(submitter).wf(),
            round_reads(
                old(self).with(*old(submitter)),
                final(self).with(*final(submitter)),
                context,
                task,
            ),
            final(self).with(*final(submitter)).fits(),
    {
        let ghost before = submitter@;
        let ghost started = self@;
        let (key, block): (TxKey, SeqNum) = match self.stage {
            RoundStage::Reading(key, block) => (key, block),
            _ => {
                return RoundTask::Over;
            },
        };
        proof {
            lemma_selected(before.submissions, started.keys);
        }
        let outcome: RefreshOutcome = submitter.refresh(key, block, context);
        assert(refreshes(before, submitter@, key, block, context, outcome));
        match outcome {
            RefreshOutcome::Failed(error) => {
                self.stage = RoundStage::Over;
                RoundTask::Failed(error)
            },
            RefreshOutcome::Retired(call) => {
                self.stage = RoundStage::Selecting;
                RoundTask::Retired(call)
            },
            RefreshOutcome::Send(prepared) => {
                self.stage = RoundStage::Over;
                RoundTask::Send(prepared)
            },
            RefreshOutcome::Prepare { call, nonce, max_fee_per_gas, base_fee_per_gas } => {
                self.stage = RoundStage::Encoding(key, nonce, max_fee_per_gas, base_fee_per_gas);
                RoundTask::Encode(call)
            },
        }
    }

    /// Takes the encoded call of the selected submission.
    pub fn encoded(&mut self, submitter: &mut TxSubmitter, input: Vec<u8>) -> (task: RoundTask)
        requires
            old(submitter).wf(),
            old(self)@.stage is Encoding,
            old(self).with(*old(submitter)).fits(),
        ensures
            final(submitter).wf(),
            round_signs(
                old(self).with(*old(submitter)),
                final(self).with(*final(submitter)),
                input@,
                task,
            ),
    {
        let ghost before = submitter@;
        let (key, nonce, max_fee_per_gas, base_fee_per_gas): (TxKey, u64, u128, u64) = match self.stage {
            RoundStage::Encoding(key, nonce, max_fee_per_gas, base_fee_per_gas) => (
                key,
                nonce,
                max_fee_per_gas,
                base_fee_per_gas,
            ),
            _ => {
                return RoundTask::Over;
            },
        };
        proof {
            lemma_selected(before.submissions, self@.keys);
        }
        self.stage = RoundStage::Over;
        let ghost bytes = input@;
        let result: Result<PreparedTx, DkgError> = submitter.prepare(
            key,
            nonce,
            max_fee_per_gas,
            base_fee_per_gas,
            input,
        );
        assert(signs(
            before,
            submitter@,
            key,
            nonce,
            max_fee_per_gas,
            base_fee_per_gas,
            bytes,
            result,
        ));
        match result {
            Ok(prepared) => RoundTask::Send(prepared),
            Err(error) => RoundTask::Failed(TxSubmissionError::Operation(error)),
        }
    }
}

/// Whether `states` and `tasks` are those of a round, step after step.
pub open spec fn is_round(states: Seq<RoundState>, tasks: Seq<RoundTask>) -> bool {
    &&& states.len() == tasks.len() + 1
    &&& states[0].round.stage is Selecting
    &&& states[0].submitter.submissions.consistent()
    &&& forall|i: int|
        0 <= i < tasks.len() ==> round_steps(states[i], states[i + 1], #[trigger] tasks[i])
}

/// Whether a submission is left as it is.
pub open spec fn same_submission(before: TxSubmissions, after: TxSubmissions, key: TxKey) -> bool {
    &&& after.pending.contains_key(key) <==> before.pending.contains_key(key)
    &&& before.pending.contains_key(key) ==> after.pending[key] == before.pending[key]
    &&& after.finalized.contains(key) <==> before.finalized.contains(key)
}

proof fn lemma_round_step(before: RoundState, after: RoundState, task: RoundTask)
    requires
        before.submitter.submissions.consistent(),
        before.fits(),
        round_steps(before, after, task),
    ensures
        after.submitter.submissions.consistent(),
        after.fits(),
        after.round.keys == before.round.keys,
        forall|key: TxKey| #[trigger] before.submitter.submissions.finalized.contains(key)
            ==> after.submitter.submissions.finalized.contains(key),
        forall|key: TxKey| !before.round.keys.contains(key) ==> #[trigger] same_submission(
            before.submitter.submissions,
            after.submitter.submissions,
            key,
        ),
        task matches RoundTask::Send(prepared) ==> {
            &&& after.submitter.submissions.prepared matches Some((key, kept)) && kept@ == prepared@
                && before.round.keys.contains(key) && after.submitter.submissions.pending.contains_key(key)
        },
        task is Send || task is Failed || task is Over ==> after.round.stage is Over,
        task is Retired <==> before.submitter.submissions.pending != after.submitter.submissions.pending,
        task is Retired ==> exists|key: TxKey|
            before.round.keys.contains(key) && #[trigger] before.submitter.submissions.pending.contains_key(
                key,
            ) && task == RoundTask::Retired(before.submitter.submissions.pending[key])
                && after.submitter.submissions == before.submitter.submissions.settled(key),
        after.submitter == (TxSubmitterView {
            submissions: after.submitter.submissions,
            ..before.submitter
        }),
{
    let submissions = before.submitter.submissions;
    lemma_selected(submissions, before.round.keys);
    match before.round.stage {
        RoundStage::Reading(key, block) => {
            let context = choose|context: Result<DkgTransactionContext, DkgError>| #[trigger]
                round_reads(before, after, context, task);
            if task is Retired {
                assert(submissions.pending.contains_key(key));
                assert(!after.submitter.submissions.pending.contains_key(key));
            }
            if task is Send {
                assert(refresh_decision(
                    prepared_numbers(submissions),
                    context->Ok_0,
                    before.submitter.config.max_priority_fee_per_gas,
                ) is Keep);
            }
        },
        RoundStage::Encoding(..) => {
            let input = choose|input: Seq<u8>| #[trigger] round_signs(before, after, input, task);
        },
        _ => {},
    }
}

proof fn lemma_round_states(states: Seq<RoundState>, tasks: Seq<RoundTask>, i: int)
    requires
        is_round(states, tasks),
        0 <= i < states.len(),
    ensures
        states[i].submitter.submissions.consistent(),
        states[i].fits(),
        states[i].round.keys == states[0].round.keys,
        forall|key: TxKey| #[trigger] states[0].submitter.submissions.finalized.contains(key)
            ==> states[i].submitter.submissions.finalized.contains(key),
        forall|key: TxKey| !states[0].round.keys.contains(key) ==> #[trigger] same_submission(
            states[0].submitter.submissions,
            states[i].submitter.submissions,
            key,
        ),
    decreases i,
{
    if i > 0 {
        lemma_round_states(states, tasks, i - 1);
        let task = tasks[i - 1];
        assert(round_steps(states[i - 1], states[i - 1 + 1], task));
        lemma_round_step(states[i - 1], states[i], task);
        assert forall|key: TxKey| !states[0].round.keys.contains(key) implies #[trigger] same_submission(
            states[0].submitter.submissions,
            states[i].submitter.submissions,
            key,
        ) by {
            assert(same_submission(
                states[0].submitter.submissions,
                states[i - 1].submitter.submissions,
                key,
            ));
            assert(same_submission(
                states[i - 1].submitter.submissions,
                states[i].submitter.submissions,
                key,
            ));
        }
    }
}

proof fn lemma_over_stays_over(states: Seq<RoundState>, tasks: Seq<RoundTask>, i: int, j: int)
    requires
        is_round(states, tasks),
        0 <= i <= j < states.len(),
        states[i].round.stage is Over,
    ensures
        states[j].round.stage is Over,
        j < tasks.len() ==> tasks[j] is Over,
    decreases j,
{
    if i < j {
        lemma_over_stays_over(states, tasks, i, j - 1);
        assert(round_steps(states[j - 1], states[j - 1 + 1], tasks[j - 1]));
    }
    if j < tasks.len() {
        assert(round_steps(states[j], states[j + 1], tasks[j]));
    }
}

/// A round sends at most one transaction: once it sent one, or a submission has to
/// wait, nothing more is done.
pub proof fn law_round_sends_at_most_once(
    states: Seq<RoundState>,
    tasks: Seq<RoundTask>,
    i: int,
    j: int,
)
    requires
        is_round(states, tasks),
        0 <= i < j < tasks.len(),
        tasks[i] is Send || tasks[i] is Failed || tasks[i] is Over,
    ensures
        tasks[j] is Over,
{
    lemma_round_states(states, tasks, i);
    lemma_round_step(states[i], states[i + 1], tasks[i]);
    lemma_over_stays_over(states, tasks, i + 1, j);
}

/// A round goes on after a retired submission: it selects the next one.
pub proof fn law_round_goes_on_after_retirement(states: Seq<RoundState>, tasks: Seq<RoundTask>, i: int)
    requires
        is_round(states, tasks),
        0 <= i < tasks.len(),
        tasks[i] is Retired,
    ensures
        states[i + 1].round.stage is Selecting,
{
    lemma_round_states(states, tasks, i);
    assert(round_steps(states[i], states[i + 1], tasks[i]));
    assert(states[i].round.stage is Reading);
}

/// A round leaves every submission alone that it does not go over, and what it
/// sends is the prepared transaction of one that it does go over.
pub proof fn law_round_keeps_to_its_submissions(
    states: Seq<RoundState>,
    tasks: Seq<RoundTask>,
    i: int,
    key: TxKey,
)
    requires
        is_round(states, tasks),
        0 <= i < tasks.len(),
    ensures
        !states[0].round.keys.contains(key) ==> same_submission(
            states[0].submitter.submissions,
            states[i + 1].submitter.submissions,
            key,
        ),
        tasks[i] matches RoundTask::Send(prepared) ==> {
            &&& states[i + 1].submitter.submissions.prepared matches Some((sent, kept)) && kept@
                == prepared@ && states[0].round.keys.contains(sent)
        },
        tasks[i] is Retired ==> exists|retired: TxKey|
            states[0].round.keys.contains(retired)
                && #[trigger] states[i].submitter.submissions.pending.contains_key(retired)
                && !states[i + 1].submitter.submissions.pending.contains_key(retired)
                && states[i + 1].submitter.submissions.finalized.contains(retired),
{
    lemma_round_states(states, tasks, i);
    lemma_round_states(states, tasks, i + 1);
    lemma_round_step(states[i], states[i + 1], tasks[i]);
}

/// A round attempts only what is pending when it begins, and makes nothing pending.
pub proof fn law_round_attempts_what_is_pending(states: Seq<RoundState>, tasks: Seq<RoundTask>, i: int)
    requires
        is_round(states, tasks),
        0 <= i < tasks.len(),
    ensures
        states[i + 1].submitter.submissions.consistent(),
        states[i + 1].submitter == (TxSubmitterView {
            submissions: states[i + 1].submitter.submissions,
            ..states[0].submitter
        }),
        forall|key: TxKey| #[trigger] states[i + 1].submitter.submissions.pending.contains_key(key)
            ==> states[0].submitter.submissions.pending.contains_key(key),
        tasks[i] matches RoundTask::ReadContext { key, .. }
            ==> states[0].submitter.submissions.pending.contains_key(key),
        tasks[i] is Send ==> (states[i + 1].submitter.submissions.prepared matches Some((key, _))
            && states[0].submitter.submissions.pending.contains_key(key)),
    decreases i,
{
    lemma_round_states(states, tasks, i);
    assert(round_steps(states[i], states[i + 1], tasks[i]));
    lemma_round_step(states[i], states[i + 1], tasks[i]);
    lemma_selected(states[i].submitter.submissions, states[i].round.keys);
    if i > 0 {
        law_round_attempts_what_is_pending(states, tasks, i - 1);
    }
}

/// How many steps a round can still take before it is over.
pub open spec fn steps_left(state: RoundState) -> nat {
    2 * state.submitter.submissions.pending.dom().len() + match state.round.stage {
        RoundStage::Selecting => 3nat,
        RoundStage::Reading(..) => 2,
        RoundStage::Encoding(..) => 1,
        RoundStage::Over => 0,
    }
}

/// A round ends: there are at most two steps for each pending submission, and
/// three more.
pub proof fn law_round_ends(submitter: TxSubmitter, states: Seq<RoundState>, tasks: Seq<RoundTask>)
    requires
        submitter.wf(),
        is_round(states, tasks),
        states[0].submitter == submitter@,
        forall|i: int| 0 <= i < tasks.len() ==> !(#[trigger] tasks[i] is Over),
    ensures
        tasks.len() <= 2 * states[0].submitter.submissions.pending.dom().len() + 3,
{
    submitter.lemma_pending_is_finite();
    lemma_steps_left(states, tasks, tasks.len() as int);
}

proof fn lemma_steps_left(states: Seq<RoundState>, tasks: Seq<RoundTask>, i: int)
    requires
        is_round(states, tasks),
        states[0].submitter.submissions.pending.dom().finite(),
        forall|i: int| 0 <= i < tasks.len() ==> !(#[trigger] tasks[i] is Over),
        0 <= i <= tasks.len(),
    ensures
        states[i].submitter.submissions.pending.dom().finite(),
        steps_left(states[i]) + i <= steps_left(states[0]),
    decreases i,
{
    if i > 0 {
        lemma_steps_left(states, tasks, i - 1);
        lemma_round_states(states, tasks, i - 1);
        let before = states[i - 1];
        let after = states[i];
        let task = tasks[i - 1];
        assert(round_steps(states[i - 1], states[i - 1 + 1], task));
        lemma_round_step(before, after, task);
        assert(!(tasks[i - 1] is Over));
        match before.round.stage {
            RoundStage::Reading(key, _) => {
                if task is Retired {
                    let retired = choose|key: TxKey|
                        before.round.keys.contains(key)
                            && #[trigger] before.submitter.submissions.pending.contains_key(key) && task
                            == RoundTask::Retired(before.submitter.submissions.pending[key])
                            && after.submitter.submissions == before.submitter.submissions.settled(key);
                    assert(after.submitter.submissions.pending.dom()
                        =~= before.submitter.submissions.pending.dom().remove(retired));
                }
            },
            _ => {},
        }
    }
}

/// A retired or reported submission stays settled while its epoch is live: the
/// same call is not taken again, and nothing is attempted for it, whatever else
/// the submitter is told.
pub proof fn law_settled_call_is_not_submitted_again(
    submitter: TxSubmitterView,
    epoch: Epoch,
    call: ChainCall,
    id: ChainTxId,
    other: Epoch,
    another: ChainCall,
    block: SeqNum,
    events: Seq<ChainEventView>,
    complete: bool,
)
    requires
        submitter.submissions.finalized.contains((epoch, id)),
        id == call_tx_id(call),
    ensures
        submitter.with_call(epoch, call) == submitter,
        submitter.attempts_call(epoch, call).len() == 0,
        submitter.with_call(other, another).submissions.finalized.contains((epoch, id)),
        submitter.with_context(other, block).submissions.finalized.contains((epoch, id)),
        submitter.without_registrations(other).submissions.finalized.contains((epoch, id)),
        submitter.with_block(other, block, events, complete).submissions.finalized.contains((epoch, id)),
        submitter.with_session(other).active.contains(epoch) ==> submitter.with_session(
            other,
        ).submissions.finalized.contains((epoch, id)),
{
    lemma_settled_stays(submitter.submissions, other, events, (epoch, id));
}

/// What a round sends after signing carries the configuration of the submitter, at
/// the nonce and the fee that were decided for it.
pub proof fn law_round_sends_what_it_signed(
    before: RoundState,
    after: RoundState,
    input: Seq<u8>,
    prepared: PreparedTx,
    key: TxKey,
    nonce: u64,
    max_fee_per_gas: u128,
    base_fee_per_gas: u64,
)
    requires
        before.round.stage == RoundStage::Encoding(key, nonce, max_fee_per_gas, base_fee_per_gas),
        round_signs(before, after, input, RoundTask::Send(prepared)),
    ensures
        prepared@.chain_id == before.submitter.config.chain_id,
        prepared@.gas_limit == before.submitter.config.gas_limit,
        prepared@.to == before.submitter.config.contract,
        prepared@.value == 0,
        prepared@.nonce == nonce,
        prepared@.max_fee_per_gas == max_fee_per_gas,
        prepared@.input == input,
        crate::chain::tx::is_signed_with(prepared@, before.submitter.signing_key@),
        after.submitter.submissions.prepared matches Some((kept, _)) && kept == key,
        after.round.stage is Over,
{
    let result = choose|result: Result<PreparedTx, DkgError>|
        #[trigger] signs(
            before.submitter,
            after.submitter,
            key,
            nonce,
            max_fee_per_gas,
            base_fee_per_gas,
            input,
            result,
        ) && match result {
            Ok(prepared_tx) => RoundTask::Send(prepared) == RoundTask::Send(prepared_tx),
            Err(error) => RoundTask::Send(prepared) == RoundTask::Failed(
                TxSubmissionError::Operation(error),
            ),
        };
    crate::chain::submitter::law_signed_submission_carries_the_configuration(
        before.submitter,
        after.submitter,
        key,
        nonce,
        max_fee_per_gas,
        base_fee_per_gas,
        input,
        result,
    );
}

/// A round asks for the context of the submission that is selected, fails where there
/// is none, and is over where nothing is selected.
pub proof fn law_round_reads_for_the_selected_submission(
    before: RoundState,
    after: RoundState,
    task: RoundTask,
)
    requires
        before.round.stage is Selecting,
        round_selects(before, after, task),
    ensures
        ({
            let selected = before.submitter.submissions.selected(before.round.keys);
            &&& task is Over <==> selected is None
            &&& task matches RoundTask::ReadContext { key, block } ==> selected == Some(key)
                && before.submitter.is_context_block(key, block) && after.round.stage
                == RoundStage::Reading(key, block)
            &&& task is Failed <==> selected is Some && !before.submitter.has_context_block(
                selected->Some_0,
            )
            &&& after.submitter == before.submitter
            &&& after.round.keys == before.round.keys
        }),
{
}

/// What a round does with a context that was read follows from it: it fails and is over,
/// goes on with the next submission once one is retired, sends again and is over, or
/// asks for the bytes of the call, under the submission that it selected.
pub proof fn law_round_goes_on_after_reading(
    before: RoundState,
    after: RoundState,
    context: Result<DkgTransactionContext, DkgError>,
    task: RoundTask,
    key: TxKey,
    block: SeqNum,
)
    requires
        before.round.stage == RoundStage::Reading(key, block),
        round_reads(before, after, context, task),
    ensures
        after.round.keys == before.round.keys,
        task is Failed || task is Retired || task is Send || task is Encode,
        task is Failed ==> after.round.stage is Over,
        task is Retired ==> after.round.stage is Selecting,
        task is Send ==> after.round.stage is Over,
        task is Encode ==> (after.round.stage matches RoundStage::Encoding(encoded, _, _, _) && encoded
            == key),
        context is Err ==> task is Failed,
{
}

} // verus!
