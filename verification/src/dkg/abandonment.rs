//! What becomes of the registration for an epoch once a later one took its place: it is
//! never attempted again.

use crate::chain::pages::event_views;
use crate::chain::round::{is_round, law_round_attempts_what_is_pending, RoundState, RoundTask};
use crate::chain::scan::{ChainEventBatch, ChainEventReader, ChainRead};
use crate::chain::submitter::{
    call_tx_id, events_settled, is_registration_of, TxKey, TxSubmissions, TxSubmitterView,
};
use crate::chain::tx::{identifies_call, ChainTxId};
use crate::chain::types::{ChainCall, ChainEventView, RegistrationCall};
use crate::dkg::error::DkgError;
use crate::dkg::ids::{Epoch, SeqNum};
use crate::dkg::local_registration::{LocalRegistration, LocalRegistrationRead};
use crate::dkg::manager::{ManagedView, ManagerView};
use crate::dkg::registration::DkgValidator;
use crate::dkg::runner::{
    block_attempt, call_attempts, noted_batch, with_calls, RunnerView, Settling,
};
use vstd::prelude::*;

verus! {

/// Whether no registration for `epoch` is pending.
pub open spec fn none_pending(submissions: TxSubmissions, epoch: Epoch) -> bool {
    forall|key: TxKey| #[trigger]
        submissions.pending.contains_key(key) ==> !is_registration_of(key, epoch)
}

/// Whether no registration for `epoch` is among `keys`.
pub open spec fn none_listed(keys: Seq<TxKey>, epoch: Epoch) -> bool {
    forall|key: TxKey| #[trigger] keys.contains(key) ==> !is_registration_of(key, epoch)
}

/// Whether no list that `after` has beyond those of `before` holds a registration for
/// `epoch`.
pub open spec fn none_added(before: Seq<Seq<TxKey>>, after: Seq<Seq<TxKey>>, epoch: Epoch) -> bool {
    forall|i: int| before.len() <= i < after.len() ==> none_listed(#[trigger] after[i], epoch)
}

/// Whether a later epoch took the place of `epoch`, and its registration is not pending.
pub open spec fn abandoned(
    registration: LocalRegistration,
    submitter: TxSubmitterView,
    epoch: Epoch,
) -> bool {
    &&& registration.state.of_epoch() matches Some(current) && epoch.0 < current.0
    &&& submitter.submissions.consistent()
    &&& none_pending(submitter.submissions, epoch)
}

/// Whether a round of attempts leads from one submitter to another.
pub open spec fn attempts(
    before: TxSubmitterView,
    after: TxSubmitterView,
    states: Seq<RoundState>,
    tasks: Seq<RoundTask>,
) -> bool {
    &&& is_round(states, tasks)
    &&& states[0].submitter == before
    &&& states.last().submitter == after
}

/// Whether a round neither looks at a registration for `epoch` nor sends one.
pub open spec fn spares(states: Seq<RoundState>, tasks: Seq<RoundTask>, epoch: Epoch) -> bool {
    forall|i: int|
        0 <= i < tasks.len() ==> match #[trigger] tasks[i] {
            RoundTask::ReadContext { key, .. } => !is_registration_of(key, epoch),
            RoundTask::Send(_) => states[i + 1].submitter.submissions.prepared matches Some((key, _))
                && !is_registration_of(key, epoch),
            _ => true,
        }
}

/// What can happen to a manager.
pub enum ManagerStep {
    Prepare(Epoch),
    Finalize(SeqNum),
    Sync(SeqNum),
    Want(Epoch, Seq<DkgValidator>),
    Settle,
    /// A read failed, or its outcome changes nothing else.
    ReadOver,
    LocalUnavailable(LocalRegistrationRead),
    LocalRead(
        LocalRegistrationRead,
        Option<RegistrationCall>,
        Option<RegistrationCall>,
        Result<(), DkgError>,
    ),
    Registrations,
    Skip(Epoch),
    Start(Epoch, usize, Option<SeqNum>),
    Follow(Epoch, usize, Option<SeqNum>),
    Events(ChainRead),
    Batch(ChainEventBatch),
    Command(Epoch, ChainCall),
    TakeAttempts,
    Round(Seq<RoundState>, Seq<RoundTask>),
}

/// What each of these does to a manager with a chain, as its methods state it.
pub open spec fn manager_moves(before: ManagerView, after: ManagerView, step: ManagerStep) -> bool {
    let chain = before.chain->Some_0;
    match step {
        ManagerStep::Prepare(epoch) => after == before.with_registration(epoch),
        ManagerStep::Finalize(block) => after == before.with_finalized(block),
        ManagerStep::Sync(block) => after == before.with_sync(block),
        ManagerStep::Want(epoch, validators) => after == before.with_wanted(epoch, validators),
        ManagerStep::Settle => after == before.settled(),
        ManagerStep::ReadOver => after == before.read_over(),
        ManagerStep::LocalUnavailable(read) => {
            &&& before.local_read() == Some(read)
            &&& after == before.read_over().with_chain(
                ManagedView {
                    registration: chain.registration.with_state(
                        chain.registration.state.with_unavailable_block(Some(read.block)),
                    ),
                    ..chain
                },
            )
        },
        ManagerStep::LocalRead(read, observed, local, result) => {
            &&& before.local_read() == Some(read)
            &&& crate::dkg::manager::takes_local_read(before, after, read, observed, local, result)
        },
        ManagerStep::Registrations => after == (ManagerView { pending: None, ..before.read_over() }),
        ManagerStep::Skip(epoch) => after == (ManagerView {
            latest_started_epoch: Some(epoch),
            ..before
        }),
        ManagerStep::Start(epoch, party_count, recovery_block) => after == before.with_session(
            epoch,
            party_count,
            recovery_block,
        ),
        ManagerStep::Follow(epoch, party_count, recovery_block) => after == before.with_chain_session(
            epoch,
            party_count,
            recovery_block,
        ),
        ManagerStep::Events(read) => {
            &&& before.event_read() == Some(read)
            &&& after == before.with_chain(
                ManagedView {
                    reader: ChainEventReader {
                        latest: chain.reader.latest,
                        scan: Some(chain.reader.scan->Some_0.advanced(read).0),
                    },
                    ..chain
                },
            )
        },
        ManagerStep::Batch(batch) => crate::dkg::manager::notes_batch(before, after, batch),
        ManagerStep::Command(epoch, call) => after == before.with_chain(
            ManagedView { submitter: chain.submitter.with_call(epoch, call), ..chain },
        ).attempting(chain.submitter.attempts_call(epoch, call)),
        ManagerStep::TakeAttempts => after == (ManagerView { attempts: Seq::empty(), ..before }),
        ManagerStep::Round(states, tasks) => exists|submitter: TxSubmitterView| #[trigger]
            attempts(chain.submitter, submitter, states, tasks) && after == before.with_chain(
                ManagedView { submitter, ..chain },
            ),
    }
}

/// Whether a manager with a chain goes through `states`.
pub open spec fn is_manager_run(states: Seq<ManagerView>, steps: Seq<ManagerStep>) -> bool {
    &&& states.len() == steps.len() + 1
    &&& states[0].chain is Some
    &&& states[0].chain->Some_0.submitter.submissions.consistent()
    &&& forall|i: int|
        0 <= i < steps.len() ==> manager_moves(states[i], states[i + 1], #[trigger] steps[i])
}

/// Whether a session hands in a registration.
pub open spec fn hands_in_registration(step: ManagerStep) -> bool {
    step matches ManagerStep::Command(_, ChainCall::PostRegistration { .. })
}

proof fn lemma_call_is_no_registration(call: ChainCall)
    requires
        !(call is PostRegistration),
    ensures
        !(call_tx_id(call) is Registration),
{
    let id = match call {
        ChainCall::PostPcQc(qc) => ChainTxId::PcQc { dealer: qc.dealer.0, digest: qc.digest },
        ChainCall::PostBveQc(qc) => ChainTxId::BveQc {
            dealer: qc.dealer.0,
            commitment_digest: qc.commitment_digest,
            digest: qc.digest,
        },
        ChainCall::PostDkgResult(qc) => ChainTxId::DkgResult { g2x: qc.g2x },
        _ => arbitrary(),
    };
    assert(identifies_call(id, call));
}

/// A call that is no registration for `epoch` brings none back.
proof fn lemma_call_brings_none_back(
    submitter: TxSubmitterView,
    other: Epoch,
    call: ChainCall,
    epoch: Epoch,
)
    requires
        submitter.submissions.consistent(),
        none_pending(submitter.submissions, epoch),
        other != epoch || !(call is PostRegistration),
    ensures
        submitter.with_call(other, call).submissions.consistent(),
        none_pending(submitter.with_call(other, call).submissions, epoch),
        none_listed(submitter.attempts_call(other, call), epoch),
{
    if !(call is PostRegistration) {
        lemma_call_is_no_registration(call);
    }
}

proof fn lemma_events_bring_none_back(
    submissions: TxSubmissions,
    other: Epoch,
    events: Seq<ChainEventView>,
    epoch: Epoch,
)
    requires
        submissions.consistent(),
        none_pending(submissions, epoch),
    ensures
        events_settled(submissions, other, events).consistent(),
        none_pending(events_settled(submissions, other, events), epoch),
    decreases events.len(),
{
    if events.len() > 0 {
        lemma_events_bring_none_back(submissions, other, events.drop_last(), epoch);
    }
}

proof fn lemma_batch_brings_none_back(
    submitter: TxSubmitterView,
    batch: ChainEventBatch,
    keys: Seq<TxKey>,
    epoch: Epoch,
)
    requires
        submitter.submissions.consistent(),
        none_pending(submitter.submissions, epoch),
        block_attempt(submitter, noted_batch(submitter, batch), batch.session.epoch, keys),
    ensures
        noted_batch(submitter, batch).submissions.consistent(),
        none_pending(noted_batch(submitter, batch).submissions, epoch),
        none_listed(keys, epoch),
{
    lemma_events_bring_none_back(
        submitter.submissions,
        batch.session.epoch,
        event_views(batch.events@),
        epoch,
    );
}

proof fn lemma_round_brings_none_back(
    before: TxSubmitterView,
    after: TxSubmitterView,
    states: Seq<RoundState>,
    tasks: Seq<RoundTask>,
    epoch: Epoch,
)
    requires
        attempts(before, after, states, tasks),
        none_pending(before.submissions, epoch),
    ensures
        after.submissions.consistent(),
        none_pending(after.submissions, epoch),
        spares(states, tasks, epoch),
{
    assert forall|i: int| 0 <= i < tasks.len() implies match #[trigger] tasks[i] {
        RoundTask::ReadContext { key, .. } => !is_registration_of(key, epoch),
        RoundTask::Send(_) => states[i + 1].submitter.submissions.prepared matches Some((key, _))
            && !is_registration_of(key, epoch),
        _ => true,
    } by {
        law_round_attempts_what_is_pending(states, tasks, i);
    }
    if tasks.len() > 0 {
        law_round_attempts_what_is_pending(states, tasks, tasks.len() - 1);
    }
}

/// Settling a manager changes no registration, no submission and no list of attempts.
proof fn lemma_settling_keeps_the_chain(manager: ManagerView)
    ensures
        manager.chain is Some ==> manager.settled().chain is Some
            && manager.settled().chain->Some_0.registration == manager.chain->Some_0.registration
            && manager.settled().chain->Some_0.submitter == manager.chain->Some_0.submitter,
        manager.settled().attempts == manager.attempts,
    decreases manager.schedule.len(),
{
    if manager.schedule.len() > 0 && !manager.is_due(manager.schedule[0]) {
        lemma_settling_keeps_the_chain(manager.passed_over());
    }
}

proof fn lemma_manager_step(
    before: ManagerView,
    after: ManagerView,
    step: ManagerStep,
    epoch: Epoch,
)
    requires
        before.chain is Some,
        abandoned(before.chain->Some_0.registration, before.chain->Some_0.submitter, epoch),
        manager_moves(before, after, step),
        !hands_in_registration(step),
    ensures
        after.chain is Some,
        abandoned(after.chain->Some_0.registration, after.chain->Some_0.submitter, epoch),
        none_added(before.attempts, after.attempts, epoch),
        step matches ManagerStep::Round(states, tasks) ==> spares(states, tasks, epoch),
{
    let chain = before.chain->Some_0;
    match step {
        ManagerStep::Settle => {
            lemma_settling_keeps_the_chain(before);
        },
        ManagerStep::LocalRead(read, observed, local, _) => {
            assert(chain.registration.state.of_epoch() == Some(read.epoch));
            if local is Some {
                let call = ChainCall::PostRegistration {
                    registration: local->Some_0,
                    dkg: chain.submitter.config.contract,
                };
                lemma_call_brings_none_back(
                    chain.submitter.with_context(read.epoch, read.block),
                    read.epoch,
                    call,
                    epoch,
                );
            }
        },
        ManagerStep::Batch(batch) => {
            let submitter = noted_batch(chain.submitter, batch);
            let keys = choose|keys: Seq<TxKey>| #[trigger]
                block_attempt(chain.submitter, submitter, batch.session.epoch, keys) && after
                    == before.with_chain(ManagedView { submitter, ..chain }).attempting(keys);
            lemma_batch_brings_none_back(chain.submitter, batch, keys, epoch);
        },
        ManagerStep::Command(other, call) => {
            lemma_call_brings_none_back(chain.submitter, other, call, epoch);
        },
        ManagerStep::Round(states, tasks) => {
            let submitter = choose|submitter: TxSubmitterView| #[trigger]
                attempts(chain.submitter, submitter, states, tasks) && after == before.with_chain(
                    ManagedView { submitter, ..chain },
                );
            lemma_round_brings_none_back(chain.submitter, submitter, states, tasks, epoch);
        },
        _ => {},
    }
}

proof fn lemma_manager_run(
    states: Seq<ManagerView>,
    steps: Seq<ManagerStep>,
    epoch: Epoch,
    newer: Epoch,
    place: int,
)
    requires
        is_manager_run(states, steps),
        states[0].chain->Some_0.registration.state.of_epoch() == Some(epoch),
        epoch.0 < newer.0,
        steps.len() > 0,
        steps[0] == ManagerStep::Prepare(newer),
        forall|i: int| 0 <= i < steps.len() ==> !hands_in_registration(#[trigger] steps[i]),
        0 < place < states.len(),
    ensures
        states[place].chain is Some,
        abandoned(
            states[place].chain->Some_0.registration,
            states[place].chain->Some_0.submitter,
            epoch,
        ),
    decreases place,
{
    let step = steps[place - 1];
    assert(manager_moves(states[place - 1], states[place - 1 + 1], step));
    if place > 1 {
        lemma_manager_run(states, steps, epoch, newer, place - 1);
        lemma_manager_step(states[place - 1], states[place], step, epoch);
    }
}

/// Once a manager opens the registration for a newer epoch, the registration for the
/// epoch before is abandoned: in no later state is it pending, no later step lists it
/// among the submissions to attempt, and no round of attempts looks at it or sends it.
/// Sessions hand in no registrations.
pub proof fn law_manager_never_attempts_an_abandoned_registration(
    states: Seq<ManagerView>,
    steps: Seq<ManagerStep>,
    epoch: Epoch,
    newer: Epoch,
    place: int,
)
    requires
        is_manager_run(states, steps),
        states[0].chain->Some_0.registration.state.of_epoch() == Some(epoch),
        epoch.0 < newer.0,
        steps.len() > 0,
        steps[0] == ManagerStep::Prepare(newer),
        forall|i: int| 0 <= i < steps.len() ==> !hands_in_registration(#[trigger] steps[i]),
        0 < place < states.len(),
    ensures
        states[place].chain is Some,
        none_pending(states[place].chain->Some_0.submitter.submissions, epoch),
        none_added(states[place - 1].attempts, states[place].attempts, epoch),
        steps[place - 1] matches ManagerStep::Round(rounds, tasks) ==> spares(rounds, tasks, epoch),
{
    lemma_manager_run(states, steps, epoch, newer, place);
    let step = steps[place - 1];
    assert(manager_moves(states[place - 1], states[place - 1 + 1], step));
    if place > 1 {
        lemma_manager_run(states, steps, epoch, newer, place - 1);
        lemma_manager_step(states[place - 1], states[place], step, epoch);
    }
}

/// What can happen to a runner.
pub enum RunnerStep {
    Prepare(Epoch),
    Finalize(SeqNum),
    Sync(SeqNum),
    Want(Epoch, Seq<DkgValidator>),
    /// The next read is looked for, failed, or its outcome changes nothing else.
    Settle(Settling),
    LocalUnavailable(LocalRegistrationRead),
    LocalRead(
        LocalRegistrationRead,
        Option<RegistrationCall>,
        Option<RegistrationCall>,
        Result<(), DkgError>,
    ),
    Registrations,
    Skip(Epoch),
    Start(Epoch, usize, SeqNum),
    Follow(Epoch, usize, ChainEventReader),
    Events(ChainEventReader),
    Batch(ChainEventBatch, Seq<ChainCall>),
    Calls(Epoch, Seq<ChainCall>),
    TakeAttempts,
    Round(Seq<RoundState>, Seq<RoundTask>),
}

/// What each of these does to a runner, as its methods state it.
pub open spec fn runner_moves(before: RunnerView, after: RunnerView, step: RunnerStep) -> bool {
    match step {
        RunnerStep::Prepare(epoch) => after == before.with_registration(epoch),
        RunnerStep::Finalize(block) => after == before.with_finalized(block),
        RunnerStep::Sync(block) => after == before.with_sync(block),
        RunnerStep::Want(epoch, validators) => after == before.with_wanted(epoch, validators),
        RunnerStep::Settle(settling) => after == (RunnerView { settling, ..before }),
        RunnerStep::LocalUnavailable(read) => after == (RunnerView {
            registration: if before.registration.state.of_epoch() == Some(read.epoch) {
                before.registration.with_state(
                    before.registration.state.with_unavailable_block(Some(read.block)),
                )
            } else {
                before.registration
            },
            settling: Settling::PendingSession,
            ..before
        }),
        RunnerStep::LocalRead(read, observed, local, result) => {
            &&& before.local_read() == Some(read)
            &&& crate::dkg::runner::takes_local_read(before, after, read, observed, local, result)
        },
        RunnerStep::Registrations => after == (RunnerView {
            pending: None,
            settling: Settling::Events,
            ..before
        }),
        RunnerStep::Skip(epoch) => after == (RunnerView {
            latest_started_epoch: Some(epoch),
            ..before
        }),
        RunnerStep::Start(epoch, party_count, recovery_block) => after == before.with_session(
            epoch,
            party_count,
            recovery_block,
        ),
        RunnerStep::Follow(epoch, party_count, reader) => after == (RunnerView {
            chain_session: Some((epoch, party_count)),
            submitter: before.submitter.with_session(epoch),
            reader,
            ..before
        }),
        RunnerStep::Events(reader) => after == (RunnerView { reader, ..before }),
        RunnerStep::Batch(batch, calls) => crate::dkg::runner::notes_batch(before, after, batch, calls),
        RunnerStep::Calls(epoch, calls) => after == (RunnerView {
            submitter: with_calls(before.submitter, epoch, calls),
            attempts: before.attempts + call_attempts(before.submitter, epoch, calls),
            ..before
        }),
        RunnerStep::TakeAttempts => after == (RunnerView { attempts: Seq::empty(), ..before }),
        RunnerStep::Round(states, tasks) => exists|submitter: TxSubmitterView| #[trigger]
            attempts(before.submitter, submitter, states, tasks) && after == (RunnerView {
                submitter,
                ..before
            }),
    }
}

/// Whether a runner goes through `states`.
pub open spec fn is_runner_run(states: Seq<RunnerView>, steps: Seq<RunnerStep>) -> bool {
    &&& states.len() == steps.len() + 1
    &&& states[0].submitter.submissions.consistent()
    &&& forall|i: int|
        0 <= i < steps.len() ==> runner_moves(states[i], states[i + 1], #[trigger] steps[i])
}

/// Whether none of a session's calls is a registration.
pub open spec fn posts_no_registration(calls: Seq<ChainCall>) -> bool {
    forall|i: int| 0 <= i < calls.len() ==> !(#[trigger] calls[i] is PostRegistration)
}

/// Whether the calls of a step, if it has any, are no registrations.
pub open spec fn calls_are_no_registrations(step: RunnerStep) -> bool {
    match step {
        RunnerStep::Batch(_, calls) => posts_no_registration(calls),
        RunnerStep::Calls(_, calls) => posts_no_registration(calls),
        _ => true,
    }
}

proof fn lemma_calls_bring_none_back(
    submitter: TxSubmitterView,
    other: Epoch,
    calls: Seq<ChainCall>,
    epoch: Epoch,
)
    requires
        submitter.submissions.consistent(),
        none_pending(submitter.submissions, epoch),
        posts_no_registration(calls),
    ensures
        with_calls(submitter, other, calls).submissions.consistent(),
        none_pending(with_calls(submitter, other, calls).submissions, epoch),
        forall|i: int|
            0 <= i < call_attempts(submitter, other, calls).len() ==> none_listed(
                #[trigger] call_attempts(submitter, other, calls)[i],
                epoch,
            ),
    decreases calls.len(),
{
    if calls.len() > 0 {
        let front = calls.drop_last();
        assert forall|i: int| 0 <= i < front.len() implies !(#[trigger] front[i] is PostRegistration) by {
            assert(front[i] == calls[i]);
        }
        lemma_calls_bring_none_back(submitter, other, front, epoch);
        assert(!(calls[calls.len() - 1] is PostRegistration));
        lemma_call_brings_none_back(with_calls(submitter, other, front), other, calls.last(), epoch);
        let listed = call_attempts(submitter, other, calls);
        let earlier = call_attempts(submitter, other, front);
        assert forall|i: int| 0 <= i < listed.len() implies none_listed(#[trigger] listed[i], epoch) by {
            if i < earlier.len() {
                assert(listed[i] == earlier[i]);
            }
        }
    }
}

proof fn lemma_runner_step(before: RunnerView, after: RunnerView, step: RunnerStep, epoch: Epoch)
    requires
        abandoned(before.registration, before.submitter, epoch),
        runner_moves(before, after, step),
        calls_are_no_registrations(step),
    ensures
        abandoned(after.registration, after.submitter, epoch),
        none_added(before.attempts, after.attempts, epoch),
        step matches RunnerStep::Round(states, tasks) ==> spares(states, tasks, epoch),
{
    match step {
        RunnerStep::LocalRead(read, observed, local, _) => {
            assert(before.registration.state.of_epoch() == Some(read.epoch));
            if local is Some {
                let call = ChainCall::PostRegistration {
                    registration: local->Some_0,
                    dkg: before.submitter.config.contract,
                };
                lemma_call_brings_none_back(
                    before.submitter.with_context(read.epoch, read.block),
                    read.epoch,
                    call,
                    epoch,
                );
            }
        },
        RunnerStep::Batch(batch, calls) => {
            let other = batch.session.epoch;
            let submitter = noted_batch(before.submitter, batch);
            let keys = choose|keys: Seq<TxKey>| #[trigger]
                block_attempt(before.submitter, submitter, other, keys) && after == (RunnerView {
                    submitter: with_calls(submitter, other, calls),
                    attempts: before.attempts.push(keys) + call_attempts(submitter, other, calls),
                    ..before
                });
            lemma_batch_brings_none_back(before.submitter, batch, keys, epoch);
            lemma_calls_bring_none_back(submitter, other, calls, epoch);
            assert forall|i: int| before.attempts.len() <= i < after.attempts.len() implies none_listed(
                #[trigger] after.attempts[i],
                epoch,
            ) by {
                if i > before.attempts.len() {
                    assert(after.attempts[i] == call_attempts(submitter, other, calls)[i
                        - before.attempts.len() - 1]);
                }
            }
        },
        RunnerStep::Calls(other, calls) => {
            lemma_calls_bring_none_back(before.submitter, other, calls, epoch);
            assert forall|i: int| before.attempts.len() <= i < after.attempts.len() implies none_listed(
                #[trigger] after.attempts[i],
                epoch,
            ) by {
                assert(after.attempts[i] == call_attempts(before.submitter, other, calls)[i
                    - before.attempts.len()]);
            }
        },
        RunnerStep::Round(states, tasks) => {
            let submitter = choose|submitter: TxSubmitterView| #[trigger]
                attempts(before.submitter, submitter, states, tasks) && after == (RunnerView {
                    submitter,
                    ..before
                });
            lemma_round_brings_none_back(before.submitter, submitter, states, tasks, epoch);
        },
        _ => {},
    }
}

proof fn lemma_runner_run(
    states: Seq<RunnerView>,
    steps: Seq<RunnerStep>,
    epoch: Epoch,
    newer: Epoch,
    place: int,
)
    requires
        is_runner_run(states, steps),
        states[0].registration.state.of_epoch() == Some(epoch),
        epoch.0 < newer.0,
        steps.len() > 0,
        steps[0] == RunnerStep::Prepare(newer),
        forall|i: int| 0 <= i < steps.len() ==> calls_are_no_registrations(#[trigger] steps[i]),
        0 < place < states.len(),
    ensures
        abandoned(states[place].registration, states[place].submitter, epoch),
    decreases place,
{
    let step = steps[place - 1];
    assert(runner_moves(states[place - 1], states[place - 1 + 1], step));
    if place > 1 {
        lemma_runner_run(states, steps, epoch, newer, place - 1);
        lemma_runner_step(states[place - 1], states[place], step, epoch);
    }
}

/// Once a runner opens the registration for a newer epoch, the registration for the
/// epoch before is abandoned: in no later state is it pending, no later step lists it
/// among the submissions to attempt, and no round of attempts looks at it or sends it.
/// Sessions hand in no registrations.
pub proof fn law_runner_never_attempts_an_abandoned_registration(
    states: Seq<RunnerView>,
    steps: Seq<RunnerStep>,
    epoch: Epoch,
    newer: Epoch,
    place: int,
)
    requires
        is_runner_run(states, steps),
        states[0].registration.state.of_epoch() == Some(epoch),
        epoch.0 < newer.0,
        steps.len() > 0,
        steps[0] == RunnerStep::Prepare(newer),
        forall|i: int| 0 <= i < steps.len() ==> calls_are_no_registrations(#[trigger] steps[i]),
        0 < place < states.len(),
    ensures
        none_pending(states[place].submitter.submissions, epoch),
        none_added(states[place - 1].attempts, states[place].attempts, epoch),
        steps[place - 1] matches RunnerStep::Round(rounds, tasks) ==> spares(rounds, tasks, epoch),
{
    lemma_runner_run(states, steps, epoch, newer, place);
    let step = steps[place - 1];
    assert(runner_moves(states[place - 1], states[place - 1 + 1], step));
    if place > 1 {
        lemma_runner_run(states, steps, epoch, newer, place - 1);
        lemma_runner_step(states[place - 1], states[place], step, epoch);
    }
}

} // verus!
