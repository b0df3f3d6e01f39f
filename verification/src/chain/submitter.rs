//! Submitting the calls of the sessions to the contract.
//!
//! Calls wait until the chain events of their epoch are recovered. They are then
//! submitted one at a time, each again on every finalized block until its event
//! is seen or its nonce is used up.

use crate::chain::pages::event_views;
use crate::chain::reliable::{
    PreparedState, Refreshed, ReliableSubmitter, SubmissionsView,
};
use crate::chain::tx::{
    call_error, decide_refresh, event_tx_id, identifies_call, identifies_registration,
    is_contract_call, refresh_decision, secp256k1_address, signer_address, ChainTxId, ContractCall,
    DkgChainConfig, DkgTransactionContext, PreparedTransaction, PreparedTx, RefreshDecision,
    TxConfig,
};
use crate::chain::types::{ChainCall, ChainEvent, ChainEventView, RegistrationCall};
use crate::dkg::error::DkgError;
use crate::dkg::ids::{Address, Epoch, SeqNum};
use crate::order::{ascending, Key, KeyPredicate};
use crate::ordered_map::OrderedMap;
use crate::MAX_RETAINED_DKG_SESSIONS;
use vstd::prelude::*;

verus! {

/// The epoch and the identity of a call.
pub type TxKey = (Epoch, ChainTxId);

/// The identity of a call.
pub open spec fn call_tx_id(call: ChainCall) -> ChainTxId {
    choose|id: ChainTxId| identifies_call(id, call)
}

/// The identity of a registration.
pub open spec fn registration_tx_id(registration: RegistrationCall) -> ChainTxId {
    choose|id: ChainTxId| identifies_registration(id, registration)
}

proof fn lemma_registration_id(id: ChainTxId, registration: RegistrationCall)
    requires
        identifies_registration(id, registration),
    ensures
        registration_tx_id(registration) == id,
{
    let chosen = registration_tx_id(registration);
    assert(identifies_registration(chosen, registration));
    assert(chosen->Registration_digest =~= id->Registration_digest);
}

proof fn lemma_call_id(id: ChainTxId, call: ChainCall)
    requires
        identifies_call(id, call),
    ensures
        call_tx_id(call) == id,
        id is Registration <==> call is PostRegistration,
{
    let chosen = call_tx_id(call);
    assert(identifies_call(chosen, call));
    match call {
        ChainCall::PostRegistration { registration, .. } => {
            lemma_registration_id(id, registration);
            lemma_registration_id(chosen, registration);
        },
        _ => {},
    }
}

/// The submissions of a submitter.
pub type TxSubmissions = SubmissionsView<TxKey, ChainCall, PreparedTx>;

/// Submits the calls of the sessions.
pub struct TxSubmitter {
    config: TxConfig,
    signing_key: [u8; 32],
    signer: Address,
    reliable: ReliableSubmitter<TxKey, ChainCall, PreparedTx>,
    active_epochs: Vec<Epoch>,
    recovered_epochs: OrderedMap<Epoch, ()>,
    context_blocks: OrderedMap<Epoch, SeqNum>,
}

/// The model of a submitter.
#[verifier::ext_equal]
pub struct TxSubmitterView {
    pub config: TxConfig,
    pub signing_key: [u8; 32],
    pub signer: Address,
    pub submissions: TxSubmissions,
    pub active: Seq<Epoch>,
    pub recovered: Set<Epoch>,
    pub contexts: Map<Epoch, SeqNum>,
}

/// The live epochs once `epoch` starts: an epoch below the newest one does not,
/// and the oldest leaves where there are too many.
pub open spec fn started_epochs(active: Seq<Epoch>, epoch: Epoch) -> Seq<Epoch> {
    if active.contains(epoch) || (active.len() > 0 && active.last().0 > epoch.0) {
        active
    } else {
        let all = active.push(epoch);
        if all.len() > MAX_RETAINED_DKG_SESSIONS {
            all.skip(1)
        } else {
            all
        }
    }
}

/// Whether a submission stays with these live epochs: it is of one of them, or it
/// is a registration for a newer one.
pub open spec fn keeps_tx(active: Seq<Epoch>, key: TxKey) -> bool {
    active.contains(key.0) || (key.0.0 > active.last().0 && key.1 is Registration)
}

/// Whether the context block of an epoch stays with these live epochs.
pub open spec fn keeps_context(active: Seq<Epoch>, epoch: Epoch) -> bool {
    active.contains(epoch) || epoch.0 > active.last().0
}

/// Whether a submission is the registration for an epoch.
pub open spec fn is_registration_of(key: TxKey, epoch: Epoch) -> bool {
    key.0 == epoch && key.1 is Registration
}

/// Whether `keys` are the pending submissions in `wanted`, in ascending order.
pub open spec fn lists_pending(keys: Seq<TxKey>, submissions: TxSubmissions, wanted: Set<TxKey>) -> bool {
    &&& ascending(keys)
    &&& forall|key: TxKey| #[trigger]
        keys.contains(key) <==> submissions.pending.contains_key(key) && wanted.contains(key)
}

/// The submissions of an epoch.
pub open spec fn epoch_txs(epoch: Epoch) -> Set<TxKey> {
    Set::new(|key: TxKey| key.0 == epoch)
}

/// The registrations for an epoch.
pub open spec fn epoch_registrations(epoch: Epoch) -> Set<TxKey> {
    Set::new(|key: TxKey| is_registration_of(key, epoch))
}

/// The submissions once the artifacts of `events` are settled.
pub open spec fn events_settled(
    submissions: TxSubmissions,
    epoch: Epoch,
    events: Seq<ChainEventView>,
) -> TxSubmissions
    decreases events.len(),
{
    if events.len() == 0 {
        submissions
    } else {
        events_settled(submissions, epoch, events.drop_last()).settled(
            (epoch, event_tx_id(events.last())),
        )
    }
}

impl TxSubmitterView {
    /// The submitter once a session starts.
    pub open spec fn with_session(self, epoch: Epoch) -> TxSubmitterView {
        let active = started_epochs(self.active, epoch);
        if active == self.active {
            self
        } else {
            TxSubmitterView {
                active,
                submissions: self.submissions.retained(
                    Set::new(|key: TxKey| keeps_tx(active, key)),
                ),
                recovered: self.recovered.intersect(active.to_set()),
                contexts: self.contexts.restrict(
                    Set::new(|epoch: Epoch| keeps_context(active, epoch)),
                ),
                ..self
            }
        }
    }

    /// The submitter without the pending registrations for an epoch.
    pub open spec fn without_registrations(self, epoch: Epoch) -> TxSubmitterView {
        TxSubmitterView {
            submissions: self.submissions.pending_within(epoch_registrations(epoch).complement()),
            ..self
        }
    }

    /// Whether a call is taken: it is a registration or of a live epoch, and its
    /// artifact is neither pending nor settled.
    pub open spec fn takes(self, epoch: Epoch, call: ChainCall) -> bool {
        let key = (epoch, call_tx_id(call));
        &&& call is PostRegistration || self.active.contains(epoch)
        &&& !self.submissions.finalized.contains(key)
        &&& !self.submissions.pending.contains_key(key)
    }

    /// The submitter once a call was handed to it.
    pub open spec fn with_call(self, epoch: Epoch, call: ChainCall) -> TxSubmitterView {
        if self.takes(epoch, call) {
            TxSubmitterView {
                submissions: SubmissionsView {
                    pending: self.submissions.pending.insert((epoch, call_tx_id(call)), call),
                    ..self.submissions
                },
                ..self
            }
        } else {
            self
        }
    }

    /// The submissions to attempt after a call was handed in: the call itself,
    /// where it was taken and need not wait for the recovery of its epoch.
    pub open spec fn attempts_call(self, epoch: Epoch, call: ChainCall) -> Seq<TxKey> {
        if self.takes(epoch, call) && (call is PostRegistration || self.recovered.contains(epoch)) {
            seq![(epoch, call_tx_id(call))]
        } else {
            Seq::empty()
        }
    }

    /// The submitter with the context block of an epoch.
    pub open spec fn with_context(self, epoch: Epoch, block: SeqNum) -> TxSubmitterView {
        TxSubmitterView { contexts: self.contexts.insert(epoch, block), ..self }
    }

    /// The submitter after a finalized block of a live epoch.
    pub open spec fn with_block(
        self,
        epoch: Epoch,
        block: SeqNum,
        events: Seq<ChainEventView>,
        recovery_complete_after: bool,
    ) -> TxSubmitterView {
        TxSubmitterView {
            contexts: self.contexts.insert(epoch, block),
            submissions: events_settled(self.submissions, epoch, events),
            recovered: if recovery_complete_after {
                self.recovered.insert(epoch)
            } else {
                self.recovered
            },
            ..self
        }
    }

    /// The block at which the context of a submission is read: that of its epoch
    /// for a prepared one, else the newest.
    pub open spec fn is_context_block(self, key: TxKey, block: SeqNum) -> bool {
        if self.submissions.prepared is Some {
            self.contexts.contains_key(key.0) && self.contexts[key.0] == block
        } else {
            &&& exists|epoch: Epoch| #[trigger]
                self.contexts.contains_key(epoch) && self.contexts[epoch] == block
            &&& forall|epoch: Epoch| #[trigger]
                self.contexts.contains_key(epoch) ==> self.contexts[epoch].0 <= block.0
        }
    }

    /// Whether there is a block at which the context of a submission can be read.
    pub open spec fn has_context_block(self, key: TxKey) -> bool {
        if self.submissions.prepared is Some {
            self.contexts.contains_key(key.0)
        } else {
            exists|epoch: Epoch| #[trigger] self.contexts.contains_key(epoch)
        }
    }
}

/// What is to be done for some submissions.
#[derive(Debug)]
pub enum AttemptPlan {
    /// Nothing can be attempted now.
    Idle,
    /// The next submission has no block to read its context at.
    MissingContext { key: TxKey },
    /// The context of the next submission is to be read at a block.
    ReadContext { key: TxKey, block: SeqNum },
}

/// Why a submission could not be refreshed.
#[derive(Clone, Copy, Debug)]
pub enum TxSubmissionError {
    /// There is no block to read the context at.
    MissingContext,
    ChainContext { block: SeqNum, source: DkgError },
    Operation(DkgError),
}

/// What is to be done with a submission after its context was read.
#[derive(Debug)]
pub enum RefreshOutcome {
    /// It stays pending; the attempt is over.
    Failed(TxSubmissionError),
    /// Its nonce is used up without an event; the next submission has its turn.
    Retired(ChainCall),
    /// Its transaction is to be sent as it is.
    Send(PreparedTx),
    /// This call is to be encoded and signed with these numbers.
    Prepare { call: ContractCall, nonce: u64, max_fee_per_gas: u128, base_fee_per_gas: u64 },
}

/// What becomes of a submission that is looked at in the context of a block.
pub open spec fn refreshes(
    before: TxSubmitterView,
    after: TxSubmitterView,
    key: TxKey,
    block: SeqNum,
    context: Result<DkgTransactionContext, DkgError>,
    outcome: RefreshOutcome,
) -> bool {
    match context {
        Err(source) => {
            &&& outcome == RefreshOutcome::Failed(TxSubmissionError::ChainContext { block, source })
            &&& after == before
        },
        Ok(context) => {
            let call = before.submissions.pending[key];
            match refresh_decision(
                prepared_numbers(before.submissions),
                context,
                before.config.max_priority_fee_per_gas,
            ) {
                RefreshDecision::Obsolete => {
                    &&& outcome == RefreshOutcome::Retired(call)
                    &&& after == (TxSubmitterView {
                        submissions: before.submissions.settled(key),
                        ..before
                    })
                },
                RefreshDecision::Keep => {
                    &&& outcome matches RefreshOutcome::Send(prepared) && prepared@
                        == before.submissions.prepared->Some_0.1@
                    &&& after == before
                },
                RefreshDecision::Prepare { max_fee_per_gas } => {
                    &&& after == before
                    &&& match call_error(before.config, key.0, call, before.signer) {
                        Some(error) => outcome == RefreshOutcome::Failed(
                            TxSubmissionError::Operation(error),
                        ),
                        None => outcome matches RefreshOutcome::Prepare {
                            call: contract,
                            nonce,
                            max_fee_per_gas: fee,
                            base_fee_per_gas,
                        } && is_contract_call(contract, key.0, call) && nonce == context.nonce && fee
                            == max_fee_per_gas && base_fee_per_gas == context.base_fee_per_gas,
                    }
                },
            }
        },
    }
}

/// What becomes of a submission whose transaction is signed.
pub open spec fn signs(
    before: TxSubmitterView,
    after: TxSubmitterView,
    key: TxKey,
    nonce: u64,
    max_fee_per_gas: u128,
    base_fee_per_gas: u64,
    input: Seq<u8>,
    result: Result<PreparedTx, DkgError>,
) -> bool {
    match before.config.transaction_signature(before.signing_key@, nonce, max_fee_per_gas, input) {
        Some(signature) => {
            let transaction = before.config.transaction(
                nonce,
                max_fee_per_gas,
                base_fee_per_gas,
                input,
                signature,
            );
            &&& result is Ok && result->Ok_0@ == transaction
            &&& after.submissions.prepared is Some
            &&& after.submissions.prepared->Some_0.0 == key
            &&& after.submissions.prepared->Some_0.1@ == transaction
            &&& after == (TxSubmitterView {
                submissions: SubmissionsView {
                    prepared: after.submissions.prepared,
                    ..before.submissions
                },
                ..before
            })
        },
        None => {
            &&& result == Err::<PreparedTx, _>(
                DkgError::Operation { operation: "sign DKG transaction" },
            )
            &&& after == before
        },
    }
}

struct KeepTx {
    active: Vec<Epoch>,
}

impl KeyPredicate<TxKey> for KeepTx {
    closed spec fn holds(&self, key: TxKey) -> bool {
        self.active@.len() > 0 ==> keeps_tx(self.active@, key)
    }

    fn test(&self, key: &TxKey) -> bool {
        if self.active.len() == 0 {
            return true;
        }
        let latest: Epoch = self.active[self.active.len() - 1];
        contains_epoch(&self.active, key.0) || (key.0.0 > latest.0 && key.1.is_registration())
    }
}

struct KeepContext {
    active: Vec<Epoch>,
}

impl KeyPredicate<Epoch> for KeepContext {
    closed spec fn holds(&self, key: Epoch) -> bool {
        self.active@.len() > 0 ==> keeps_context(self.active@, key)
    }

    fn test(&self, key: &Epoch) -> bool {
        if self.active.len() == 0 {
            return true;
        }
        let latest: Epoch = self.active[self.active.len() - 1];
        contains_epoch(&self.active, *key) || key.0 > latest.0
    }
}

struct KeepActive {
    active: Vec<Epoch>,
}

impl KeyPredicate<Epoch> for KeepActive {
    closed spec fn holds(&self, key: Epoch) -> bool {
        self.active@.contains(key)
    }

    fn test(&self, key: &Epoch) -> bool {
        contains_epoch(&self.active, *key)
    }
}

struct OfEpoch {
    epoch: Epoch,
}

impl KeyPredicate<TxKey> for OfEpoch {
    closed spec fn holds(&self, key: TxKey) -> bool {
        key.0 == self.epoch
    }

    fn test(&self, key: &TxKey) -> bool {
        key.0 == self.epoch
    }
}

struct RegistrationOf {
    epoch: Epoch,
    wanted: bool,
}

impl KeyPredicate<TxKey> for RegistrationOf {
    closed spec fn holds(&self, key: TxKey) -> bool {
        is_registration_of(key, self.epoch) == self.wanted
    }

    fn test(&self, key: &TxKey) -> bool {
        (key.0 == self.epoch && key.1.is_registration()) == self.wanted
    }
}

fn contains_epoch(epochs: &Vec<Epoch>, epoch: Epoch) -> (found: bool)
    ensures
        found == epochs@.contains(epoch),
{
    let mut i: usize = 0;
    while i < epochs.len()
        invariant
            i <= epochs@.len(),
            forall|j: int| 0 <= j < i ==> #[trigger] epochs@[j] != epoch,
        decreases epochs@.len() - i,
    {
        if epochs[i] == epoch {
            assert(epochs@[i as int] == epoch);
            return true;
        }
        i += 1;
    }
    false
}

fn copy_epochs(epochs: &Vec<Epoch>) -> (copy: Vec<Epoch>)
    ensures
        copy@ == epochs@,
{
    crate::reliable::message::copy_keys(epochs)
}

impl View for TxSubmitter {
    type V = TxSubmitterView;

    closed spec fn view(&self) -> TxSubmitterView {
        TxSubmitterView {
            config: self.config,
            signing_key: self.signing_key,
            signer: self.signer,
            submissions: self.reliable@,
            active: self.active_epochs@,
            recovered: self.recovered_epochs@.dom(),
            contexts: self.context_blocks@,
        }
    }
}

impl TxSubmitter {
    pub closed spec fn parts_wf(self) -> bool {
        &&& self.reliable.wf()
        &&& self.recovered_epochs.wf()
        &&& self.context_blocks.wf()
    }

    /// Only finitely many submissions are pending.
    pub proof fn lemma_pending_is_finite(self)
        requires
            self.wf(),
        ensures
            self@.submissions.pending.dom().finite(),
    {
        self.reliable.lemma_pending_is_finite();
    }

    /// Few epochs are live, in ascending order; only live ones count as
    /// recovered; and what is pending is a registration or of a live epoch.
    pub open spec fn wf(self) -> bool {
        &&& self.parts_wf()
        &&& self@.submissions.consistent()
        &&& ascending(self@.active)
        &&& self@.active.len() <= MAX_RETAINED_DKG_SESSIONS
        &&& forall|epoch: Epoch| #[trigger]
            self@.recovered.contains(epoch) ==> self@.active.contains(epoch)
        &&& forall|key: TxKey| #[trigger]
            self@.submissions.pending.contains_key(key) ==> key.1 is Registration
                || self@.active.contains(key.0)
    }

    pub fn new(config: &DkgChainConfig) -> (result: Result<Self, DkgError>)
        ensures
            match result {
                Ok(submitter) => {
                    &&& submitter.wf()
                    &&& secp256k1_address(config.signing_key@) == Some(submitter@.signer.bytes@)
                    &&& submitter@.signing_key == config.signing_key
                    &&& submitter@.config == (TxConfig {
                        contract: config.contract,
                        chain_id: config.chain_id,
                        gas_limit: config.gas_limit,
                        max_priority_fee_per_gas: config.max_priority_fee_per_gas,
                    })
                    &&& submitter@.submissions.pending == Map::<TxKey, ChainCall>::empty()
                    &&& submitter@.submissions.prepared is None
                    &&& submitter@.submissions.finalized == Set::<TxKey>::empty()
                    &&& submitter@.active == Seq::<Epoch>::empty()
                    &&& submitter@.recovered == Set::<Epoch>::empty()
                    &&& submitter@.contexts == Map::<Epoch, SeqNum>::empty()
                },
                Err(error) => secp256k1_address(config.signing_key@) is None && error
                    == (DkgError::Operation { operation: "construct DKG transaction signer" }),
            },
    {
        let signer: Address = match signer_address(&config.signing_key) {
            Ok(signer) => signer,
            Err(error) => {
                return Err(error);
            },
        };
        let submitter = TxSubmitter {
            config: TxConfig {
                contract: config.contract,
                chain_id: config.chain_id,
                gas_limit: config.gas_limit,
                max_priority_fee_per_gas: config.max_priority_fee_per_gas,
            },
            signing_key: config.signing_key,
            signer,
            reliable: ReliableSubmitter::new(),
            active_epochs: Vec::new(),
            recovered_epochs: OrderedMap::new(),
            context_blocks: OrderedMap::new(),
        };
        assert(submitter@.recovered =~= Set::<Epoch>::empty());
        Ok(submitter)
    }

    pub fn signer_address(&self) -> (address: Address)
        ensures
            address == self@.signer,
    {
        self.signer
    }

    /// Starts a session. The oldest of too many sessions ends: its calls are
    /// forgotten.
    pub fn start_session(&mut self, epoch: Epoch)
        requires
            old(self).wf(),
        ensures
            final(self).wf(),
            final(self)@ == old(self)@.with_session(epoch),
    {
        let ghost before = self@;
        let count: usize = self.active_epochs.len();
        if contains_epoch(&self.active_epochs, epoch) || (count > 0 && self.active_epochs[count - 1].0
            > epoch.0) {
            return;
        }
        self.active_epochs.push(epoch);
        proof {
            let all = before.active.push(epoch);
            assert forall|i: int, j: int| 0 <= i < j < all.len() implies #[trigger] all[i].before(
                #[trigger] all[j],
            ) by {
                if j < before.active.len() {
                    assert(before.active[i].before(before.active[j]));
                } else {
                    let last = before.active.last();
                    assert(before.active.contains(before.active[i]));
                    if i < before.active.len() - 1 {
                        assert(before.active[i].before(before.active[before.active.len() - 1]));
                    }
                    assert(before.active.contains(last));
                }
            }
        }
        if self.active_epochs.len() > MAX_RETAINED_DKG_SESSIONS {
            let ghost all = self.active_epochs@;
            self.active_epochs.remove(0);
            assert(self.active_epochs@ =~= all.skip(1));
            assert(ascending(self.active_epochs@));
        }
        let ghost active = self.active_epochs@;
        proof {
            assert(active == started_epochs(before.active, epoch));
            assert(active[active.len() - 1] == epoch);
            assert(active.contains(epoch));
        }
        let keep_tx = KeepTx { active: copy_epochs(&self.active_epochs) };
        self.reliable.retain(&keep_tx);
        let keep_active = KeepActive { active: copy_epochs(&self.active_epochs) };
        self.recovered_epochs.retain(&keep_active);
        let keep_context = KeepContext { active: copy_epochs(&self.active_epochs) };
        self.context_blocks.retain(&keep_context);
        proof {
            assert(Set::new(|key: TxKey| keep_tx.holds(key)) =~= Set::new(
                |key: TxKey| keeps_tx(active, key),
            ));
            assert(Set::new(|epoch: Epoch| keep_context.holds(epoch)) =~= Set::new(
                |epoch: Epoch| keeps_context(active, epoch),
            ));
            assert(self.recovered_epochs@.dom() =~= before.recovered.intersect(active.to_set()));
            assert(self@ =~= before.with_session(epoch));
        }
    }

    /// Takes a call of a session. Returns the submissions to attempt.
    pub fn submit(&mut self, epoch: Epoch, call: ChainCall) -> (keys: Vec<TxKey>)
        requires
            old(self).wf(),
        ensures
            final(self).wf(),
            final(self)@ == old(self)@.with_call(epoch, call),
            keys@ == old(self)@.attempts_call(epoch, call),
    {
        let ghost before = self@;
        let id: ChainTxId = ChainTxId::of_call(&call);
        proof {
            lemma_call_id(id, call);
        }
        let immediate: bool = match &call {
            ChainCall::PostRegistration { .. } => true,
            _ => false,
        };
        let mut keys: Vec<TxKey> = Vec::new();
        if !immediate && !contains_epoch(&self.active_epochs, epoch) {
            return keys;
        }
        if !self.reliable.enqueue((epoch, id), call) {
            return keys;
        }
        if immediate || self.recovered_epochs.contains_key(&epoch) {
            keys.push((epoch, id));
            assert(keys@ =~= seq![(epoch, id)]);
        }
        assert(self@ =~= before.with_call(epoch, call));
        keys
    }

    /// Takes the registration for an epoch, which waits for no recovery.
    pub fn submit_registration(&mut self, epoch: Epoch, block: SeqNum, registration: RegistrationCall) -> (keys:
        Vec<TxKey>)
        requires
            old(self).wf(),
        ensures
            final(self).wf(),
            ({
                let call = ChainCall::PostRegistration {
                    registration,
                    dkg: old(self)@.config.contract,
                };
                let ready = old(self)@.with_context(epoch, block);
                final(self)@ == ready.with_call(epoch, call) && keys@ == ready.attempts_call(
                    epoch,
                    call,
                )
            }),
    {
        let ghost before = self@;
        self.context_blocks.insert(epoch, block);
        assert(self@ =~= before.with_context(epoch, block));
        let dkg: Address = self.config.contract;
        self.submit(epoch, ChainCall::PostRegistration { registration, dkg })
    }

    /// The registrations for an epoch that are to be attempted again.
    pub fn retry_registration(&mut self, epoch: Epoch, block: SeqNum) -> (keys: Vec<TxKey>)
        requires
            old(self).wf(),
        ensures
            final(self).wf(),
            final(self)@ == old(self)@.with_context(epoch, block),
            lists_pending(keys@, old(self)@.submissions, epoch_registrations(epoch)),
    {
        let ghost before = self@;
        self.context_blocks.insert(epoch, block);
        assert(self@ =~= before.with_context(epoch, block));
        self.reliable.pending_keys(&RegistrationOf { epoch, wanted: true })
    }

    /// Settles the registration for an epoch.
    pub fn confirm_registration(&mut self, epoch: Epoch, registration: &RegistrationCall)
        requires
            old(self).wf(),
        ensures
            final(self).wf(),
            final(self)@ == (TxSubmitterView {
                submissions: old(self)@.submissions.settled(
                    (epoch, registration_tx_id(*registration)),
                ),
                ..old(self)@
            }),
    {
        let id: ChainTxId = ChainTxId::of_registration(registration);
        proof {
            lemma_registration_id(id, *registration);
        }
        self.reliable.confirm((epoch, id));
    }

    /// Drops the registrations for an epoch.
    pub fn cancel_registration(&mut self, epoch: Epoch)
        requires
            old(self).wf(),
        ensures
            final(self).wf(),
            final(self)@ == old(self)@.without_registrations(epoch),
    {
        let keep = RegistrationOf { epoch, wanted: false };
        self.reliable.keep_pending(&keep);
        assert(Set::new(|key: TxKey| keep.holds(key)) =~= epoch_registrations(epoch).complement());
    }

    /// Notes a finalized block of an epoch with its events. Returns the
    /// submissions to attempt: those of the epoch, once it is recovered.
    pub fn finalized_block(
        &mut self,
        epoch: Epoch,
        block: SeqNum,
        events: &Vec<ChainEvent>,
        recovery_complete_after: bool,
    ) -> (keys: Vec<TxKey>)
        requires
            old(self).wf(),
        ensures
            final(self).wf(),
            !old(self)@.active.contains(epoch) ==> final(self)@ == old(self)@ && keys@.len() == 0,
            old(self)@.active.contains(epoch) ==> {
                &&& final(self)@ == old(self)@.with_block(
                    epoch,
                    block,
                    event_views(events@),
                    recovery_complete_after,
                )
                &&& if final(self)@.recovered.contains(epoch) {
                    lists_pending(keys@, final(self)@.submissions, epoch_txs(epoch))
                } else {
                    keys@.len() == 0
                }
            },
    {
        if !contains_epoch(&self.active_epochs, epoch) {
            return Vec::new();
        }
        let ghost before = self@;
        self.context_blocks.insert(epoch, block);
        let ghost views = event_views(events@);
        let mut i: usize = 0;
        assert(views.take(0) =~= Seq::empty());
        while i < events.len()
            invariant
                i <= events@.len(),
                views == event_views(events@),
                self.wf(),
                before.active.contains(epoch),
                self@ == (TxSubmitterView {
                    contexts: before.contexts.insert(epoch, block),
                    submissions: events_settled(before.submissions, epoch, views.take(i as int)),
                    ..before
                }),
            decreases events@.len() - i,
        {
            let ghost pending = self@.submissions.pending;
            let ghost recovered = self@.recovered;
            let id: ChainTxId = ChainTxId::of_event(&events[i]);
            self.reliable.confirm((epoch, id));
            proof {
                assert forall|key: TxKey| #[trigger]
                    self@.submissions.pending.contains_key(key) implies key.1 is Registration
                    || self@.active.contains(key.0) by {
                    assert(pending.contains_key(key));
                }
                assert(self@.recovered == recovered);
                assert(views.take(i + 1).drop_last() =~= views.take(i as int));
                assert(views.take(i + 1).last() == events@[i as int]@);
            }
            i += 1;
        }
        assert(views.take(events@.len() as int) =~= views);
        if recovery_complete_after {
            self.recovered_epochs.insert(epoch, ());
        }
        assert(self@ =~= before.with_block(epoch, block, views, recovery_complete_after));
        if self.recovered_epochs.contains_key(&epoch) {
            self.reliable.pending_keys(&OfEpoch { epoch })
        } else {
            Vec::new()
        }
    }

    /// The newest context block.
    fn newest_context(&self) -> (block: Option<SeqNum>)
        requires
            self.wf(),
        ensures
            match block {
                Some(block) => {
                    &&& exists|epoch: Epoch| #[trigger]
                        self@.contexts.contains_key(epoch) && self@.contexts[epoch] == block
                    &&& forall|epoch: Epoch| #[trigger]
                        self@.contexts.contains_key(epoch) ==> self@.contexts[epoch].0 <= block.0
                },
                None => forall|epoch: Epoch| !(#[trigger] self@.contexts.contains_key(epoch)),
            },
    {
        let mut newest: Option<SeqNum> = None;
        let mut i: usize = 0;
        proof {
            crate::ordered_map::lemma_entries(self.context_blocks.entries());
        }
        while i < self.context_blocks.len()
            invariant
                self.wf(),
                i <= self.context_blocks.entries().len(),
                forall|k: int| #![trigger self.context_blocks.entries()[k]]
                    0 <= k < self.context_blocks.entries().len() ==> self.context_blocks@.contains_key(
                        self.context_blocks.entries()[k].0,
                    ) && self.context_blocks@[self.context_blocks.entries()[k].0]
                        == self.context_blocks.entries()[k].1,
                match newest {
                    Some(block) => {
                        &&& exists|epoch: Epoch| #[trigger]
                            self@.contexts.contains_key(epoch) && self@.contexts[epoch] == block
                        &&& forall|k: int|
                            0 <= k < i ==> (#[trigger] self.context_blocks.entries()[k]).1.0 <= block.0
                    },
                    None => i == 0,
                },
            decreases self.context_blocks.entries().len() - i,
        {
            let block: SeqNum = *self.context_blocks.value_at(i);
            let ghost epoch = self.context_blocks.entries()[i as int].0;
            assert(self@.contexts.contains_key(epoch) && self@.contexts[epoch] == block);
            newest =
            match newest {
                Some(earlier) => if earlier.0 >= block.0 {
                    Some(earlier)
                } else {
                    Some(block)
                },
                None => Some(block),
            };
            i += 1;
        }
        proof {
            crate::ordered_map::lemma_entries(self.context_blocks.entries());
            assert forall|epoch: Epoch| #[trigger] self@.contexts.contains_key(epoch) implies newest is Some
                && self@.contexts[epoch].0 <= newest->Some_0.0 by {
                let k = choose|k: int|
                    0 <= k < self.context_blocks.entries().len() && (
                    #[trigger] self.context_blocks.entries()[k]).0 == epoch;
                assert(self.context_blocks.entries()[k].1 == self@.contexts[epoch]);
            }
        }
        newest
    }

    /// What is to be done for the submissions with the keys `keys`.
    pub fn next_attempt(&self, keys: &Vec<TxKey>) -> (plan: AttemptPlan)
        requires
            self.wf(),
        ensures
            match self@.submissions.selected(keys@) {
                None => plan is Idle,
                Some(key) => if self@.has_context_block(key) {
                    plan matches AttemptPlan::ReadContext { key: planned, block } && planned == key
                        && self@.is_context_block(key, block)
                } else {
                    plan == (AttemptPlan::MissingContext { key })
                },
            },
    {
        let key: TxKey = match self.reliable.select(keys) {
            Some(key) => key,
            None => {
                return AttemptPlan::Idle;
            },
        };
        let block: Option<SeqNum> = if self.reliable.has_prepared() {
            match self.context_blocks.get(&key.0) {
                Some(block) => Some(*block),
                None => None,
            }
        } else {
            self.newest_context()
        };
        match block {
            Some(block) => AttemptPlan::ReadContext { key, block },
            None => AttemptPlan::MissingContext { key },
        }
    }

    /// Looks at the selected submission in the context that was read for it at a
    /// block.
    pub fn refresh(
        &mut self,
        key: TxKey,
        block: SeqNum,
        context: Result<DkgTransactionContext, DkgError>,
    ) -> (outcome: RefreshOutcome)
        requires
            old(self).wf(),
            old(self)@.submissions.pending.contains_key(key),
            old(self)@.submissions.prepared is Some ==> old(self)@.submissions.prepared->Some_0.0 == key,
        ensures
            final(self).wf(),
            refreshes(old(self)@, final(self)@, key, block, context, outcome),
    {
        let ghost before = self@;
        let context: DkgTransactionContext = match context {
            Ok(context) => context,
            Err(source) => {
                return RefreshOutcome::Failed(TxSubmissionError::ChainContext { block, source });
            },
        };
        let numbers: Option<PreparedTransaction> = match self.reliable.prepared(&key) {
            Some(prepared) => Some(
                PreparedTransaction {
                    nonce: prepared.fields.nonce,
                    max_fee_per_gas: prepared.fields.max_fee_per_gas,
                },
            ),
            None => None,
        };
        assert(numbers == prepared_numbers(before.submissions));
        match decide_refresh(numbers, context, self.config.max_priority_fee_per_gas) {
            RefreshDecision::Obsolete => {
                let refreshed: Refreshed<ChainCall> = self.reliable.refresh(
                    key,
                    PreparedState::Obsolete,
                );
                assert(self@ =~= TxSubmitterView {
                    submissions: before.submissions.settled(key),
                    ..before
                });
                match refreshed {
                    Refreshed::Retired(call) => RefreshOutcome::Retired(call),
                    Refreshed::Send => RefreshOutcome::Failed(
                        TxSubmissionError::Operation(DkgError::operation("retire submission")),
                    ),
                }
            },
            RefreshDecision::Keep => {
                match self.reliable.prepared(&key) {
                    Some(prepared) => RefreshOutcome::Send(prepared.duplicate()),
                    None => RefreshOutcome::Failed(
                        TxSubmissionError::Operation(DkgError::operation("keep submission")),
                    ),
                }
            },
            RefreshDecision::Prepare { max_fee_per_gas } => {
                match self.reliable.pending(&key) {
                    Some(call) => match self.config.contract_call(key.0, call, &self.signer) {
                        Ok(call) => RefreshOutcome::Prepare {
                            call,
                            nonce: context.nonce,
                            max_fee_per_gas,
                            base_fee_per_gas: context.base_fee_per_gas,
                        },
                        Err(error) => RefreshOutcome::Failed(TxSubmissionError::Operation(error)),
                    },
                    None => RefreshOutcome::Failed(
                        TxSubmissionError::Operation(DkgError::operation("find submission")),
                    ),
                }
            },
        }
    }

    /// Signs the transaction of the selected submission. Returns it to be sent.
    pub fn prepare(
        &mut self,
        key: TxKey,
        nonce: u64,
        max_fee_per_gas: u128,
        base_fee_per_gas: u64,
        input: Vec<u8>,
    ) -> (result: Result<PreparedTx, DkgError>)
        requires
            old(self).wf(),
            old(self)@.submissions.pending.contains_key(key),
            old(self)@.submissions.prepared is Some ==> old(self)@.submissions.prepared->Some_0.0 == key,
        ensures
            final(self).wf(),
            signs(
                old(self)@,
                final(self)@,
                key,
                nonce,
                max_fee_per_gas,
                base_fee_per_gas,
                input@,
                result,
            ),
            result matches Ok(prepared) ==> {
                &&& prepared.fields.chain_id == old(self)@.config.chain_id
                &&& prepared.fields.nonce == nonce
                &&& prepared.fields.gas_limit == old(self)@.config.gas_limit
                &&& prepared.fields.max_fee_per_gas == max_fee_per_gas
                &&& prepared.fields.max_priority_fee_per_gas == old(
                    self,
                )@.config.max_priority_fee_per_gas
                &&& prepared.fields.to == old(self)@.config.contract
                &&& prepared.fields.value == 0
                &&& prepared.fields.input@ == input@
            },
    {
        match self.config.prepare(&self.signing_key, nonce, max_fee_per_gas, base_fee_per_gas, input) {
            Ok(prepared) => {
                let copy: PreparedTx = prepared.duplicate();
                let ghost before = self@;
                self.reliable.refresh(key, PreparedState::Replace(prepared));
                assert(self@ =~= TxSubmitterView {
                    submissions: SubmissionsView {
                        prepared: self@.submissions.prepared,
                        ..before.submissions
                    },
                    ..before
                });
                Ok(copy)
            },
            Err(error) => Err(error),
        }
    }
}

/// The nonce and the fee of the prepared transaction.
pub open spec fn prepared_numbers(submissions: TxSubmissions) -> Option<PreparedTransaction> {
    match submissions.prepared {
        Some((_, prepared)) => Some(
            PreparedTransaction {
                nonce: prepared.fields.nonce,
                max_fee_per_gas: prepared.fields.max_fee_per_gas,
            },
        ),
        None => None,
    }
}

/// A call whose artifact an event reported is never submitted again.
pub proof fn law_reported_artifact_is_not_submitted_again(
    submitter: TxSubmitterView,
    epoch: Epoch,
    block: SeqNum,
    events: Seq<ChainEventView>,
    place: int,
    complete: bool,
    call: ChainCall,
)
    requires
        0 <= place < events.len(),
        call_tx_id(call) == event_tx_id(events[place]),
    ensures
        !submitter.with_block(epoch, block, events, complete).takes(epoch, call),
        submitter.with_block(epoch, block, events, complete).attempts_call(epoch, call).len() == 0,
{
    lemma_events_are_settled(submitter.submissions, epoch, events, place);
}

proof fn lemma_events_are_settled(
    submissions: TxSubmissions,
    epoch: Epoch,
    events: Seq<ChainEventView>,
    place: int,
)
    requires
        0 <= place < events.len(),
    ensures
        events_settled(submissions, epoch, events).finalized.contains(
            (epoch, event_tx_id(events[place])),
        ),
    decreases events.len(),
{
    if place < events.len() - 1 {
        lemma_events_are_settled(submissions, epoch, events.drop_last(), place);
        assert(events.drop_last()[place] == events[place]);
    }
}

pub(crate) proof fn lemma_settled_stays(
    submissions: TxSubmissions,
    epoch: Epoch,
    events: Seq<ChainEventView>,
    key: TxKey,
)
    requires
        submissions.finalized.contains(key),
    ensures
        events_settled(submissions, epoch, events).finalized.contains(key),
    decreases events.len(),
{
    if events.len() > 0 {
        lemma_settled_stays(submissions, epoch, events.drop_last(), key);
    }
}

/// A call of an epoch that is not live is refused, unless it is a registration.
pub proof fn law_late_call_is_refused(submitter: TxSubmitterView, epoch: Epoch, call: ChainCall)
    requires
        !submitter.active.contains(epoch),
        !(call is PostRegistration),
    ensures
        submitter.with_call(epoch, call) == submitter,
        submitter.attempts_call(epoch, call).len() == 0,
{
}

/// The newest session is always live, and no more than two are.
pub proof fn law_newest_session_is_live(active: Seq<Epoch>, epoch: Epoch)
    requires
        ascending(active),
        active.len() <= MAX_RETAINED_DKG_SESSIONS,
    ensures
        started_epochs(active, epoch).len() <= MAX_RETAINED_DKG_SESSIONS,
        active.len() == 0 || active.last().0 < epoch.0 ==> started_epochs(active, epoch).last() == epoch,
{
    if active.contains(epoch) && active.len() > 0 && active.last().0 < epoch.0 {
        let i = choose|i: int| 0 <= i < active.len() && active[i] == epoch;
        if i < active.len() - 1 {
            assert(active[i].before(active[active.len() - 1]));
        }
    }
}

/// What is signed for a submission carries the configuration of the submitter, is
/// kept as its prepared transaction, and is signed with the submitter's key.
pub proof fn law_signed_submission_carries_the_configuration(
    before: TxSubmitterView,
    after: TxSubmitterView,
    key: TxKey,
    nonce: u64,
    max_fee_per_gas: u128,
    base_fee_per_gas: u64,
    input: Seq<u8>,
    result: Result<PreparedTx, DkgError>,
)
    requires
        signs(before, after, key, nonce, max_fee_per_gas, base_fee_per_gas, input, result),
        result is Ok,
    ensures
        result->Ok_0@.chain_id == before.config.chain_id,
        result->Ok_0@.gas_limit == before.config.gas_limit,
        result->Ok_0@.max_priority_fee_per_gas == before.config.max_priority_fee_per_gas,
        result->Ok_0@.to == before.config.contract,
        result->Ok_0@.value == 0,
        result->Ok_0@.nonce == nonce,
        result->Ok_0@.max_fee_per_gas == max_fee_per_gas,
        result->Ok_0@.input == input,
        crate::chain::tx::is_signed_with(result->Ok_0@, before.signing_key@),
        after.submissions.prepared is Some,
        after.submissions.prepared->Some_0.0 == key,
        after.submissions.prepared->Some_0.1@ == result->Ok_0@,
        after.submissions.pending == before.submissions.pending,
        after.submissions.finalized == before.submissions.finalized,
{
}

/// A session that is newer than all others becomes active; where there are too
/// many, the oldest one goes. A session that is there, or older than the newest,
/// changes nothing.
pub proof fn law_started_session_replaces_the_oldest(active: Seq<Epoch>, epoch: Epoch)
    requires
        active.len() <= MAX_RETAINED_DKG_SESSIONS,
        ascending(active),
    ensures
        active.contains(epoch) ==> started_epochs(active, epoch) == active,
        active.len() > 0 && epoch.0 < active.last().0 ==> started_epochs(active, epoch) == active,
        active.len() == 0 || active.last().0 < epoch.0 ==> if active.len() < MAX_RETAINED_DKG_SESSIONS {
            started_epochs(active, epoch) == active.push(epoch)
        } else {
            started_epochs(active, epoch) == active.skip(1).push(epoch)
        },
{
    if active.len() == 0 || active.last().0 < epoch.0 {
        if active.contains(epoch) {
            let i = choose|i: int| 0 <= i < active.len() && active[i] == epoch;
            if i < active.len() - 1 {
                assert(active[i].before(active[active.len() - 1]));
            }
        }
        if active.len() >= MAX_RETAINED_DKG_SESSIONS {
            assert(active.push(epoch).skip(1) =~= active.skip(1).push(epoch));
        }
    }
}

/// A new session drops the submissions of sessions that ended, and keeps those of
/// live sessions and the registrations for later epochs.
pub proof fn law_new_session_keeps_live_submissions(
    submitter: TxSubmitterView,
    epoch: Epoch,
    key: TxKey,
)
    requires
        submitter.active.len() == 0 || submitter.active.last().0 < epoch.0,
        submitter.active.len() < MAX_RETAINED_DKG_SESSIONS,
        !submitter.active.contains(epoch),
    ensures
        ({
            let after = submitter.with_session(epoch);
            let live = submitter.active.contains(key.0) || key.0 == epoch || (key.0.0 > epoch.0
                && key.1 is Registration);
            &&& after.active == submitter.active.push(epoch)
            &&& after.submissions.pending.contains_key(key)
                <==> submitter.submissions.pending.contains_key(key) && live
            &&& after.submissions.finalized.contains(key)
                <==> submitter.submissions.finalized.contains(key) && live
            &&& submitter.submissions.prepared matches Some((prepared, _)) ==> (
            after.submissions.prepared is Some <==> after.submissions.pending.contains_key(prepared))
            &&& after.recovered.contains(key.0) <==> submitter.recovered.contains(key.0) && (
            submitter.active.contains(key.0) || key.0 == epoch)
            &&& after.contexts.contains_key(key.0) <==> submitter.contexts.contains_key(key.0) && (
            submitter.active.contains(key.0) || key.0 == epoch || key.0.0 > epoch.0)
            &&& after.config == submitter.config
            &&& after.signer == submitter.signer
        }),
{
    let active = submitter.active.push(epoch);
    assert(active != submitter.active) by {
        assert(active.len() != submitter.active.len());
    }
    assert(active.last() == epoch);
    assert(active.contains(key.0) <==> submitter.active.contains(key.0) || key.0 == epoch) by {
        if submitter.active.contains(key.0) {
            let i = choose|i: int|
                0 <= i < submitter.active.len() && submitter.active[i] == key.0;
            assert(active[i] == key.0);
        }
        if key.0 == epoch {
            assert(active[active.len() - 1] == key.0);
        }
        if active.contains(key.0) {
            let i = choose|i: int| 0 <= i < active.len() && active[i] == key.0;
            if i < submitter.active.len() {
                assert(submitter.active[i] == key.0);
            }
        }
    }
}

/// A registration is taken in any epoch and attempted at once; any other call is
/// taken in a live epoch and attempted once the events of that epoch are
/// recovered. What is pending or settled is not taken again.
pub proof fn law_call_waits_for_recovery(submitter: TxSubmitterView, epoch: Epoch, call: ChainCall)
    ensures
        ({
            let key = (epoch, call_tx_id(call));
            let fresh = !submitter.submissions.pending.contains_key(key)
                && !submitter.submissions.finalized.contains(key);
            let taken = fresh && (call is PostRegistration || submitter.active.contains(epoch));
            let after = submitter.with_call(epoch, call);
            &&& taken ==> after.submissions.pending.contains_key(key) && after.submissions.pending[key]
                == call
            &&& !taken ==> after == submitter
            &&& submitter.attempts_call(epoch, call).len() > 0 <==> taken && (call is PostRegistration
                || submitter.recovered.contains(epoch))
            &&& submitter.attempts_call(epoch, call).len() > 0 ==> submitter.attempts_call(epoch, call)
                == seq![key]
            &&& after.submissions.finalized == submitter.submissions.finalized
            &&& after.submissions.prepared == submitter.submissions.prepared
            &&& forall|other: TxKey| other != key ==> (#[trigger] after.submissions.pending.contains_key(
                other,
            ) <==> submitter.submissions.pending.contains_key(other))
        }),
{
}

/// A finalized block becomes the context of its epoch, settles what its events
/// report in that epoch and nothing else, and ends the recovery where it says so.
pub proof fn law_block_settles_what_it_reports(
    submitter: TxSubmitterView,
    epoch: Epoch,
    block: SeqNum,
    events: Seq<ChainEventView>,
    complete: bool,
    key: TxKey,
)
    ensures
        ({
            let after = submitter.with_block(epoch, block, events, complete);
            let reported = key.0 == epoch && exists|i: int|
                0 <= i < events.len() && event_tx_id(#[trigger] events[i]) == key.1;
            &&& after.contexts.contains_key(epoch) && after.contexts[epoch] == block
            &&& after.recovered.contains(epoch) <==> complete || submitter.recovered.contains(epoch)
            &&& after.active == submitter.active
            &&& after.submissions.pending.contains_key(key)
                <==> submitter.submissions.pending.contains_key(key) && !reported
            &&& after.submissions.finalized.contains(key)
                <==> submitter.submissions.finalized.contains(key) || reported
        }),
{
    lemma_events_settle(submitter.submissions, epoch, events, key);
}

proof fn lemma_events_settle(
    submissions: TxSubmissions,
    epoch: Epoch,
    events: Seq<ChainEventView>,
    key: TxKey,
)
    ensures
        ({
            let after = events_settled(submissions, epoch, events);
            let reported = key.0 == epoch && exists|i: int|
                0 <= i < events.len() && event_tx_id(#[trigger] events[i]) == key.1;
            &&& after.pending.contains_key(key) <==> submissions.pending.contains_key(key) && !reported
            &&& after.finalized.contains(key) <==> submissions.finalized.contains(key) || reported
        }),
    decreases events.len(),
{
    if events.len() > 0 {
        let earlier = events.drop_last();
        lemma_events_settle(submissions, epoch, earlier, key);
        if exists|i: int| 0 <= i < earlier.len() && event_tx_id(#[trigger] earlier[i]) == key.1 {
            let i = choose|i: int| 0 <= i < earlier.len() && event_tx_id(#[trigger] earlier[i]) == key.1;
            assert(events[i] == earlier[i]);
        }
        if exists|i: int| 0 <= i < events.len() && event_tx_id(#[trigger] events[i]) == key.1 {
            let i = choose|i: int| 0 <= i < events.len() && event_tx_id(#[trigger] events[i]) == key.1;
            if i < earlier.len() {
                assert(earlier[i] == events[i]);
            }
        }
        assert(events.last() == events[events.len() - 1]);
    }
}

/// Cancelling a registration drops the registrations of one epoch that wait, and
/// nothing else.
pub proof fn law_cancelled_registration_is_dropped(
    submitter: TxSubmitterView,
    epoch: Epoch,
    key: TxKey,
)
    ensures
        ({
            let after = submitter.without_registrations(epoch);
            &&& after.submissions.pending.contains_key(key)
                <==> submitter.submissions.pending.contains_key(key) && !(key.0 == epoch
                && key.1 is Registration)
            &&& after.submissions.finalized == submitter.submissions.finalized
            &&& submitter.submissions.prepared matches Some((prepared, _)) ==> (
            after.submissions.prepared is Some <==> after.submissions.pending.contains_key(prepared))
        }),
{
}

/// A submission is attempted in the newest context that is known; a prepared one
/// stays with the context of its own epoch.
pub proof fn law_attempt_reads_the_newest_context(
    submitter: TxSubmitterView,
    key: TxKey,
    block: SeqNum,
    epoch: Epoch,
)
    requires
        submitter.is_context_block(key, block),
        submitter.contexts.contains_key(epoch),
    ensures
        submitter.submissions.prepared is None ==> submitter.contexts[epoch].0 <= block.0,
        submitter.submissions.prepared is Some ==> submitter.contexts[key.0] == block,
        exists|known: Epoch| #[trigger]
            submitter.contexts.contains_key(known) && submitter.contexts[known] == block,
        submitter.has_context_block(key),
{
    if submitter.submissions.prepared is Some {
        assert(submitter.contexts.contains_key(key.0));
    }
}

/// A prepared transaction whose nonce the chain has used retires its call; one that
/// still covers the fee cap is sent again as it is; a failed read of the chain
/// changes nothing.
pub proof fn law_refresh_retires_used_nonces(
    before: TxSubmitterView,
    after: TxSubmitterView,
    key: TxKey,
    prepared: PreparedTx,
    block: SeqNum,
    context: Result<DkgTransactionContext, DkgError>,
    outcome: RefreshOutcome,
)
    requires
        before.submissions.prepared == Some((key, prepared)),
        refreshes(before, after, key, block, context, outcome),
    ensures
        context is Err ==> after == before && outcome is Failed,
        context matches Ok(known) ==> {
            &&& prepared.fields.nonce < known.nonce ==> {
                &&& outcome == RefreshOutcome::Retired(before.submissions.pending[key])
                &&& !after.submissions.pending.contains_key(key)
                &&& after.submissions.prepared is None
                &&& after.submissions.finalized.contains(key)
            }
            &&& prepared.fields.nonce >= known.nonce ==> after == before
            &&& prepared.fields.nonce > known.nonce ==> (outcome matches RefreshOutcome::Send(sent)
                && sent@ == prepared@)
            &&& outcome matches RefreshOutcome::Prepare { nonce, max_fee_per_gas, base_fee_per_gas, .. }
                ==> nonce == known.nonce && max_fee_per_gas > prepared.fields.max_fee_per_gas
                && base_fee_per_gas == known.base_fee_per_gas
        },
{
}

/// Pending submissions are listed by epoch, and registrations by epoch and kind.
pub proof fn law_listed_submissions_are_of_their_epoch(
    keys: Seq<TxKey>,
    submissions: TxSubmissions,
    epoch: Epoch,
    key: TxKey,
)
    ensures
        lists_pending(keys, submissions, epoch_txs(epoch)) ==> (keys.contains(key)
            <==> submissions.pending.contains_key(key) && key.0 == epoch),
        lists_pending(keys, submissions, epoch_registrations(epoch)) ==> (keys.contains(key)
            <==> submissions.pending.contains_key(key) && key.0 == epoch && key.1 is Registration),
{
}

} // verus!
