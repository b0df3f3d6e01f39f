//! Calls of the contract on finalized state.

use crate::chain::codec::{ContractCodecError, ContractRegistration};
use crate::chain::pages::{
    is_reported, parse_chain_id, reported_registration, ChainId, ChainNumbers, DkgVmContext,
    TriedbStateError, VmStateObservation,
};
use crate::chain::tx::TransactionFields;
use crate::chain::types::RegistrationCall;
use crate::dkg::ids::{Address, SeqNum};
use vstd::prelude::*;

verus! {

/// Why the execution state gave no answer.
#[derive(Clone, Copy, Debug, PartialEq, Eq, Structural)]
pub enum StateReadError {
    NotAvailableYet,
    Failed,
}

/// The error of a read at `block`: missing state is worth waiting for.
pub open spec fn state_error(error: StateReadError, block: SeqNum) -> TriedbStateError {
    match error {
        StateReadError::NotAvailableYet => TriedbStateError::NotAvailable { block: block.0 },
        StateReadError::Failed => TriedbStateError::StateRead,
    }
}

fn read_error(error: StateReadError, block: SeqNum) -> (mapped: TriedbStateError)
    ensures
        mapped == state_error(error, block),
{
    match error {
        StateReadError::NotAvailableYet => TriedbStateError::NotAvailable { block: block.0 },
        StateReadError::Failed => TriedbStateError::StateRead,
    }
}

/// What a call came to.
#[derive(Debug)]
pub enum CallResult {
    Success(Vec<u8>),
    Failure,
    /// The call was reverted, with a trace of so many bytes.
    Revert { trace_len: usize },
}

/// The output of a call at `block`, if it has one.
pub fn call_output(block: SeqNum, result: CallResult) -> (output: Result<Vec<u8>, TriedbStateError>)
    ensures
        output == (match result {
            CallResult::Success(bytes) => Ok(bytes),
            CallResult::Failure => Err(TriedbStateError::CallFailed { block: block.0 }),
            CallResult::Revert { trace_len } => Err(
                TriedbStateError::CallReverted { block: block.0, trace_len },
            ),
        }),
{
    match result {
        CallResult::Success(bytes) => Ok(bytes),
        CallResult::Failure => Err(TriedbStateError::CallFailed { block: block.0 }),
        CallResult::Revert { trace_len } => Err(
            TriedbStateError::CallReverted { block: block.0, trace_len },
        ),
    }
}

/// What the contract reports of a party's registration.
#[derive(Clone, Copy, Debug)]
pub struct RegistrationReport {
    pub exists: bool,
    pub registration: ContractRegistration,
}

/// How calls on finalized state are made.
#[derive(Clone, Copy, Debug, PartialEq, Eq, Structural)]
pub struct TriedbDkgStateReader {
    pub chain_id: ChainId,
    pub numeric_chain_id: u64,
    pub execution_delay: SeqNum,
}

impl TriedbDkgStateReader {
    /// A reader for a chain, which must be one that calls can be made on.
    pub fn new(numeric_chain_id: u64, execution_delay: SeqNum, numbers: &ChainNumbers) -> (result: Result<
        Self,
        TriedbStateError,
    >)
        ensures
            match numbers.chain(numeric_chain_id) {
                Some(chain_id) => result == Ok::<Self, TriedbStateError>(
                    TriedbDkgStateReader { chain_id, numeric_chain_id, execution_delay },
                ),
                None => result == Err::<Self, TriedbStateError>(
                    TriedbStateError::UnsupportedChainId { chain_id: numeric_chain_id },
                ),
            },
    {
        match parse_chain_id(numeric_chain_id, numbers) {
            Ok(chain_id) => Ok(TriedbDkgStateReader { chain_id, numeric_chain_id, execution_delay }),
            Err(error) => Err(error),
        }
    }

    /// The context for calls at `block`, from the gas limit in the block's header
    /// and whether the contract's account has code.
    pub fn state_context(
        &self,
        block: SeqNum,
        contract: Address,
        latest_finalized: Option<SeqNum>,
        header: Result<u64, StateReadError>,
        account: Result<Option<bool>, StateReadError>,
    ) -> (result: Result<DkgVmContext, TriedbStateError>)
        ensures
            result == (match (header, account) {
                (Err(error), _) => Err(state_error(error, block)),
                (Ok(_), Err(error)) => Err(state_error(error, block)),
                (Ok(block_gas_limit), Ok(account)) => (VmStateObservation {
                    latest_finalized,
                    block_gas_limit,
                    contract_exists: account == Some(true),
                }).context(block, self.execution_delay, contract),
            }),
    {
        let block_gas_limit: u64 = match header {
            Ok(block_gas_limit) => block_gas_limit,
            Err(error) => {
                return Err(read_error(error, block));
            },
        };
        let contract_exists: bool = match account {
            Ok(Some(has_code)) => has_code,
            Ok(None) => false,
            Err(error) => {
                return Err(read_error(error, block));
            },
        };
        VmStateObservation { latest_finalized, block_gas_limit, contract_exists }.validate(
            block,
            self.execution_delay,
            contract,
        )
    }

    /// The transaction of a call: it pays nothing and sends nothing.
    pub fn call_transaction(&self, context: DkgVmContext, contract: Address, input: Vec<u8>) -> (fields:
        TransactionFields)
        ensures
            fields == (TransactionFields {
                chain_id: self.numeric_chain_id,
                nonce: 0,
                gas_limit: context.gas_limit,
                max_fee_per_gas: 0,
                max_priority_fee_per_gas: 0,
                to: contract,
                value: 0,
                input,
            }),
    {
        TransactionFields {
            chain_id: self.numeric_chain_id,
            nonce: 0,
            gas_limit: context.gas_limit,
            max_fee_per_gas: 0,
            max_priority_fee_per_gas: 0,
            to: contract,
            value: 0,
            input,
        }
    }
}

/// The first of `reports` that holds no registration of its party, if any.
pub open spec fn first_invalid(reports: Seq<RegistrationReport>) -> Option<ContractCodecError>
    decreases reports.len(),
{
    if reports.len() == 0 {
        None
    } else {
        match first_invalid(reports.drop_last()) {
            Some(error) => Some(error),
            None => if reports.last().exists && !reports.last().registration.is_valid() {
                Some(
                    ContractCodecError::InvalidQcVerifier {
                        address: reports.last().registration.qc_verifier,
                    },
                )
            } else {
                None
            },
        }
    }
}

proof fn lemma_first_invalid(reports: Seq<RegistrationReport>, count: int)
    requires
        0 <= count <= reports.len(),
        first_invalid(reports.take(count)) is Some,
    ensures
        first_invalid(reports) == first_invalid(reports.take(count)),
    decreases reports.len(),
{
    if count < reports.len() {
        assert(reports.drop_last().take(count) =~= reports.take(count));
        lemma_first_invalid(reports.drop_last(), count);
    } else {
        assert(reports.take(count) =~= reports);
    }
}

/// The registrations of `parties`, one for each, from what the contract reports
/// of them. A report without a valid registration refuses them all.
pub fn read_registrations(parties: &Vec<Address>, reports: &Vec<RegistrationReport>) -> (result: Result<
    Vec<Option<RegistrationCall>>,
    TriedbStateError,
>)
    requires
        parties@.len() == reports@.len(),
    ensures
        match first_invalid(reports@) {
            Some(error) => result == Err::<Vec<Option<RegistrationCall>>, _>(
                TriedbStateError::Contract(error),
            ),
            None => result matches Ok(registrations) && {
                &&& registrations@.len() == parties@.len()
                &&& forall|i: int| #![trigger registrations@[i]]
                    0 <= i < parties@.len() ==> is_reported(
                        registrations@[i],
                        reports@[i].exists,
                        reports@[i].registration,
                        parties@[i],
                    )
            },
        },
{
    let mut registrations: Vec<Option<RegistrationCall>> = Vec::new();
    let mut i: usize = 0;
    while i < parties.len()
        invariant
            i <= parties@.len(),
            parties@.len() == reports@.len(),
            registrations@.len() == i,
            first_invalid(reports@.take(i as int)) is None,
            forall|j: int| #![trigger registrations@[j]]
                0 <= j < i ==> is_reported(
                    registrations@[j],
                    reports@[j].exists,
                    reports@[j].registration,
                    parties@[j],
                ),
        decreases parties@.len() - i,
    {
        let report: RegistrationReport = reports[i];
        proof {
            assert(reports@.take(i + 1).drop_last() =~= reports@.take(i as int));
            assert(reports@.take(i + 1).last() == report);
        }
        match reported_registration(report.exists, report.registration, parties[i]) {
            Ok(registration) => registrations.push(registration),
            Err(error) => {
                proof {
                    lemma_first_invalid(reports@, i + 1);
                }
                return Err(TriedbStateError::Contract(error));
            },
        }
        i += 1;
    }
    assert(reports@.take(i as int) =~= reports@);
    Ok(registrations)
}

/// The first registration that is there but invalid is reported, and none is where
/// all of them are valid or missing.
pub proof fn law_first_invalid_registration_is_reported(reports: Seq<RegistrationReport>, i: int)
    requires
        0 <= i < reports.len(),
        reports[i].exists,
        !reports[i].registration.is_valid(),
        forall|j: int|
            0 <= j < i ==> !(#[trigger] reports[j]).exists || reports[j].registration.is_valid(),
    ensures
        first_invalid(reports) == Some(
            ContractCodecError::InvalidQcVerifier { address: reports[i].registration.qc_verifier },
        ),
    decreases reports.len(),
{
    let fewer = reports.drop_last();
    if i < fewer.len() {
        assert(fewer[i] == reports[i]);
        assert forall|j: int| 0 <= j < i implies !(#[trigger] fewer[j]).exists
            || fewer[j].registration.is_valid() by {
            assert(fewer[j] == reports[j]);
        }
        law_first_invalid_registration_is_reported(fewer, i);
    } else {
        assert(reports.last() == reports[i]);
        assert forall|j: int| 0 <= j < fewer.len() implies !(#[trigger] fewer[j]).exists
            || fewer[j].registration.is_valid() by {
            assert(fewer[j] == reports[j]);
        }
        lemma_none_invalid(fewer);
    }
}

proof fn lemma_none_invalid(reports: Seq<RegistrationReport>)
    requires
        forall|j: int|
            0 <= j < reports.len() ==> !(#[trigger] reports[j]).exists
                || reports[j].registration.is_valid(),
    ensures
        first_invalid(reports) is None,
    decreases reports.len(),
{
    if reports.len() > 0 {
        let fewer = reports.drop_last();
        assert forall|j: int| 0 <= j < fewer.len() implies !(#[trigger] fewer[j]).exists
            || fewer[j].registration.is_valid() by {
            assert(fewer[j] == reports[j]);
        }
        lemma_none_invalid(fewer);
        assert(reports.last() == reports[reports.len() - 1]);
    }
}

/// State that is not there yet is asked for again; any other failure to read is an
/// error.
pub proof fn law_missing_state_is_asked_for_again(block: SeqNum)
    ensures
        state_error(StateReadError::NotAvailableYet, block) == (TriedbStateError::NotAvailable {
            block: block.0,
        }),
        state_error(StateReadError::Failed, block) is StateRead,
{
}

} // verus!
