//! Assembling a session from the registrations of its validators.

use crate::chain::types::RegistrationCall;
use crate::dkg::error::DkgError;
use crate::dkg::ids::{Address, Epoch, NodeId, PartyId};
use crate::dkg::weights::Stake;
use crate::order::ascending;
use crate::ordered_map::{lemma_sorted_set, sort_set, sorted_set};
use crate::reliable::message::same_key;
use vstd::prelude::*;

verus! {

/// A finalized validator.
#[derive(Clone, Copy, Debug)]
pub struct DkgValidator {
    pub node_id: NodeId,
    pub address: Address,
    pub stake: Stake,
}

/// What the protocol's verification says of a registration.
#[derive(Clone, Copy, Debug, PartialEq, Eq, Structural)]
pub enum ProofCheck {
    /// Its keys are no curve points.
    Undecodable,
    /// Its proof cannot be checked.
    Unverifiable,
    /// Its proof is wrong.
    Invalid,
    Valid,
}

/// A registration with the outcome of its verification.
#[derive(Clone, Copy, Debug)]
pub struct CheckedRegistration {
    pub call: RegistrationCall,
    pub check: ProofCheck,
}

/// The public counterparts of the local keys.
#[derive(Clone, Copy, Debug)]
pub struct LocalPublicKeys {
    pub receiver_public_key: [u8; 33],
    pub qc_verifier: Address,
}

/// Why registrations make no session.
#[allow(inconsistent_fields)]
#[derive(Clone, Copy, Debug)]
pub enum RegistrationError {
    DuplicateValidatorAddress { address: Address },
    NoEligibleValidator,
    RegistrationCountMismatch { expected: usize, actual: usize },
    LocalKeys(DkgError),
    ReceiverKeyMismatch,
    QcVerifierMismatch,
    Decode { address: Address },
    AddressMismatch { requested: Address, encoded: Address },
    Verification { address: Address },
    InvalidReceiverProof { address: Address, epoch: Epoch },
}

/// A validator that takes part in a session.
#[derive(Clone, Copy, Debug)]
pub struct RegisteredParty {
    pub node_id: NodeId,
    pub stake: Stake,
    pub registration: RegistrationCall,
}

/// The registration that stands for `address` in `epoch`, or what is wrong with it.
pub open spec fn verified(address: Address, epoch: Epoch, registration: CheckedRegistration) -> Result<
    RegistrationCall,
    RegistrationError,
> {
    if registration.check == ProofCheck::Undecodable {
        Err(RegistrationError::Decode { address })
    } else if registration.call.address != address {
        Err(
            RegistrationError::AddressMismatch {
                requested: address,
                encoded: registration.call.address,
            },
        )
    } else {
        match registration.check {
            ProofCheck::Unverifiable => Err(RegistrationError::Verification { address }),
            ProofCheck::Invalid => Err(RegistrationError::InvalidReceiverProof { address, epoch }),
            _ => Ok(registration.call),
        }
    }
}

/// Whether a registration holds the public counterparts of the local keys.
pub open spec fn key_mismatch(registration: RegistrationCall, local: LocalPublicKeys) -> Option<
    RegistrationError,
> {
    if registration.receiver_public_key != local.receiver_public_key {
        Some(RegistrationError::ReceiverKeyMismatch)
    } else if registration.qc_verifier != local.qc_verifier {
        Some(RegistrationError::QcVerifierMismatch)
    } else {
        None
    }
}

/// The addresses of validators.
pub open spec fn addresses_of(validators: Seq<DkgValidator>) -> Seq<Address> {
    validators.map_values(|validator: DkgValidator| validator.address)
}

/// The first address that an earlier validator has too.
pub open spec fn repeated_address(validators: Seq<DkgValidator>) -> Option<Address>
    decreases validators.len(),
{
    if validators.len() == 0 {
        None
    } else {
        match repeated_address(validators.drop_last()) {
            Some(address) => Some(address),
            None => if addresses_of(validators.drop_last()).contains(validators.last().address) {
                Some(validators.last().address)
            } else {
                None
            },
        }
    }
}

/// The validators that have a registration, in the order of the validators, or
/// the first refusal.
pub open spec fn eligible(
    epoch: Epoch,
    validators: Seq<DkgValidator>,
    registrations: Seq<Option<CheckedRegistration>>,
) -> Result<Seq<RegisteredParty>, RegistrationError>
    decreases validators.len(),
{
    if validators.len() == 0 {
        Ok(Seq::empty())
    } else {
        let validator = validators.last();
        match eligible(epoch, validators.drop_last(), registrations.drop_last()) {
            Err(error) => Err(error),
            Ok(parties) => match registrations.last() {
                None => Ok(parties),
                Some(registration) => match verified(validator.address, epoch, registration) {
                    Err(error) => Err(error),
                    Ok(call) => Ok(
                        parties.push(
                            RegisteredParty {
                                node_id: validator.node_id,
                                stake: validator.stake,
                                registration: call,
                            },
                        ),
                    ),
                },
            },
        }
    }
}

/// The first party of a node.
pub open spec fn party_of(parties: Seq<RegisteredParty>, node_id: NodeId) -> Option<RegisteredParty>
    decreases parties.len(),
{
    if parties.len() == 0 {
        None
    } else if parties[0].node_id == node_id {
        Some(parties[0])
    } else {
        party_of(parties.skip(1), node_id)
    }
}

/// What is wrong with the own registration among `parties`.
pub open spec fn own_refusal(
    parties: Seq<RegisteredParty>,
    self_id: NodeId,
    local: Result<LocalPublicKeys, DkgError>,
) -> Option<RegistrationError> {
    match local {
        Err(error) => Some(RegistrationError::LocalKeys(error)),
        Ok(local) => match party_of(parties, self_id) {
            Some(party) => key_mismatch(party.registration, local),
            None => None,
        },
    }
}

/// The parties of a session, or why there is none.
pub open spec fn assembled(
    epoch: Epoch,
    self_id: NodeId,
    validators: Seq<DkgValidator>,
    local: Result<LocalPublicKeys, DkgError>,
    registrations: Seq<Option<CheckedRegistration>>,
) -> Result<Seq<RegisteredParty>, RegistrationError> {
    if repeated_address(validators) is Some {
        Err(
            RegistrationError::DuplicateValidatorAddress {
                address: repeated_address(validators)->Some_0,
            },
        )
    } else if registrations.len() != validators.len() {
        Err(
            RegistrationError::RegistrationCountMismatch {
                expected: validators.len() as usize,
                actual: registrations.len() as usize,
            },
        )
    } else {
        match eligible(epoch, validators, registrations) {
            Err(error) => Err(error),
            Ok(parties) => if parties.len() == 0 {
                Err(RegistrationError::NoEligibleValidator)
            } else {
                match own_refusal(parties, self_id, local) {
                    Some(error) => Err(error),
                    None => Ok(parties),
                }
            },
        }
    }
}

/// Checks that a registration stands for `address` in `epoch`.
pub fn verify_registration(address: Address, epoch: Epoch, registration: &CheckedRegistration) -> (result:
    Result<RegistrationCall, RegistrationError>)
    ensures
        result == verified(address, epoch, *registration),
{
    if registration.check == ProofCheck::Undecodable {
        return Err(RegistrationError::Decode { address });
    }
    if !same_key(&registration.call.address, &address) {
        return Err(
            RegistrationError::AddressMismatch {
                requested: address,
                encoded: registration.call.address,
            },
        );
    }
    match registration.check {
        ProofCheck::Unverifiable => Err(RegistrationError::Verification { address }),
        ProofCheck::Invalid => Err(RegistrationError::InvalidReceiverProof { address, epoch }),
        _ => Ok(registration.call),
    }
}

fn check_own_keys(registration: &RegistrationCall, local: &LocalPublicKeys) -> (result: Result<
    (),
    RegistrationError,
>)
    ensures
        result == (match key_mismatch(*registration, *local) {
            Some(error) => Err::<(), _>(error),
            None => Ok(()),
        }),
{
    if !same_key(&registration.receiver_public_key, &local.receiver_public_key) {
        return Err(RegistrationError::ReceiverKeyMismatch);
    }
    if !same_key(&registration.qc_verifier, &local.qc_verifier) {
        return Err(RegistrationError::QcVerifierMismatch);
    }
    Ok(())
}

/// Checks the registration that the recovery log holds for the local node.
pub fn check_local_registration(
    address: Address,
    epoch: Epoch,
    registration: &CheckedRegistration,
    local: Result<LocalPublicKeys, DkgError>,
) -> (result: Result<RegistrationCall, RegistrationError>)
    ensures
        result == (match verified(address, epoch, *registration) {
            Err(error) => Err(error),
            Ok(call) => match local {
                Err(error) => Err(RegistrationError::LocalKeys(error)),
                Ok(local) => match key_mismatch(call, local) {
                    Some(error) => Err(error),
                    None => Ok(call),
                },
            },
        }),
{
    let call: RegistrationCall = match verify_registration(address, epoch, registration) {
        Ok(call) => call,
        Err(error) => {
            return Err(error);
        },
    };
    match local {
        Err(error) => Err(RegistrationError::LocalKeys(error)),
        Ok(local) => match check_own_keys(&call, &local) {
            Ok(()) => Ok(call),
            Err(error) => Err(error),
        },
    }
}

fn contains_address(validators: &Vec<DkgValidator>, count: usize, address: &Address) -> (found: bool)
    requires
        count <= validators@.len(),
    ensures
        found == addresses_of(validators@.take(count as int)).contains(*address),
{
    let ghost earlier = addresses_of(validators@.take(count as int));
    let mut i: usize = 0;
    while i < count
        invariant
            i <= count <= validators@.len(),
            earlier == addresses_of(validators@.take(count as int)),
            forall|j: int| 0 <= j < i ==> #[trigger] earlier[j] != *address,
        decreases count - i,
    {
        assert(earlier[i as int] == validators@[i as int].address);
        if same_key(&validators[i].address, address) {
            return true;
        }
        i += 1;
    }
    false
}

fn find_repeated_address(validators: &Vec<DkgValidator>) -> (address: Option<Address>)
    ensures
        address == repeated_address(validators@),
{
    let mut i: usize = 0;
    assert(validators@.take(0) =~= Seq::empty());
    while i < validators.len()
        invariant
            i <= validators@.len(),
            repeated_address(validators@.take(i as int)) is None,
        decreases validators@.len() - i,
    {
        let address: Address = validators[i].address;
        let ghost upto = validators@.take(i + 1);
        assert(upto.drop_last() =~= validators@.take(i as int));
        if contains_address(validators, i, &address) {
            proof {
                assert(repeated_address(upto) == Some(address));
                lemma_repeated_early(validators@, i + 1);
            }
            return Some(address);
        }
        i += 1;
    }
    assert(validators@.take(validators@.len() as int) =~= validators@);
    None
}

proof fn lemma_repeated_early(validators: Seq<DkgValidator>, count: int)
    requires
        0 <= count <= validators.len(),
        repeated_address(validators.take(count)) is Some,
    ensures
        repeated_address(validators) == repeated_address(validators.take(count)),
    decreases validators.len(),
{
    if count == validators.len() {
        assert(validators.take(count) =~= validators);
    } else {
        assert(validators.drop_last().take(count) =~= validators.take(count));
        lemma_repeated_early(validators.drop_last(), count);
    }
}

proof fn lemma_refusal_early(
    epoch: Epoch,
    validators: Seq<DkgValidator>,
    registrations: Seq<Option<CheckedRegistration>>,
    count: int,
)
    requires
        validators.len() == registrations.len(),
        0 <= count <= validators.len(),
        eligible(epoch, validators.take(count), registrations.take(count)) is Err,
    ensures
        eligible(epoch, validators, registrations) == eligible(
            epoch,
            validators.take(count),
            registrations.take(count),
        ),
    decreases validators.len(),
{
    if count == validators.len() {
        assert(validators.take(count) =~= validators);
        assert(registrations.take(count) =~= registrations);
    } else {
        assert(validators.drop_last().take(count) =~= validators.take(count));
        assert(registrations.drop_last().take(count) =~= registrations.take(count));
        lemma_refusal_early(epoch, validators.drop_last(), registrations.drop_last(), count);
    }
}

fn find_party(parties: &Vec<RegisteredParty>, node_id: &NodeId) -> (party: Option<RegisteredParty>)
    ensures
        party == party_of(parties@, *node_id),
{
    let mut i: usize = 0;
    assert(parties@.skip(0) =~= parties@);
    while i < parties.len()
        invariant
            i <= parties@.len(),
            party_of(parties@, *node_id) == party_of(parties@.skip(i as int), *node_id),
        decreases parties@.len() - i,
    {
        assert(parties@.skip(i as int)[0] == parties@[i as int]);
        if same_key(&parties[i].node_id, node_id) {
            return Some(parties[i]);
        }
        assert(parties@.skip(i as int).skip(1) =~= parties@.skip(i + 1));
        i += 1;
    }
    None
}

/// Collects the validators that have a registration, in the order of the validators.
fn collect_eligible(
    epoch: Epoch,
    validators: &Vec<DkgValidator>,
    registrations: &Vec<Option<CheckedRegistration>>,
) -> (result: Result<Vec<RegisteredParty>, RegistrationError>)
    requires
        registrations@.len() == validators@.len(),
    ensures
        match eligible(epoch, validators@, registrations@) {
            Ok(parties) => result matches Ok(collected) && collected@ == parties,
            Err(error) => result == Err::<Vec<RegisteredParty>, _>(error),
        },
{
    let mut parties: Vec<RegisteredParty> = Vec::new();
    let mut i: usize = 0;
    while i < validators.len()
        invariant
            i <= validators@.len(),
            registrations@.len() == validators@.len(),
            eligible(epoch, validators@.take(i as int), registrations@.take(i as int)) == Ok::<
                Seq<RegisteredParty>,
                RegistrationError,
            >(parties@),
        decreases validators@.len() - i,
    {
        let validator: DkgValidator = validators[i];
        proof {
            assert(validators@.take(i + 1).drop_last() =~= validators@.take(i as int));
            assert(registrations@.take(i + 1).drop_last() =~= registrations@.take(i as int));
        }
        match &registrations[i] {
            Some(registration) => {
                match verify_registration(validator.address, epoch, registration) {
                    Ok(call) => {
                        parties.push(
                            RegisteredParty {
                                node_id: validator.node_id,
                                stake: validator.stake,
                                registration: call,
                            },
                        );
                    },
                    Err(error) => {
                        proof {
                            lemma_refusal_early(epoch, validators@, registrations@, i + 1);
                        }
                        return Err(error);
                    },
                }
            },
            None => {},
        }
        i += 1;
    }
    proof {
        assert(validators@.take(i as int) =~= validators@);
        assert(registrations@.take(i as int) =~= registrations@);
    }
    Ok(parties)
}

/// Assembles a session from one optional registration per validator. Parties are
/// ranked in the order of the validators; those without a registration are left
/// out without changing that order.
pub fn assemble_registered_snapshot(
    epoch: Epoch,
    self_id: &NodeId,
    validators: &Vec<DkgValidator>,
    local: Result<LocalPublicKeys, DkgError>,
    registrations: &Vec<Option<CheckedRegistration>>,
) -> (result: Result<Vec<RegisteredParty>, RegistrationError>)
    ensures
        match assembled(epoch, *self_id, validators@, local, registrations@) {
            Ok(parties) => result matches Ok(session) && session@ == parties,
            Err(error) => result == Err::<Vec<RegisteredParty>, _>(error),
        },
{
    match find_repeated_address(validators) {
        Some(address) => {
            return Err(RegistrationError::DuplicateValidatorAddress { address });
        },
        None => {},
    }
    let expected: usize = validators.len();
    let actual: usize = registrations.len();
    if actual != expected {
        return Err(RegistrationError::RegistrationCountMismatch { expected, actual });
    }
    let parties: Vec<RegisteredParty> = match collect_eligible(epoch, validators, registrations) {
        Ok(parties) => parties,
        Err(error) => {
            return Err(error);
        },
    };
    if parties.len() == 0 {
        return Err(RegistrationError::NoEligibleValidator);
    }
    let local: LocalPublicKeys = match local {
        Ok(local) => local,
        Err(error) => {
            return Err(RegistrationError::LocalKeys(error));
        },
    };
    match find_party(&parties, self_id) {
        Some(party) => match check_own_keys(&party.registration, &local) {
            Ok(()) => Ok(parties),
            Err(error) => Err(error),
        },
        None => Ok(parties),
    }
}

/// The first validator with an address.
pub open spec fn validator_at(validators: Seq<DkgValidator>, address: Address) -> DkgValidator {
    validators[addresses_of(validators).index_of_first(address)->Some_0]
}

/// The validators in the order of their addresses.
pub open spec fn by_address(validators: Seq<DkgValidator>) -> Seq<DkgValidator> {
    sorted_set(addresses_of(validators)).map_values(
        |address: Address| validator_at(validators, address),
    )
}

/// The first registration that names an address.
pub open spec fn registration_of(registrations: Seq<CheckedRegistration>, address: Address) -> Option<
    CheckedRegistration,
>
    decreases registrations.len(),
{
    if registrations.len() == 0 {
        None
    } else if registrations[0].call.address == address {
        Some(registrations[0])
    } else {
        registration_of(registrations.skip(1), address)
    }
}

/// The registrations of validators.
pub open spec fn registrations_of(
    validators: Seq<DkgValidator>,
    registrations: Seq<CheckedRegistration>,
) -> Seq<Option<CheckedRegistration>> {
    validators.map_values(
        |validator: DkgValidator| registration_of(registrations, validator.address),
    )
}

fn find_registration(registrations: &Vec<CheckedRegistration>, address: &Address) -> (registration: Option<
    CheckedRegistration,
>)
    ensures
        registration == registration_of(registrations@, *address),
{
    let mut i: usize = 0;
    assert(registrations@.skip(0) =~= registrations@);
    while i < registrations.len()
        invariant
            i <= registrations@.len(),
            registration_of(registrations@, *address) == registration_of(
                registrations@.skip(i as int),
                *address,
            ),
        decreases registrations@.len() - i,
    {
        assert(registrations@.skip(i as int)[0] == registrations@[i as int]);
        if same_key(&registrations[i].call.address, address) {
            return Some(registrations[i]);
        }
        assert(registrations@.skip(i as int).skip(1) =~= registrations@.skip(i + 1));
        i += 1;
    }
    None
}

fn find_validator(validators: &Vec<DkgValidator>, address: &Address) -> (validator: DkgValidator)
    requires
        addresses_of(validators@).contains(*address),
    ensures
        validator == validator_at(validators@, *address),
        validator.address == *address,
{
    let ghost addresses = addresses_of(validators@);
    let total: usize = validators.len();
    let mut i: usize = 0;
    loop
        invariant
            total == validators@.len(),
            addresses == addresses_of(validators@),
            addresses.contains(*address),
            i < validators@.len(),
            forall|j: int| 0 <= j < i ==> #[trigger] addresses[j] != *address,
        decreases validators@.len() - i,
    {
        assert(addresses[i as int] == validators@[i as int].address);
        if same_key(&validators[i].address, address) {
            proof {
                addresses.index_of_first_ensures(*address);
                assert(addresses.index_of_first(*address) == Some(i as int));
            }
            return validators[i];
        }
        proof {
            let k = choose|k: int| 0 <= k < addresses.len() && addresses[k] == *address;
            assert(k > i);
        }
        i += 1;
    }
}

/// Assembles a session from the registrations that the contract holds for its
/// validators. Registrations of other accounts are left out, and parties are
/// ranked by address.
pub fn assemble_registered_session(
    epoch: Epoch,
    self_id: &NodeId,
    validators: &Vec<DkgValidator>,
    local: Result<LocalPublicKeys, DkgError>,
    registrations: &Vec<CheckedRegistration>,
) -> (result: Result<Vec<RegisteredParty>, RegistrationError>)
    ensures
        match repeated_address(validators@) {
            Some(address) => result == Err::<Vec<RegisteredParty>, _>(
                RegistrationError::DuplicateValidatorAddress { address },
            ),
            None => {
                let ranked = by_address(validators@);
                match assembled(epoch, *self_id, ranked, local, registrations_of(ranked, registrations@)) {
                    Ok(parties) => result matches Ok(session) && session@ == parties,
                    Err(error) => result == Err::<Vec<RegisteredParty>, _>(error),
                }
            },
        },
{
    match find_repeated_address(validators) {
        Some(address) => {
            return Err(RegistrationError::DuplicateValidatorAddress { address });
        },
        None => {},
    }
    let mut addresses: Vec<Address> = Vec::new();
    let mut i: usize = 0;
    while i < validators.len()
        invariant
            i <= validators@.len(),
            addresses@ == addresses_of(validators@).take(i as int),
        decreases validators@.len() - i,
    {
        addresses.push(validators[i].address);
        assert(addresses_of(validators@).take(i + 1) =~= addresses_of(validators@).take(
            i as int,
        ).push(validators@[i as int].address));
        i += 1;
    }
    assert(addresses@ =~= addresses_of(validators@));
    let sorted: Vec<Address> = sort_set(&addresses);
    let ghost ranked = by_address(validators@);
    let mut ordered: Vec<DkgValidator> = Vec::new();
    let mut snapshot: Vec<Option<CheckedRegistration>> = Vec::new();
    let mut k: usize = 0;
    while k < sorted.len()
        invariant
            k <= sorted@.len(),
            sorted@ == sorted_set(addresses_of(validators@)),
            sorted@.to_set() == addresses_of(validators@).to_set(),
            ranked == by_address(validators@),
            ordered@ == ranked.take(k as int),
            snapshot@ == registrations_of(ranked, registrations@).take(k as int),
        decreases sorted@.len() - k,
    {
        proof {
            assert(sorted@.to_set().contains(sorted@[k as int]));
            assert(addresses_of(validators@).to_set().contains(sorted@[k as int]));
        }
        let validator: DkgValidator = find_validator(validators, &sorted[k]);
        ordered.push(validator);
        snapshot.push(find_registration(registrations, &sorted[k]));
        proof {
            let all = registrations_of(ranked, registrations@);
            assert(ranked.take(k + 1) =~= ranked.take(k as int).push(ranked[k as int]));
            assert(all.take(k + 1) =~= all.take(k as int).push(all[k as int]));
        }
        k += 1;
    }
    assert(ordered@ =~= ranked);
    assert(snapshot@ =~= registrations_of(ranked, registrations@));
    assemble_registered_snapshot(epoch, self_id, &ordered, local, &snapshot)
}

/// Validators are ranked by address: their addresses ascend, and none is lost.
pub proof fn law_ranking_is_by_address(validators: Seq<DkgValidator>)
    ensures
        addresses_of(by_address(validators)) == sorted_set(addresses_of(validators)),
        ascending(addresses_of(by_address(validators))),
        addresses_of(by_address(validators)).to_set() == addresses_of(validators).to_set(),
{
    let addresses = addresses_of(validators);
    let ranked = by_address(validators);
    lemma_sorted_set(addresses);
    let sorted = sorted_set(addresses);
    assert forall|i: int| 0 <= i < sorted.len() implies #[trigger] addresses_of(ranked)[i]
        == sorted[i] by {
        assert(sorted.to_set().contains(sorted[i]));
        assert(addresses.to_set().contains(sorted[i]));
        addresses.index_of_first_ensures(sorted[i]);
    }
    assert(addresses_of(ranked) =~= sorted);
}

/// Why the key material of a session is refused.
#[allow(inconsistent_fields)]
#[derive(Clone, Copy, Debug)]
pub enum EngineBuildError {
    MaterialLength { field: &'static str, actual: usize, expected: usize },
    PartyOutOfRange { party: u32, party_count: usize },
    ReceiverKeyMismatch,
    QcKeyMismatch,
}

/// The public keys of the parties of a session.
pub struct RegisteredKeyMaterial {
    pub receiver_public_keys: Vec<[u8; 33]>,
    pub qc_verifiers: Vec<Address>,
    pub addresses: Vec<Address>,
}

/// What is wrong with the key material of a session of `party_count` parties.
pub open spec fn material_refusal(
    material: RegisteredKeyMaterial,
    self_party: PartyId,
    party_count: usize,
    local: LocalPublicKeys,
) -> Option<EngineBuildError> {
    if material.receiver_public_keys@.len() != party_count {
        Some(
            EngineBuildError::MaterialLength {
                field: "receiver public keys",
                actual: material.receiver_public_keys@.len() as usize,
                expected: party_count,
            },
        )
    } else if material.qc_verifiers@.len() != party_count {
        Some(
            EngineBuildError::MaterialLength {
                field: "QC verifying keys",
                actual: material.qc_verifiers@.len() as usize,
                expected: party_count,
            },
        )
    } else if material.addresses@.len() != party_count {
        Some(
            EngineBuildError::MaterialLength {
                field: "addresses",
                actual: material.addresses@.len() as usize,
                expected: party_count,
            },
        )
    } else if self_party.0 >= party_count {
        Some(EngineBuildError::PartyOutOfRange { party: self_party.0, party_count })
    } else if material.receiver_public_keys@[self_party.0 as int] != local.receiver_public_key {
        Some(EngineBuildError::ReceiverKeyMismatch)
    } else if material.qc_verifiers@[self_party.0 as int] != local.qc_verifier {
        Some(EngineBuildError::QcKeyMismatch)
    } else {
        None
    }
}

/// Checks that there is one key of each sort per party, and that the own ones
/// match the local keys.
pub fn check_registered_material(
    material: &RegisteredKeyMaterial,
    self_party: PartyId,
    party_count: usize,
    local: &LocalPublicKeys,
) -> (result: Result<(), EngineBuildError>)
    ensures
        result == (match material_refusal(*material, self_party, party_count, *local) {
            Some(error) => Err::<(), _>(error),
            None => Ok(()),
        }),
{
    let receivers: usize = material.receiver_public_keys.len();
    if receivers != party_count {
        return Err(
            EngineBuildError::MaterialLength {
                field: "receiver public keys",
                actual: receivers,
                expected: party_count,
            },
        );
    }
    let verifiers: usize = material.qc_verifiers.len();
    if verifiers != party_count {
        return Err(
            EngineBuildError::MaterialLength {
                field: "QC verifying keys",
                actual: verifiers,
                expected: party_count,
            },
        );
    }
    let addresses: usize = material.addresses.len();
    if addresses != party_count {
        return Err(
            EngineBuildError::MaterialLength {
                field: "addresses",
                actual: addresses,
                expected: party_count,
            },
        );
    }
    let own: usize = self_party.0 as usize;
    if own >= party_count {
        return Err(EngineBuildError::PartyOutOfRange { party: self_party.0, party_count });
    }
    if !same_key(&material.receiver_public_keys[own], &local.receiver_public_key) {
        return Err(EngineBuildError::ReceiverKeyMismatch);
    }
    if !same_key(&material.qc_verifiers[own], &local.qc_verifier) {
        return Err(EngineBuildError::QcKeyMismatch);
    }
    Ok(())
}

/// Whether a party is a validator with a verified registration for its address.
pub open spec fn registered_as(
    party: RegisteredParty,
    validator: DkgValidator,
    registration: Option<CheckedRegistration>,
) -> bool {
    &&& party.node_id == validator.node_id
    &&& party.stake == validator.stake
    &&& party.registration.address == validator.address
    &&& registration == Some(
        CheckedRegistration { call: party.registration, check: ProofCheck::Valid },
    )
}

/// Every party of a session is a validator of it, with a verified registration
/// for its own address.
pub proof fn law_parties_are_registered_validators(
    epoch: Epoch,
    validators: Seq<DkgValidator>,
    registrations: Seq<Option<CheckedRegistration>>,
    parties: Seq<RegisteredParty>,
    place: int,
)
    requires
        validators.len() == registrations.len(),
        eligible(epoch, validators, registrations) == Ok::<Seq<RegisteredParty>, RegistrationError>(
            parties,
        ),
        0 <= place < parties.len(),
    ensures
        exists|k: int|
            place <= k < validators.len() && #[trigger] registered_as(
                parties[place],
                validators[k],
                registrations[k],
            ),
    decreases validators.len(),
{
    if validators.len() > 0 {
        let last = validators.len() - 1;
        let earlier = eligible(epoch, validators.drop_last(), registrations.drop_last())->Ok_0;
        lemma_few_parties(epoch, validators.drop_last(), registrations.drop_last());
        if place < earlier.len() {
            law_parties_are_registered_validators(
                epoch,
                validators.drop_last(),
                registrations.drop_last(),
                earlier,
                place,
            );
            let k = choose|k: int|
                place <= k < validators.drop_last().len() && #[trigger] registered_as(
                    earlier[place],
                    validators.drop_last()[k],
                    registrations.drop_last()[k],
                );
            assert(registered_as(parties[place], validators[k], registrations[k]));
        } else {
            assert(registered_as(parties[place], validators[last], registrations[last]));
        }
    }
}

proof fn lemma_few_parties(
    epoch: Epoch,
    validators: Seq<DkgValidator>,
    registrations: Seq<Option<CheckedRegistration>>,
)
    ensures
        eligible(epoch, validators, registrations) matches Ok(parties) ==> parties.len()
            <= validators.len(),
    decreases validators.len(),
{
    if validators.len() > 0 {
        lemma_few_parties(epoch, validators.drop_last(), registrations.drop_last());
    }
}

/// A registration stands for an address exactly where it decodes, names that
/// address, and its proof is valid; it is then taken as it is.
pub proof fn law_registration_stands_where_it_is_valid(
    address: Address,
    epoch: Epoch,
    registration: CheckedRegistration,
)
    ensures
        verified(address, epoch, registration) is Ok <==> registration.check == ProofCheck::Valid
            && registration.call.address == address,
        verified(address, epoch, registration) matches Ok(call) ==> call == registration.call,
{
}

/// The validators that have a registration.
pub open spec fn registered_count(registrations: Seq<Option<CheckedRegistration>>) -> nat {
    registrations.filter(|registration: Option<CheckedRegistration>| registration is Some).len()
}

proof fn lemma_registered_count(registrations: Seq<Option<CheckedRegistration>>)
    requires
        registrations.len() > 0,
    ensures
        registered_count(registrations) == registered_count(registrations.drop_last()) + (
        if registrations.last() is Some {
            1nat
        } else {
            0nat
        }),
{
    reveal(Seq::filter);
}

/// Where registrations make a session, every validator that has one takes part, at
/// the rank that the validators with a registration before it leave, and there are
/// as many parties as validators with a registration.
pub proof fn law_every_registered_validator_takes_part(
    epoch: Epoch,
    self_id: NodeId,
    validators: Seq<DkgValidator>,
    local: Result<LocalPublicKeys, DkgError>,
    registrations: Seq<Option<CheckedRegistration>>,
    k: int,
)
    requires
        assembled(epoch, self_id, validators, local, registrations) is Ok,
        0 <= k < validators.len(),
        registrations[k] is Some,
    ensures
        ({
            let parties = assembled(epoch, self_id, validators, local, registrations)->Ok_0;
            let place = registered_count(registrations.take(k)) as int;
            &&& parties.len() == registered_count(registrations)
            &&& 0 <= place < parties.len()
            &&& parties[place].node_id == validators[k].node_id
            &&& parties[place].stake == validators[k].stake
            &&& parties[place].registration == registrations[k]->Some_0.call
            &&& parties[place].registration.address == validators[k].address
            &&& registrations[k]->Some_0.check == ProofCheck::Valid
        }),
{
    lemma_party_count(epoch, validators, registrations);
    lemma_party_place(epoch, validators, registrations, k);
}

proof fn lemma_party_count(
    epoch: Epoch,
    validators: Seq<DkgValidator>,
    registrations: Seq<Option<CheckedRegistration>>,
)
    requires
        validators.len() == registrations.len(),
        eligible(epoch, validators, registrations) is Ok,
    ensures
        eligible(epoch, validators, registrations)->Ok_0.len() == registered_count(registrations),
    decreases validators.len(),
{
    if validators.len() == 0 {
        reveal(Seq::filter);
    } else {
        lemma_party_count(epoch, validators.drop_last(), registrations.drop_last());
        lemma_registered_count(registrations);
    }
}

proof fn lemma_party_place(
    epoch: Epoch,
    validators: Seq<DkgValidator>,
    registrations: Seq<Option<CheckedRegistration>>,
    k: int,
)
    requires
        validators.len() == registrations.len(),
        eligible(epoch, validators, registrations) is Ok,
        0 <= k < validators.len(),
        registrations[k] is Some,
    ensures
        ({
            let parties = eligible(epoch, validators, registrations)->Ok_0;
            let place = registered_count(registrations.take(k)) as int;
            &&& 0 <= place < parties.len()
            &&& parties[place].node_id == validators[k].node_id
            &&& parties[place].stake == validators[k].stake
            &&& parties[place].registration == registrations[k]->Some_0.call
            &&& parties[place].registration.address == validators[k].address
            &&& registrations[k]->Some_0.check == ProofCheck::Valid
        }),
    decreases validators.len(),
{
    let fewer = validators.drop_last();
    let less = registrations.drop_last();
    let earlier = eligible(epoch, fewer, less)->Ok_0;
    let parties = eligible(epoch, validators, registrations)->Ok_0;
    let place = registered_count(registrations.take(k)) as int;
    if k < fewer.len() {
        assert(fewer[k] == validators[k]);
        assert(less[k] == registrations[k]);
        assert(less.take(k) =~= registrations.take(k));
        lemma_party_place(epoch, fewer, less, k);
        assert(parties[place] == earlier[place]);
    } else {
        assert(registrations.take(k) =~= less);
        lemma_party_count(epoch, fewer, less);
        assert(registrations.last() == registrations[k]);
        assert(parties[place] == parties.last());
    }
}

/// Parties are ranked in the order of their validators.
pub proof fn law_parties_keep_the_order_of_validators(
    registrations: Seq<Option<CheckedRegistration>>,
    low: int,
    high: int,
)
    requires
        0 <= low < high < registrations.len(),
        registrations[low] is Some,
    ensures
        registered_count(registrations.take(low)) < registered_count(registrations.take(high)),
    decreases high,
{
    let shorter = registrations.take(high);
    lemma_registered_count(shorter);
    assert(shorter.drop_last() =~= registrations.take(high - 1));
    assert(shorter.last() == registrations[high - 1]);
    if low < high - 1 {
        law_parties_keep_the_order_of_validators(registrations, low, high - 1);
    }
}

/// Registrations make a session exactly where no address is repeated, there is one
/// place per validator, somebody is registered, every registration stands for its
/// validator, and the own registration has the local keys.
pub proof fn law_session_is_owed_to_valid_registrations(
    epoch: Epoch,
    self_id: NodeId,
    validators: Seq<DkgValidator>,
    local: LocalPublicKeys,
    registrations: Seq<Option<CheckedRegistration>>,
)
    requires
        addresses_of(validators).no_duplicates(),
        registrations.len() == validators.len(),
        exists|k: int| 0 <= k < registrations.len() && #[trigger] registrations[k] is Some,
        forall|k: int|
            0 <= k < registrations.len() && (#[trigger] registrations[k]) is Some
                ==> registrations[k]->Some_0.check == ProofCheck::Valid
                && registrations[k]->Some_0.call.address == validators[k].address,
        forall|k: int|
            0 <= k < registrations.len() && (#[trigger] registrations[k]) is Some && validators[k].node_id
                == self_id ==> registrations[k]->Some_0.call.receiver_public_key
                == local.receiver_public_key && registrations[k]->Some_0.call.qc_verifier
                == local.qc_verifier,
    ensures
        assembled(epoch, self_id, validators, Ok(local), registrations) is Ok,
{
    lemma_distinct_addresses(validators);
    lemma_eligible_succeeds(epoch, validators, registrations);
    let parties = eligible(epoch, validators, registrations)->Ok_0;
    let k = choose|k: int| 0 <= k < registrations.len() && #[trigger] registrations[k] is Some;
    lemma_party_place(epoch, validators, registrations, k);
    assert(parties.len() > 0);
    lemma_party_of(parties, self_id);
    if party_of(parties, self_id) is Some {
        let place = choose|place: int|
            0 <= place < parties.len() && #[trigger] parties[place] == party_of(
                parties,
                self_id,
            )->Some_0 && parties[place].node_id == self_id;
        law_parties_are_registered_validators(epoch, validators, registrations, parties, place);
        let j = choose|j: int|
            place <= j < validators.len() && #[trigger] registered_as(
                parties[place],
                validators[j],
                registrations[j],
            );
        assert(registrations[j] is Some);
    }
}

proof fn lemma_distinct_addresses(validators: Seq<DkgValidator>)
    ensures
        repeated_address(validators) is None <==> addresses_of(validators).no_duplicates(),
    decreases validators.len(),
{
    if validators.len() > 0 {
        let fewer = validators.drop_last();
        lemma_distinct_addresses(fewer);
        let all = addresses_of(validators);
        let some = addresses_of(fewer);
        assert(some =~= all.drop_last());
        assert(all.last() == validators.last().address);
        if all.no_duplicates() {
            assert(some.no_duplicates()) by {
                assert forall|i: int, j: int| 0 <= i < some.len() && 0 <= j < some.len() && i != j implies some[i]
                    != some[j] by {
                    assert(all[i] == some[i] && all[j] == some[j]);
                }
            }
            if some.contains(all.last()) {
                let i = choose|i: int| 0 <= i < some.len() && some[i] == all.last();
                assert(all[i] == all[all.len() - 1]);
            }
        }
        if repeated_address(validators) is None {
            assert forall|i: int, j: int| 0 <= i < all.len() && 0 <= j < all.len() && i != j implies all[i]
                != all[j] by {
                if i < some.len() {
                    assert(some[i] == all[i]);
                }
                if j < some.len() {
                    assert(some[j] == all[j]);
                }
            }
        }
    }
}

/// An address that is reported as repeated belongs to two validators, and where
/// addresses are distinct none is reported.
pub proof fn law_repeated_address_is_found(validators: Seq<DkgValidator>)
    ensures
        repeated_address(validators) is None <==> addresses_of(validators).no_duplicates(),
        repeated_address(validators) matches Some(address) ==> exists|i: int, j: int|
            0 <= i < j < validators.len() && (#[trigger] validators[i]).address == address && (
            #[trigger] validators[j]).address == address,
    decreases validators.len(),
{
    lemma_distinct_addresses(validators);
    if repeated_address(validators) is Some {
        let fewer = validators.drop_last();
        let address = repeated_address(validators)->Some_0;
        law_repeated_address_is_found(fewer);
        if repeated_address(fewer) is Some {
            let (i, j) = choose|i: int, j: int|
                0 <= i < j < fewer.len() && (#[trigger] fewer[i]).address == address && (
                #[trigger] fewer[j]).address == address;
            assert(validators[i] == fewer[i] && validators[j] == fewer[j]);
        } else {
            let some = addresses_of(fewer);
            let i = choose|i: int| 0 <= i < some.len() && some[i] == validators.last().address;
            assert(validators[i].address == address);
            assert(validators[validators.len() - 1].address == address);
        }
    }
}

proof fn lemma_eligible_succeeds(
    epoch: Epoch,
    validators: Seq<DkgValidator>,
    registrations: Seq<Option<CheckedRegistration>>,
)
    requires
        registrations.len() == validators.len(),
        forall|k: int|
            0 <= k < registrations.len() && (#[trigger] registrations[k]) is Some
                ==> registrations[k]->Some_0.check == ProofCheck::Valid
                && registrations[k]->Some_0.call.address == validators[k].address,
    ensures
        eligible(epoch, validators, registrations) is Ok,
    decreases validators.len(),
{
    if validators.len() > 0 {
        let fewer = validators.drop_last();
        let less = registrations.drop_last();
        assert forall|k: int| 0 <= k < less.len() && (#[trigger] less[k]) is Some implies less[k]->Some_0.check
            == ProofCheck::Valid && less[k]->Some_0.call.address == fewer[k].address by {
            assert(registrations[k] == less[k]);
        }
        lemma_eligible_succeeds(epoch, fewer, less);
        assert(registrations.last() == registrations[registrations.len() - 1]);
    }
}

proof fn lemma_party_of(parties: Seq<RegisteredParty>, node_id: NodeId)
    ensures
        party_of(parties, node_id) matches Some(party) ==> exists|place: int|
            0 <= place < parties.len() && #[trigger] parties[place] == party && parties[place].node_id
                == node_id,
        party_of(parties, node_id) is None ==> forall|place: int|
            0 <= place < parties.len() ==> (#[trigger] parties[place]).node_id != node_id,
    decreases parties.len(),
{
    if parties.len() > 0 {
        let rest = parties.skip(1);
        lemma_party_of(rest, node_id);
        if parties[0].node_id != node_id {
            if party_of(rest, node_id) is Some {
                let place = choose|place: int|
                    0 <= place < rest.len() && #[trigger] rest[place] == party_of(rest, node_id)->Some_0
                        && rest[place].node_id == node_id;
                assert(parties[place + 1] == rest[place]);
            } else {
                assert forall|place: int| 0 <= place < parties.len() implies (
                #[trigger] parties[place]).node_id != node_id by {
                    if place > 0 {
                        assert(rest[place - 1] == parties[place]);
                    }
                }
            }
        }
    }
}

/// One registration that does not stand for its validator refuses the session.
pub proof fn law_bad_registration_refuses_the_session(
    epoch: Epoch,
    self_id: NodeId,
    validators: Seq<DkgValidator>,
    local: Result<LocalPublicKeys, DkgError>,
    registrations: Seq<Option<CheckedRegistration>>,
    k: int,
)
    requires
        0 <= k < validators.len(),
        registrations.len() == validators.len(),
        registrations[k] is Some,
        registrations[k]->Some_0.check != ProofCheck::Valid
            || registrations[k]->Some_0.call.address != validators[k].address,
    ensures
        assembled(epoch, self_id, validators, local, registrations) is Err,
{
    if assembled(epoch, self_id, validators, local, registrations) is Ok {
        law_every_registered_validator_takes_part(epoch, self_id, validators, local, registrations, k);
    }
}

/// A party whose own registration has other keys than the local ones, or whose
/// local keys are missing, gets no session.
pub proof fn law_session_needs_the_local_keys(
    epoch: Epoch,
    self_id: NodeId,
    validators: Seq<DkgValidator>,
    local: Result<LocalPublicKeys, DkgError>,
    registrations: Seq<Option<CheckedRegistration>>,
    k: int,
)
    requires
        assembled(epoch, self_id, validators, local, registrations) is Ok,
        0 <= k < validators.len(),
        registrations[k] is Some,
        validators[k].node_id == self_id,
        forall|i: int|
            0 <= i < validators.len() && i != k ==> (#[trigger] validators[i]).node_id != self_id,
    ensures
        local matches Ok(keys) && registrations[k]->Some_0.call.receiver_public_key
            == keys.receiver_public_key && registrations[k]->Some_0.call.qc_verifier == keys.qc_verifier,
{
    let parties = assembled(epoch, self_id, validators, local, registrations)->Ok_0;
    law_every_registered_validator_takes_part(epoch, self_id, validators, local, registrations, k);
    lemma_party_of(parties, self_id);
    let place = registered_count(registrations.take(k)) as int;
    assert(parties[place].node_id == self_id);
    let party = party_of(parties, self_id)->Some_0;
    let other = choose|other: int|
        0 <= other < parties.len() && #[trigger] parties[other] == party && parties[other].node_id
            == self_id;
    law_parties_are_registered_validators(epoch, validators, registrations, parties, other);
    let j = choose|j: int|
        other <= j < validators.len() && #[trigger] registered_as(
            parties[other],
            validators[j],
            registrations[j],
        );
    assert(validators[j].node_id == self_id);
}

/// The registration that counts for an address is the first one that names it.
pub proof fn law_first_registration_counts(
    registrations: Seq<CheckedRegistration>,
    address: Address,
    i: int,
)
    requires
        0 <= i < registrations.len(),
        registrations[i].call.address == address,
        forall|j: int| 0 <= j < i ==> (#[trigger] registrations[j]).call.address != address,
    ensures
        registration_of(registrations, address) == Some(registrations[i]),
    decreases registrations.len(),
{
    if i > 0 {
        assert(registrations[0].call.address != address);
        let rest = registrations.skip(1);
        assert(rest[i - 1] == registrations[i]);
        assert forall|j: int| 0 <= j < i - 1 implies (#[trigger] rest[j]).call.address != address by {
            assert(rest[j] == registrations[j + 1]);
        }
        law_first_registration_counts(rest, address, i - 1);
    }
}

proof fn lemma_registration_of(registrations: Seq<CheckedRegistration>, address: Address)
    ensures
        registration_of(registrations, address) matches Some(found) ==> found.call.address == address,
        registration_of(registrations, address) is Some <==> exists|i: int|
            0 <= i < registrations.len() && (#[trigger] registrations[i]).call.address == address,
    decreases registrations.len(),
{
    if registrations.len() > 0 {
        let rest = registrations.skip(1);
        lemma_registration_of(rest, address);
        if registration_of(rest, address) is Some {
            let i = choose|i: int| 0 <= i < rest.len() && (#[trigger] rest[i]).call.address == address;
            assert(registrations[i + 1] == rest[i]);
        }
        if exists|i: int| 0 <= i < registrations.len() && (#[trigger] registrations[i]).call.address == address {
            let i = choose|i: int|
                0 <= i < registrations.len() && (#[trigger] registrations[i]).call.address == address;
            if i > 0 {
                assert(rest[i - 1] == registrations[i]);
            }
        }
    }
}

/// Whether a party is the validator, with its node, its stake and its address.
pub open spec fn is_party_of(party: RegisteredParty, validator: DkgValidator) -> bool {
    &&& party.node_id == validator.node_id
    &&& party.stake == validator.stake
    &&& party.registration.address == validator.address
}

/// Where the registrations of the contract make a session, every validator that
/// one of them names takes part.
pub proof fn law_session_holds_every_named_validator(
    epoch: Epoch,
    self_id: NodeId,
    validators: Seq<DkgValidator>,
    local: Result<LocalPublicKeys, DkgError>,
    registrations: Seq<CheckedRegistration>,
    k: int,
    r: int,
)
    requires
        addresses_of(validators).no_duplicates(),
        assembled(
            epoch,
            self_id,
            by_address(validators),
            local,
            registrations_of(by_address(validators), registrations),
        ) is Ok,
        0 <= k < validators.len(),
        0 <= r < registrations.len(),
        registrations[r].call.address == validators[k].address,
    ensures
        ({
            let parties = assembled(
                epoch,
                self_id,
                by_address(validators),
                local,
                registrations_of(by_address(validators), registrations),
            )->Ok_0;
            exists|place: int|
                0 <= place < parties.len() && #[trigger] is_party_of(parties[place], validators[k])
        }),
{
    let ranked = by_address(validators);
    let address = validators[k].address;
    let addresses = addresses_of(validators);
    law_ranking_is_by_address(validators);
    assert(addresses[k] == address);
    assert(addresses.to_set().contains(address));
    assert(addresses_of(ranked).to_set().contains(address));
    let i = choose|i: int| 0 <= i < addresses_of(ranked).len() && addresses_of(ranked)[i] == address;
    assert(ranked[i].address == address);
    addresses.index_of_first_ensures(address);
    let first = addresses.index_of_first(address)->Some_0;
    assert(addresses.contains(address));
    assert(first == k) by {
        assert(addresses[first] == addresses[k]);
    }
    assert(sorted_set(addresses)[i] == address);
    assert(ranked[i] == validators[k]);
    lemma_registration_of(registrations, address);
    assert(registrations[r].call.address == address);
    let own = registrations_of(ranked, registrations);
    assert(own[i] is Some);
    law_every_registered_validator_takes_part(epoch, self_id, ranked, local, own, i);
    let parties = assembled(epoch, self_id, ranked, local, own)->Ok_0;
    let place = registered_count(own.take(i)) as int;
    assert(is_party_of(parties[place], validators[k]));
}

/// The key material of a session fits exactly where there is one key of each sort
/// and one address per party, the own party is among them, and its keys are the
/// local ones.
pub proof fn law_material_fits_where_every_party_has_keys(
    material: RegisteredKeyMaterial,
    self_party: PartyId,
    party_count: usize,
    local: LocalPublicKeys,
)
    ensures
        material_refusal(material, self_party, party_count, local) is None <==> {
            &&& material.receiver_public_keys@.len() == party_count
            &&& material.qc_verifiers@.len() == party_count
            &&& material.addresses@.len() == party_count
            &&& self_party.0 < party_count
            &&& material.receiver_public_keys@[self_party.0 as int] == local.receiver_public_key
            &&& material.qc_verifiers@[self_party.0 as int] == local.qc_verifier
        },
{
}

/// The local keys are refused exactly where a registration names another receiver key
/// or another verifier, the receiver key first.
pub proof fn law_local_keys_have_to_match(registration: RegistrationCall, local: LocalPublicKeys)
    ensures
        key_mismatch(registration, local) is None <==> registration.receiver_public_key
            == local.receiver_public_key && registration.qc_verifier == local.qc_verifier,
        registration.receiver_public_key != local.receiver_public_key ==> key_mismatch(
            registration,
            local,
        ) == Some(RegistrationError::ReceiverKeyMismatch),
        registration.receiver_public_key == local.receiver_public_key && registration.qc_verifier
            != local.qc_verifier ==> key_mismatch(registration, local) == Some(
            RegistrationError::QcVerifierMismatch,
        ),
{
}

/// A node is found among parties as the first party that is its own, and none is found
/// where it is no party.
pub proof fn law_party_is_found_by_its_node(parties: Seq<RegisteredParty>, node_id: NodeId, i: int)
    requires
        0 <= i < parties.len(),
        parties[i].node_id == node_id,
        forall|j: int| 0 <= j < i ==> (#[trigger] parties[j]).node_id != node_id,
    ensures
        party_of(parties, node_id) == Some(parties[i]),
    decreases i,
{
    if i > 0 {
        assert(parties[0].node_id != node_id);
        assert(parties.skip(1)[i - 1] == parties[i]);
        assert forall|j: int| 0 <= j < i - 1 implies (#[trigger] parties.skip(1)[j]).node_id
            != node_id by {
            assert(parties.skip(1)[j] == parties[j + 1]);
        }
        law_party_is_found_by_its_node(parties.skip(1), node_id, i - 1);
    }
}

} // verus!
