//! The boundary between protocol values and contract values.

use crate::chain::types::{
    BveQc, BveQcView, ChainEvent, ChainEventView, DkgDoneQc, DoneQcView, PcQc, PcQcView, QcSignature,
    RegistrationCall,
};
use crate::dkg::ids::{Address, PartyId, RecordId};
use crate::reliable::message::same_key;
use vstd::prelude::*;

verus! {

/// A compressed secp256k1 point, split for the contract.
#[derive(Clone, Copy, Debug)]
pub struct ContractSecpPoint {
    pub prefix: u8,
    pub x: [u8; 32],
}

/// A registration as the contract stores it.
#[derive(Clone, Copy, Debug)]
pub struct ContractRegistration {
    pub qc_verifier: Address,
    pub receiver_public_key: ContractSecpPoint,
    pub receiver_proof_nonce: u64,
    pub receiver_proof_r: [u8; 32],
    pub receiver_proof_s: [u8; 32],
}

/// A signature as the contract stores it.
#[derive(Clone, Copy, Debug)]
pub struct ContractQcSignature {
    pub signer: u32,
    pub r: [u8; 32],
    pub s: [u8; 32],
}

#[derive(Debug)]
pub struct ContractPcQc {
    pub dealer: u32,
    pub digest: [u8; 32],
    pub signatures: Vec<ContractQcSignature>,
}

#[derive(Debug)]
pub struct ContractBveQc {
    pub dealer: u32,
    pub digest: [u8; 32],
    pub commitment_digest: [u8; 32],
    pub signatures: Vec<ContractQcSignature>,
}

/// A result as the contract stores it; the point is split in six words.
#[derive(Debug)]
pub struct ContractDkgResult {
    pub session_id: [u8; 32],
    pub g2x: [[u8; 32]; 6],
    pub signatures: Vec<ContractQcSignature>,
}

/// Why a contract value is not a protocol value, or the other way round.
#[derive(Clone, Copy, Debug)]
pub enum ContractCodecError {
    RegistrationAddress { expected: Address, actual: Address },
    InvalidQcVerifier { address: Address },
    SignatureCount { count: usize, maximum: usize },
    SignerOutOfRange { signer: u32, party_count: usize },
    NonCanonicalSigner { signer: u32 },
}

/// The 32 bytes of `bytes` from `start` on.
fn word_at(bytes: &[u8], start: usize) -> (word: [u8; 32])
    requires
        start + 32 <= bytes@.len(),
    ensures
        word@ == bytes@.subrange(start as int, start + 32),
{
    let mut word: [u8; 32] = [0; 32];
    let length: usize = bytes.len();
    let mut i: usize = 0;
    while i < 32
        invariant
            i <= 32,
            length == bytes@.len(),
            start + 32 <= length,
            forall|j: int| 0 <= j < i ==> word@[j] == bytes@[start + j],
        decreases 32 - i,
    {
        word[i] = bytes[start + i];
        i += 1;
    }
    assert(word@ =~= bytes@.subrange(start as int, start + 32));
    word
}

/// The bytes of `low` and then those of `high`.
fn join_words(low: &[u8; 32], high: &[u8; 32]) -> (joined: [u8; 64])
    ensures
        joined@ == low@ + high@,
{
    let mut joined: [u8; 64] = [0; 64];
    let mut i: usize = 0;
    while i < 32
        invariant
            i <= 32,
            forall|j: int| 0 <= j < i ==> joined@[j] == low@[j],
            forall|j: int| 0 <= j < i ==> joined@[32 + j] == high@[j],
        decreases 32 - i,
    {
        joined[i] = low[i];
        joined[32 + i] = high[i];
        i += 1;
    }
    assert(joined@ =~= low@ + high@);
    joined
}

/// Splits a compressed point into its prefix and its coordinate.
pub fn point_to_contract(point: &[u8; 33]) -> (contract: ContractSecpPoint)
    ensures
        contract.prefix == point@[0],
        contract.x@ == point@.subrange(1, 33),
{
    ContractSecpPoint { prefix: point[0], x: word_at(point.as_slice(), 1) }
}

/// Puts a compressed point together.
pub fn point_from_contract(contract: &ContractSecpPoint) -> (point: [u8; 33])
    ensures
        point@ == seq![contract.prefix] + contract.x@,
{
    let mut point: [u8; 33] = [0; 33];
    point[0] = contract.prefix;
    let mut i: usize = 0;
    while i < 32
        invariant
            i <= 32,
            point@[0] == contract.prefix,
            forall|j: int| 0 <= j < i ==> point@[1 + j] == contract.x@[j],
        decreases 32 - i,
    {
        point[1 + i] = contract.x[i];
        i += 1;
    }
    assert(point@ =~= seq![contract.prefix] + contract.x@);
    point
}

/// A point survives the way to the contract and back.
pub proof fn law_point_round_trips(point: [u8; 33], contract: ContractSecpPoint, back: [u8; 33])
    requires
        contract.prefix == point@[0],
        contract.x@ == point@.subrange(1, 33),
        back@ == seq![contract.prefix] + contract.x@,
    ensures
        back == point,
{
    assert(back@ =~= point@);
    assert(back =~= point);
}

/// Whether every byte is zero.
pub open spec fn is_zero(bytes: Seq<u8>) -> bool {
    forall|i: int| 0 <= i < bytes.len() ==> #[trigger] bytes[i] == 0
}

fn zero_address(address: &Address) -> (zero: bool)
    ensures
        zero == is_zero(address.bytes@),
{
    let mut i: usize = 0;
    while i < 20
        invariant
            i <= 20,
            forall|j: int| 0 <= j < i ==> #[trigger] address.bytes@[j] == 0,
        decreases 20 - i,
    {
        if address.bytes[i] != 0 {
            assert(address.bytes@[i as int] != 0);
            return false;
        }
        i += 1;
    }
    true
}

impl ContractRegistration {
    /// The registration that the contract fields stand for.
    pub open spec fn stands_for(self, registration: RegistrationCall) -> bool {
        &&& self.qc_verifier == registration.qc_verifier
        &&& registration.receiver_public_key@ == seq![self.receiver_public_key.prefix]
            + self.receiver_public_key.x@
        &&& self.receiver_proof_nonce == registration.receiver_proof_nonce
        &&& registration.receiver_proof@ == self.receiver_proof_r@ + self.receiver_proof_s@
    }

    /// Whether the contract fields stand for a registration: its verifier is not
    /// the zero address.
    pub open spec fn is_valid(self) -> bool {
        !is_zero(self.qc_verifier.bytes@)
    }

    /// The contract fields of a registration, if it was made for `signer`.
    pub fn try_from(registration: &RegistrationCall, signer: Address) -> (result: Result<
        Self,
        ContractCodecError,
    >)
        ensures
            if registration.address == signer {
                result is Ok && result->Ok_0.stands_for(*registration)
            } else {
                result == Err::<Self, _>(
                    ContractCodecError::RegistrationAddress {
                        expected: signer,
                        actual: registration.address,
                    },
                )
            },
    {
        if !same_key(&registration.address, &signer) {
            return Err(
                ContractCodecError::RegistrationAddress {
                    expected: signer,
                    actual: registration.address,
                },
            );
        }
        let contract = ContractRegistration {
            qc_verifier: registration.qc_verifier,
            receiver_public_key: point_to_contract(&registration.receiver_public_key),
            receiver_proof_nonce: registration.receiver_proof_nonce,
            receiver_proof_r: word_at(registration.receiver_proof.as_slice(), 0),
            receiver_proof_s: word_at(registration.receiver_proof.as_slice(), 32),
        };
        proof {
            assert(registration.receiver_public_key@ =~= seq![contract.receiver_public_key.prefix]
                + contract.receiver_public_key.x@);
            assert(registration.receiver_proof@ =~= contract.receiver_proof_r@
                + contract.receiver_proof_s@);
        }
        Ok(contract)
    }

    /// The registration of `address`, unless its verifier is the zero address.
    pub fn into_registration(self, address: Address) -> (result: Result<
        RegistrationCall,
        ContractCodecError,
    >)
        ensures
            if !self.is_valid() {
                result == Err::<RegistrationCall, _>(
                    ContractCodecError::InvalidQcVerifier { address: self.qc_verifier },
                )
            } else {
                result is Ok && result->Ok_0.address == address && self.stands_for(result->Ok_0)
            },
    {
        if zero_address(&self.qc_verifier) {
            return Err(ContractCodecError::InvalidQcVerifier { address: self.qc_verifier });
        }
        Ok(
            RegistrationCall {
                address,
                qc_verifier: self.qc_verifier,
                receiver_public_key: point_from_contract(&self.receiver_public_key),
                receiver_proof_nonce: self.receiver_proof_nonce,
                receiver_proof: join_words(&self.receiver_proof_r, &self.receiver_proof_s),
            },
        )
    }
}

/// A registration survives the way to the contract and back.
pub proof fn law_registration_round_trips(
    registration: RegistrationCall,
    contract: ContractRegistration,
    back: RegistrationCall,
)
    requires
        contract.stands_for(registration),
        contract.stands_for(back),
        back.address == registration.address,
    ensures
        back == registration,
{
    assert(back.receiver_public_key =~= registration.receiver_public_key);
    assert(back.receiver_proof =~= registration.receiver_proof);
}

/// Whether a contract signature stands for a signature.
pub open spec fn stands_for_signature(contract: ContractQcSignature, signature: QcSignature) -> bool {
    &&& contract.signer == signature.signer.0
    &&& signature.signature@ == contract.r@ + contract.s@
}

/// Whether contract signatures stand for signatures, one by one.
pub open spec fn stand_for_signatures(
    contract: Seq<ContractQcSignature>,
    signatures: Seq<QcSignature>,
) -> bool {
    &&& contract.len() == signatures.len()
    &&& forall|i: int| #![trigger contract[i]] #![trigger signatures[i]]
        0 <= i < contract.len() ==> stands_for_signature(contract[i], signatures[i])
}

/// Whether the signer at `i` is in range and above its predecessor.
pub open spec fn well_placed(contract: Seq<ContractQcSignature>, party_count: usize, i: int) -> bool {
    contract[i].signer < party_count && (i > 0 ==> contract[i].signer > contract[i - 1].signer)
}

/// Whether `i` is the first position whose signer is out of range or not above
/// its predecessor.
pub open spec fn offends(contract: Seq<ContractQcSignature>, party_count: usize, i: int) -> bool {
    &&& 0 <= i < contract.len()
    &&& !well_placed(contract, party_count, i)
    &&& forall|j: int| 0 <= j < i ==> #[trigger] well_placed(contract, party_count, j)
}

/// Whether contract signatures are canonical: between one and `party_count` of
/// them, by parties of the session, in strictly ascending order.
pub open spec fn canonical_signatures(contract: Seq<ContractQcSignature>, party_count: usize) -> bool {
    &&& 1 <= contract.len() <= party_count
    &&& forall|i: int| 0 <= i < contract.len() ==> #[trigger] well_placed(contract, party_count, i)
}

/// The signature that a contract signature stands for.
pub open spec fn signature_of(contract: ContractQcSignature) -> QcSignature {
    choose|signature: QcSignature| stands_for_signature(contract, signature)
}

/// The signatures of a certificate, or why they are not accepted.
pub open spec fn decoded_signatures(contract: Seq<ContractQcSignature>, party_count: usize) -> Result<
    Seq<QcSignature>,
    ContractCodecError,
> {
    if contract.len() == 0 || contract.len() > party_count {
        Err(
            ContractCodecError::SignatureCount {
                count: contract.len() as usize,
                maximum: party_count,
            },
        )
    } else if canonical_signatures(contract, party_count) {
        Ok(contract.map_values(|signature: ContractQcSignature| signature_of(signature)))
    } else {
        let i = choose|i: int| offends(contract, party_count, i);
        if contract[i].signer >= party_count {
            Err(ContractCodecError::SignerOutOfRange { signer: contract[i].signer, party_count })
        } else {
            Err(ContractCodecError::NonCanonicalSigner { signer: contract[i].signer })
        }
    }
}

/// The model of a decoding result.
pub open spec fn signatures_result(
    result: Result<Vec<QcSignature>, ContractCodecError>,
) -> Result<Seq<QcSignature>, ContractCodecError> {
    match result {
        Ok(signatures) => Ok(signatures@),
        Err(error) => Err(error),
    }
}

/// A contract signature stands for one signature only.
pub proof fn lemma_signature_determined(contract: ContractQcSignature, signature: QcSignature)
    requires
        stands_for_signature(contract, signature),
    ensures
        signature_of(contract) == signature,
{
    let chosen = signature_of(contract);
    assert(stands_for_signature(contract, chosen));
    assert(chosen.signature =~= signature.signature);
}

impl ContractQcSignature {
    pub fn from_signature(signature: &QcSignature) -> (contract: Self)
        ensures
            stands_for_signature(contract, *signature),
    {
        let contract = ContractQcSignature {
            signer: signature.signer.0,
            r: word_at(signature.signature.as_slice(), 0),
            s: word_at(signature.signature.as_slice(), 32),
        };
        assert(signature.signature@ =~= contract.r@ + contract.s@);
        contract
    }

    /// The contract signatures of `signatures`, in the same order.
    pub fn encode_all(signatures: &Vec<QcSignature>) -> (contract: Vec<Self>)
        ensures
            stand_for_signatures(contract@, signatures@),
    {
        let mut contract: Vec<ContractQcSignature> = Vec::new();
        let mut i: usize = 0;
        while i < signatures.len()
            invariant
                i <= signatures@.len(),
                contract@.len() == i,
                forall|j: int| #![trigger contract@[j]]
                    0 <= j < i ==> stands_for_signature(contract@[j], signatures@[j]),
            decreases signatures@.len() - i,
        {
            contract.push(ContractQcSignature::from_signature(&signatures[i]));
            i += 1;
        }
        contract
    }

    /// The signatures of a certificate, if they are canonical.
    pub fn decode_all(contract: &Vec<Self>, party_count: usize) -> (result: Result<
        Vec<QcSignature>,
        ContractCodecError,
    >)
        ensures
            signatures_result(result) == decoded_signatures(contract@, party_count),
            result matches Ok(signatures) ==> signatures@.len() == contract@.len() && forall|i: int|
                0 <= i < signatures@.len() ==> (#[trigger] signatures@[i]).signer.0 == contract@[i].signer
                    && signatures@[i].signature@ == contract@[i].r@ + contract@[i].s@,
    {
        if contract.len() == 0 || contract.len() > party_count {
            return Err(
                ContractCodecError::SignatureCount { count: contract.len(), maximum: party_count },
            );
        }
        let mut signatures: Vec<QcSignature> = Vec::new();
        let mut previous: Option<u32> = None;
        let mut i: usize = 0;
        while i < contract.len()
            invariant
                1 <= contract@.len() <= party_count,
                i <= contract@.len(),
                signatures@.len() == i,
                previous == (if i == 0 {
                    None
                } else {
                    Some(contract@[i - 1].signer)
                }),
                forall|j: int| 0 <= j < i ==> #[trigger] well_placed(contract@, party_count, j),
                forall|j: int| #![trigger signatures@[j]]
                    0 <= j < i ==> stands_for_signature(contract@[j], signatures@[j]),
            decreases contract@.len() - i,
        {
            let signature: ContractQcSignature = contract[i];
            let signer: u32 = signature.signer;
            if signer as usize >= party_count {
                proof {
                    assert(!well_placed(contract@, party_count, i as int));
                    assert(offends(contract@, party_count, i as int));
                    let first = choose|k: int| offends(contract@, party_count, k);
                    assert(offends(contract@, party_count, first));
                    assert(first == i);
                }
                return Err(ContractCodecError::SignerOutOfRange { signer, party_count });
            }
            let out_of_order: bool = match previous {
                Some(previous) => signer <= previous,
                None => false,
            };
            if out_of_order {
                proof {
                    assert(!well_placed(contract@, party_count, i as int));
                    assert(offends(contract@, party_count, i as int));
                    let first = choose|k: int| offends(contract@, party_count, k);
                    assert(offends(contract@, party_count, first));
                    assert(first == i);
                }
                return Err(ContractCodecError::NonCanonicalSigner { signer });
            }
            previous = Some(signer);
            signatures.push(
                QcSignature {
                    signer: PartyId(signer),
                    signature: join_words(&signature.r, &signature.s),
                },
            );
            assert(well_placed(contract@, party_count, i as int));
            i += 1;
        }
        proof {
            let expected = contract@.map_values(
                |signature: ContractQcSignature| signature_of(signature),
            );
            assert forall|k: int| 0 <= k < expected.len() implies #[trigger] signatures@[k] == expected[k] by {
                lemma_signature_determined(contract@[k], signatures@[k]);
            }
            assert(signatures@ =~= expected);
        }
        Ok(signatures)
    }
}

/// Signatures by distinct parties in ascending order survive the way to the
/// contract and back.
pub proof fn law_canonical_signatures_round_trip(
    signatures: Seq<QcSignature>,
    contract: Seq<ContractQcSignature>,
    party_count: usize,
)
    requires
        1 <= signatures.len() <= party_count,
        forall|i: int| #![trigger signatures[i]]
            0 <= i < signatures.len() ==> signatures[i].signer.0 < party_count && (i > 0
                ==> signatures[i].signer.0 > signatures[i - 1].signer.0),
        stand_for_signatures(contract, signatures),
    ensures
        decoded_signatures(contract, party_count) == Ok::<Seq<QcSignature>, ContractCodecError>(
            signatures,
        ),
{
    assert forall|i: int| 0 <= i < contract.len() implies #[trigger] well_placed(
        contract,
        party_count,
        i,
    ) by {
        assert(stands_for_signature(contract[i], signatures[i]));
        if i > 0 {
            assert(stands_for_signature(contract[i - 1], signatures[i - 1]));
        }
    }
    let expected = contract.map_values(|signature: ContractQcSignature| signature_of(signature));
    assert forall|k: int| 0 <= k < expected.len() implies #[trigger] signatures[k] == expected[k] by {
        lemma_signature_determined(contract[k], signatures[k]);
    }
    assert(signatures =~= expected);
}

/// Moves signatures into ascending order of their signers.
pub open spec fn in_signer_order(signatures: Seq<QcSignature>) -> bool {
    forall|i: int, j: int|
        0 <= i <= j < signatures.len() ==> (#[trigger] signatures[i]).signer.0 <= (
        #[trigger] signatures[j]).signer.0
}

/// The contract signatures of `signatures`, in the order of their signers.
pub fn signatures_to_contract(signatures: &Vec<QcSignature>) -> (contract: Vec<ContractQcSignature>)
    ensures
        exists|sorted: Seq<QcSignature>|
            in_signer_order(sorted) && sorted.to_multiset() == signatures@.to_multiset()
                && #[trigger] stand_for_signatures(contract@, sorted),
{
    let mut sorted: Vec<QcSignature> = Vec::new();
    let mut i: usize = 0;
    proof {
        broadcast use vstd::seq_lib::group_to_multiset_ensures;

        assert(signatures@.take(0) =~= Seq::<QcSignature>::empty());
    }
    while i < signatures.len()
        invariant
            i <= signatures@.len(),
            sorted@.len() == i,
            in_signer_order(sorted@),
            sorted@.to_multiset() == signatures@.take(i as int).to_multiset(),
        decreases signatures@.len() - i,
    {
        let signature: QcSignature = signatures[i];
        let mut place: usize = sorted.len();
        while place > 0 && sorted[place - 1].signer.0 > signature.signer.0
            invariant
                place <= sorted@.len(),
                forall|j: int| place <= j < sorted@.len() ==> (#[trigger] sorted@[j]).signer.0
                    > signature.signer.0,
            decreases place,
        {
            place -= 1;
        }
        let ghost before = sorted@;
        sorted.insert(place, signature);
        proof {
            assert(sorted@ == before.insert(place as int, signature));
            assert(in_signer_order(sorted@)) by {
                assert forall|a: int, b: int| 0 <= a <= b < sorted@.len() implies (
                #[trigger] sorted@[a]).signer.0 <= (#[trigger] sorted@[b]).signer.0 by {
                    let a2 = if a < place { a } else { a - 1 };
                    let b2 = if b < place { b } else { b - 1 };
                    if a != place && b != place {
                        assert(before[a2].signer.0 <= before[b2].signer.0);
                    } else if a == place && b != place {
                        assert(before[b2].signer.0 > signature.signer.0);
                    } else if b == place && a != place {
                        assert(before[place - 1].signer.0 <= signature.signer.0);
                        assert(before[a2].signer.0 <= before[place - 1].signer.0);
                    }
                }
            }
            vstd::seq_lib::to_multiset_insert(before, place as int, signature);
            assert(signatures@.take(i + 1) =~= signatures@.take(i as int).push(signature));
            broadcast use vstd::seq_lib::group_to_multiset_ensures;

        }
        i += 1;
    }
    assert(signatures@.take(signatures@.len() as int) =~= signatures@);
    let contract: Vec<ContractQcSignature> = ContractQcSignature::encode_all(&sorted);
    assert(stand_for_signatures(contract@, sorted@));
    contract
}

/// Whether contract words stand for a serialized point.
pub open spec fn stands_for_point(words: Seq<[u8; 32]>, point: Seq<u8>) -> bool {
    &&& words.len() * 32 == point.len()
    &&& forall|i: int| #![trigger words[i]]
        0 <= i < words.len() ==> words[i]@ == point.subrange(32 * i, 32 * i + 32)
}

fn split_point(point: &[u8; 192]) -> (words: [[u8; 32]; 6])
    ensures
        stands_for_point(words@, point@),
{
    let mut words: [[u8; 32]; 6] = [[0u8; 32]; 6];
    let mut i: usize = 0;
    while i < 6
        invariant
            i <= 6,
            forall|j: int| #![trigger words@[j]]
                0 <= j < i ==> words@[j]@ == point@.subrange(32 * j, 32 * j + 32),
        decreases 6 - i,
    {
        words[i] = word_at(point.as_slice(), 32 * i);
        i += 1;
    }
    words
}

fn join_point(words: &[[u8; 32]; 6]) -> (point: [u8; 192])
    ensures
        stands_for_point(words@, point@),
{
    let mut point: [u8; 192] = [0; 192];
    let mut i: usize = 0;
    while i < 192
        invariant
            i <= 192,
            forall|j: int| #![trigger point@[j]] 0 <= j < i ==> point@[j] == words@[j / 32]@[j % 32],
        decreases 192 - i,
    {
        let word: usize = i / 32;
        let offset: usize = i % 32;
        point[i] = words[word][offset];
        i += 1;
    }
    assert forall|k: int| #![trigger words@[k]] 0 <= k < 6 implies words@[k]@ == point@.subrange(
        32 * k,
        32 * k + 32,
    ) by {
        let part = point@.subrange(32 * k, 32 * k + 32);
        assert forall|j: int| 0 <= j < 32 implies #[trigger] part[j] == words@[k]@[j] by {
            assert((32 * k + j) / 32 == k);
            assert((32 * k + j) % 32 == j);
            assert(point@[32 * k + j] == words@[k]@[j]);
        }
        assert(words@[k]@ =~= part);
    }
    point
}

/// The point that contract words stand for.
pub open spec fn point_of(words: Seq<[u8; 32]>) -> [u8; 192] {
    choose|point: [u8; 192]| stands_for_point(words, point@)
}

/// Contract words stand for one point only.
pub proof fn lemma_point_determined(words: Seq<[u8; 32]>, a: [u8; 192])
    requires
        words.len() == 6,
        stands_for_point(words, a@),
    ensures
        point_of(words) == a,
{
    let b = point_of(words);
    assert(stands_for_point(words, b@));
    assert forall|j: int| 0 <= j < 192 implies #[trigger] a@[j] == b@[j] by {
        let k = j / 32;
        assert(0 <= k < 6);
        assert(words[k]@ == a@.subrange(32 * k, 32 * k + 32));
        assert(words[k]@ == b@.subrange(32 * k, 32 * k + 32));
        assert(a@[j] == a@.subrange(32 * k, 32 * k + 32)[j - 32 * k]);
        assert(b@[j] == b@.subrange(32 * k, 32 * k + 32)[j - 32 * k]);
    }
    assert(a =~= b);
}

/// The model of an event decoding.
pub open spec fn event_result(result: Result<ChainEvent, ContractCodecError>) -> Result<
    ChainEventView,
    ContractCodecError,
> {
    match result {
        Ok(event) => Ok(event@),
        Err(error) => Err(error),
    }
}

impl ContractPcQc {
    /// Whether the contract value stands for a certificate.
    pub open spec fn stands_for(self, qc: PcQcView) -> bool {
        &&& self.dealer == qc.dealer.0
        &&& self.digest == qc.digest
        &&& stand_for_signatures(self.signatures@, qc.signatures)
    }

    /// The event of record `record_id`, if the signatures are canonical.
    pub open spec fn event(self, record_id: RecordId, party_count: usize) -> Result<
        ChainEventView,
        ContractCodecError,
    > {
        match decoded_signatures(self.signatures@, party_count) {
            Ok(signatures) => Ok(
                ChainEventView::PcQc {
                    record_id,
                    qc: PcQcView { dealer: PartyId(self.dealer), digest: self.digest, signatures },
                },
            ),
            Err(error) => Err(error),
        }
    }

    pub fn from_qc(qc: &PcQc) -> (contract: Self)
        ensures
            contract.stands_for(qc@),
    {
        ContractPcQc {
            dealer: qc.dealer.0,
            digest: qc.digest,
            signatures: ContractQcSignature::encode_all(&qc.signatures),
        }
    }

    pub fn into_chain_event(self, record_id: RecordId, party_count: usize) -> (result: Result<
        ChainEvent,
        ContractCodecError,
    >)
        ensures
            event_result(result) == self.event(record_id, party_count),
    {
        match ContractQcSignature::decode_all(&self.signatures, party_count) {
            Ok(signatures) => Ok(
                ChainEvent::PcQc {
                    record_id,
                    qc: PcQc { dealer: PartyId(self.dealer), digest: self.digest, signatures },
                },
            ),
            Err(error) => Err(error),
        }
    }
}

impl ContractBveQc {
    /// Whether the contract value stands for a certificate.
    pub open spec fn stands_for(self, qc: BveQcView) -> bool {
        &&& self.dealer == qc.dealer.0
        &&& self.digest == qc.digest
        &&& self.commitment_digest == qc.commitment_digest
        &&& stand_for_signatures(self.signatures@, qc.signatures)
    }

    /// The event of record `record_id`, if the signatures are canonical.
    pub open spec fn event(self, record_id: RecordId, party_count: usize) -> Result<
        ChainEventView,
        ContractCodecError,
    > {
        match decoded_signatures(self.signatures@, party_count) {
            Ok(signatures) => Ok(
                ChainEventView::BveQcFinalized {
                    record_id,
                    qc: BveQcView {
                        dealer: PartyId(self.dealer),
                        digest: self.digest,
                        commitment_digest: self.commitment_digest,
                        signatures,
                    },
                },
            ),
            Err(error) => Err(error),
        }
    }

    pub fn from_qc(qc: &BveQc) -> (contract: Self)
        ensures
            contract.stands_for(qc@),
    {
        ContractBveQc {
            dealer: qc.dealer.0,
            digest: qc.digest,
            commitment_digest: qc.commitment_digest,
            signatures: ContractQcSignature::encode_all(&qc.signatures),
        }
    }

    pub fn into_chain_event(self, record_id: RecordId, party_count: usize) -> (result: Result<
        ChainEvent,
        ContractCodecError,
    >)
        ensures
            event_result(result) == self.event(record_id, party_count),
    {
        match ContractQcSignature::decode_all(&self.signatures, party_count) {
            Ok(signatures) => Ok(
                ChainEvent::BveQcFinalized {
                    record_id,
                    qc: BveQc {
                        dealer: PartyId(self.dealer),
                        digest: self.digest,
                        commitment_digest: self.commitment_digest,
                        signatures,
                    },
                },
            ),
            Err(error) => Err(error),
        }
    }
}

impl ContractDkgResult {
    /// Whether the contract value stands for a certificate.
    pub open spec fn stands_for(self, qc: DoneQcView) -> bool {
        &&& self.session_id == qc.session_id
        &&& stands_for_point(self.g2x@, qc.g2x@)
        &&& stand_for_signatures(self.signatures@, qc.signatures)
    }

    /// The event of record `record_id`, if the signatures are canonical.
    pub open spec fn event(self, record_id: RecordId, epoch: u64, party_count: usize) -> Result<
        ChainEventView,
        ContractCodecError,
    > {
        match decoded_signatures(self.signatures@, party_count) {
            Ok(signatures) => Ok(
                ChainEventView::DkgResultRecorded {
                    record_id,
                    qc: DoneQcView {
                        epoch,
                        session_id: self.session_id,
                        g2x: point_of(self.g2x@),
                        signatures,
                    },
                },
            ),
            Err(error) => Err(error),
        }
    }

    pub fn from_qc(qc: &DkgDoneQc) -> (contract: Self)
        ensures
            contract.stands_for(qc@),
    {
        ContractDkgResult {
            session_id: qc.session_id,
            g2x: split_point(&qc.g2x),
            signatures: ContractQcSignature::encode_all(&qc.signatures),
        }
    }

    pub fn into_chain_event(self, record_id: RecordId, epoch: u64, party_count: usize) -> (result: Result<
        ChainEvent,
        ContractCodecError,
    >)
        ensures
            event_result(result) == self.event(record_id, epoch, party_count),
    {
        match ContractQcSignature::decode_all(&self.signatures, party_count) {
            Ok(signatures) => {
                let g2x: [u8; 192] = join_point(&self.g2x);
                proof {
                    lemma_point_determined(self.g2x@, g2x);
                }
                Ok(
                    ChainEvent::DkgResultRecorded {
                        record_id,
                        qc: DkgDoneQc { epoch, session_id: self.session_id, g2x, signatures },
                    },
                )
            },
            Err(error) => Err(error),
        }
    }
}

/// A result survives the way to the contract and back.
pub proof fn law_result_round_trips(
    qc: DoneQcView,
    contract: ContractDkgResult,
    record_id: RecordId,
    party_count: usize,
)
    requires
        contract.stands_for(qc),
        1 <= qc.signatures.len() <= party_count,
        forall|i: int| #![trigger qc.signatures[i]]
            0 <= i < qc.signatures.len() ==> qc.signatures[i].signer.0 < party_count && (i > 0
                ==> qc.signatures[i].signer.0 > qc.signatures[i - 1].signer.0),
    ensures
        contract.event(record_id, qc.epoch, party_count) == Ok::<ChainEventView, ContractCodecError>(
            ChainEventView::DkgResultRecorded { record_id, qc },
        ),
{
    law_canonical_signatures_round_trip(qc.signatures, contract.signatures@, party_count);
    lemma_point_determined(contract.g2x@, qc.g2x);
}

/// What a stored record is.
#[derive(Clone, Copy, Debug, PartialEq, Eq, Structural)]
pub enum ContractRecordKind {
    PcQc,
    BveQc,
    DkgResult,
    Invalid,
}

/// A record of any kind, with the fields of all of them.
#[derive(Debug)]
pub struct ContractDkgRecord {
    pub kind: ContractRecordKind,
    pub dealer: u32,
    pub digest: [u8; 32],
    pub commitment_digest: [u8; 32],
    pub result_epoch: u64,
    pub session_id: [u8; 32],
    pub g2x: [[u8; 32]; 6],
    pub signatures: Vec<ContractQcSignature>,
}

/// Why a record of any kind is not an event.
#[derive(Clone, Copy, Debug)]
pub enum StoredRecordError {
    InvalidRecordKind,
    Contract(ContractCodecError),
}

/// The event of a record, by its kind.
pub fn record_to_chain_event(record_id: RecordId, record: ContractDkgRecord, party_count: usize) -> (result:
    Result<ChainEvent, StoredRecordError>)
    ensures
        match record.kind {
            ContractRecordKind::Invalid => result matches Err(StoredRecordError::InvalidRecordKind),
            _ => {
                let expected = match record.kind {
                    ContractRecordKind::PcQc => (ContractPcQc {
                        dealer: record.dealer,
                        digest: record.digest,
                        signatures: record.signatures,
                    }).event(record_id, party_count),
                    ContractRecordKind::BveQc => (ContractBveQc {
                        dealer: record.dealer,
                        digest: record.digest,
                        commitment_digest: record.commitment_digest,
                        signatures: record.signatures,
                    }).event(record_id, party_count),
                    _ => (ContractDkgResult {
                        session_id: record.session_id,
                        g2x: record.g2x,
                        signatures: record.signatures,
                    }).event(record_id, record.result_epoch, party_count),
                };
                match result {
                    Ok(event) => expected == Ok::<ChainEventView, ContractCodecError>(event@),
                    Err(StoredRecordError::Contract(error)) => expected == Err::<
                        ChainEventView,
                        ContractCodecError,
                    >(error),
                    Err(StoredRecordError::InvalidRecordKind) => false,
                }
            },
        },
{
    let event: Result<ChainEvent, ContractCodecError> = match record.kind {
        ContractRecordKind::PcQc => (ContractPcQc {
            dealer: record.dealer,
            digest: record.digest,
            signatures: record.signatures,
        }).into_chain_event(record_id, party_count),
        ContractRecordKind::BveQc => (ContractBveQc {
            dealer: record.dealer,
            digest: record.digest,
            commitment_digest: record.commitment_digest,
            signatures: record.signatures,
        }).into_chain_event(record_id, party_count),
        ContractRecordKind::DkgResult => (ContractDkgResult {
            session_id: record.session_id,
            g2x: record.g2x,
            signatures: record.signatures,
        }).into_chain_event(record_id, record.result_epoch, party_count),
        ContractRecordKind::Invalid => {
            return Err(StoredRecordError::InvalidRecordKind);
        },
    };
    match event {
        Ok(event) => Ok(event),
        Err(error) => Err(StoredRecordError::Contract(error)),
    }
}

/// Signatures of a certificate are accepted exactly where there is one at least, no
/// more than parties, and their signers are parties in strictly ascending order.
pub proof fn law_signatures_are_accepted_in_order(
    contract: Seq<ContractQcSignature>,
    party_count: usize,
)
    ensures
        decoded_signatures(contract, party_count) is Ok <==> 1 <= contract.len() <= party_count && (
        forall|k: int|
            0 <= k < contract.len() ==> (#[trigger] contract[k]).signer < party_count) && (forall|
            k: int,
        |
            0 < k < contract.len() ==> contract[k - 1].signer < (#[trigger] contract[k]).signer),
        decoded_signatures(contract, party_count) matches Ok(signatures) ==> signatures.len()
            == contract.len(),
        contract.len() == 0 || contract.len() > party_count ==> decoded_signatures(contract, party_count)
            matches Err(ContractCodecError::SignatureCount { .. }),
{
    let fine = (forall|k: int|
        0 <= k < contract.len() ==> (#[trigger] contract[k]).signer < party_count) && (forall|k: int|
        0 < k < contract.len() ==> contract[k - 1].signer < (#[trigger] contract[k]).signer);
    if canonical_signatures(contract, party_count) {
        assert forall|k: int| 0 <= k < contract.len() implies (#[trigger] contract[k]).signer
            < party_count by {
            assert(well_placed(contract, party_count, k));
        }
        assert forall|k: int| 0 < k < contract.len() implies contract[k - 1].signer < (
        #[trigger] contract[k]).signer by {
            assert(well_placed(contract, party_count, k));
        }
    }
    if fine {
        assert forall|k: int| 0 <= k < contract.len() implies #[trigger] well_placed(
            contract,
            party_count,
            k,
        ) by {
            assert(contract[k].signer < party_count);
        }
    }
}

/// A certificate of the contract becomes the event of its sort, with its record, its
/// dealer, its digests and one signature for each of its own, exactly where its
/// signatures are accepted.
pub proof fn law_certificate_becomes_its_event(
    pc: ContractPcQc,
    bve: ContractBveQc,
    done: ContractDkgResult,
    record_id: RecordId,
    epoch: u64,
    party_count: usize,
)
    ensures
        pc.event(record_id, party_count) is Ok <==> decoded_signatures(
            pc.signatures@,
            party_count,
        ) is Ok,
        pc.event(record_id, party_count) matches Ok(event) ==> (event matches ChainEventView::PcQc {
            record_id: id,
            qc,
        } && id == record_id && qc.dealer.0 == pc.dealer && qc.digest == pc.digest && qc.signatures.len()
            == pc.signatures@.len()),
        bve.event(record_id, party_count) is Ok <==> decoded_signatures(
            bve.signatures@,
            party_count,
        ) is Ok,
        bve.event(record_id, party_count) matches Ok(event) ==> (
        event matches ChainEventView::BveQcFinalized { record_id: id, qc } && id == record_id
            && qc.dealer.0 == bve.dealer && qc.digest == bve.digest && qc.commitment_digest
            == bve.commitment_digest && qc.signatures.len() == bve.signatures@.len()),
        done.event(record_id, epoch, party_count) is Ok <==> decoded_signatures(
            done.signatures@,
            party_count,
        ) is Ok,
        done.event(record_id, epoch, party_count) matches Ok(event) ==> (
        event matches ChainEventView::DkgResultRecorded { record_id: id, qc } && id == record_id
            && qc.epoch == epoch && qc.session_id == done.session_id && qc.signatures.len()
            == done.signatures@.len()),
{
}

/// Contract values keep what they stand for: the dealer, the digests, and for each
/// signature its signer and its bytes.
pub proof fn law_contract_values_keep_their_parts(
    pc: ContractPcQc,
    pc_qc: PcQcView,
    bve: ContractBveQc,
    bve_qc: BveQcView,
    done: ContractDkgResult,
    done_qc: DoneQcView,
    i: int,
)
    ensures
        pc.stands_for(pc_qc) ==> pc.dealer == pc_qc.dealer.0 && pc.digest == pc_qc.digest
            && pc.signatures@.len() == pc_qc.signatures.len() && (0 <= i < pc.signatures@.len()
            ==> pc.signatures@[i].signer == pc_qc.signatures[i].signer.0 && pc.signatures@[i].r@
            + pc.signatures@[i].s@ == pc_qc.signatures[i].signature@),
        bve.stands_for(bve_qc) ==> bve.dealer == bve_qc.dealer.0 && bve.digest == bve_qc.digest
            && bve.commitment_digest == bve_qc.commitment_digest && bve.signatures@.len()
            == bve_qc.signatures.len() && (0 <= i < bve.signatures@.len() ==> bve.signatures@[i].signer
            == bve_qc.signatures[i].signer.0 && bve.signatures@[i].r@ + bve.signatures@[i].s@
            == bve_qc.signatures[i].signature@),
        done.stands_for(done_qc) ==> done.session_id == done_qc.session_id && done.signatures@.len()
            == done_qc.signatures.len() && (0 <= i < 6 ==> done.g2x@[i]@ == done_qc.g2x@.subrange(
            32 * i,
            32 * i + 32,
        )) && (0 <= i < done.signatures@.len() ==> done.signatures@[i].signer
            == done_qc.signatures[i].signer.0 && done.signatures@[i].r@ + done.signatures@[i].s@
            == done_qc.signatures[i].signature@),
{
}

/// A registration of the contract is valid exactly where its verifier is not the
/// zero address.
pub proof fn law_zero_verifier_is_invalid(contract: ContractRegistration, i: int)
    requires
        0 <= i < 20,
    ensures
        contract.qc_verifier.bytes@[i] != 0 ==> contract.is_valid(),
        !contract.is_valid() ==> contract.qc_verifier.bytes@[i] == 0,
{
}

/// Contract signatures go by their signers, the lowest first.
pub proof fn law_contract_signatures_are_sorted(
    contract: Seq<ContractQcSignature>,
    sorted: Seq<QcSignature>,
    i: int,
    j: int,
)
    requires
        in_signer_order(sorted),
        stand_for_signatures(contract, sorted),
        0 <= i <= j < contract.len(),
    ensures
        contract[i].signer <= contract[j].signer,
        contract.len() == sorted.len(),
{
    assert(stands_for_signature(contract[i], sorted[i]));
    assert(stands_for_signature(contract[j], sorted[j]));
}

/// The model of an outcome is a success exactly where the outcome is one, and says
/// what it holds.
pub proof fn law_outcomes_are_shown_as_they_are(
    signatures: Result<Vec<QcSignature>, ContractCodecError>,
    event: Result<ChainEvent, ContractCodecError>,
)
    ensures
        signatures_result(signatures) is Ok <==> signatures is Ok,
        signatures is Ok ==> signatures_result(signatures)->Ok_0 == signatures->Ok_0@,
        signatures is Err ==> signatures_result(signatures)->Err_0 == signatures->Err_0,
        event_result(event) is Ok <==> event is Ok,
        event is Ok ==> event_result(event)->Ok_0 == event->Ok_0@,
        event is Err ==> event_result(event)->Err_0 == event->Err_0,
{
}

} // verus!
