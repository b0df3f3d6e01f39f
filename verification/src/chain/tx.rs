//! Transactions of the contract: their identity, their fees, and their signatures.

use crate::chain::codec::{ContractBveQc, ContractDkgResult, ContractPcQc, ContractRegistration};
use crate::chain::types::{ChainCall, ChainEvent, ChainEventView, RegistrationCall};
use crate::digest::{blake3_digest, blake3_hash};
use crate::dkg::error::DkgError;
use crate::dkg::ids::{Address, Epoch};
use crate::dkg::keys::{zeroize_bytes, DkgLocalKeyMaterial};
use crate::octets::copy_bytes;
use crate::order::{Key, Rank};
use crate::reliable::message::same_key;
use vstd::prelude::*;

verus! {

/// The gas of a transaction.
pub const DEFAULT_TX_GAS_LIMIT: u64 = 5_000_000;

/// The tip of a transaction.
pub const DEFAULT_TX_MAX_PRIORITY_FEE_PER_GAS: u128 = 1;

/// The signer's nonce and the latest base fee.
#[derive(Clone, Copy, Debug, PartialEq, Eq, Structural)]
pub struct DkgTransactionContext {
    pub nonce: u64,
    pub base_fee_per_gas: u64,
}

/// The context for an account and a header: an account or a fee that is not
/// there counts as zero.
pub fn transaction_context(nonce: Option<u64>, base_fee_per_gas: Option<u64>) -> (context:
    DkgTransactionContext)
    ensures
        context.nonce == (match nonce {
            Some(nonce) => nonce,
            None => 0,
        }),
        context.base_fee_per_gas == (match base_fee_per_gas {
            Some(fee) => fee,
            None => 0,
        }),
{
    DkgTransactionContext {
        nonce: match nonce {
            Some(nonce) => nonce,
            None => 0,
        },
        base_fee_per_gas: match base_fee_per_gas {
            Some(fee) => fee,
            None => 0,
        },
    }
}

/// How the node submits transactions.
#[derive(Clone)]
pub struct DkgChainConfig {
    pub signing_key: [u8; 32],
    pub local_keys: DkgLocalKeyMaterial,
    pub contract: Address,
    pub chain_id: u64,
    pub gas_limit: u64,
    pub max_priority_fee_per_gas: u128,
}

impl DkgChainConfig {
    /// The configuration for a signing key. There is none where no protocol key
    /// can be derived of it.
    pub fn new(signing_key: [u8; 32], contract: Address, chain_id: u64) -> (config: Option<Self>)
        ensures
            match config {
                Some(config) => {
                    &&& config.signing_key == signing_key
                    &&& config.contract == contract
                    &&& config.chain_id == chain_id
                    &&& config.gas_limit == DEFAULT_TX_GAS_LIMIT
                    &&& config.max_priority_fee_per_gas == DEFAULT_TX_MAX_PRIORITY_FEE_PER_GAS
                    &&& crate::dkg::keys::derived_key(
                        signing_key@,
                        crate::dkg::keys::RECEIVER_KEY_DERIVATION@,
                    ) == Some(config.local_keys.receiver_secret_key@)
                    &&& crate::dkg::keys::derived_key(
                        signing_key@,
                        crate::dkg::keys::QC_KEY_DERIVATION@,
                    ) == Some(config.local_keys.qc_signing_key@)
                },
                None => crate::dkg::keys::derived_key(
                    signing_key@,
                    crate::dkg::keys::RECEIVER_KEY_DERIVATION@,
                ) is None || crate::dkg::keys::derived_key(
                    signing_key@,
                    crate::dkg::keys::QC_KEY_DERIVATION@,
                ) is None,
            },
    {
        match DkgLocalKeyMaterial::derive(signing_key) {
            Some(local_keys) => Some(
                DkgChainConfig {
                    signing_key,
                    local_keys,
                    contract,
                    chain_id,
                    gas_limit: DEFAULT_TX_GAS_LIMIT,
                    max_priority_fee_per_gas: DEFAULT_TX_MAX_PRIORITY_FEE_PER_GAS,
                },
            ),
            None => None,
        }
    }
}

impl Drop for DkgChainConfig {
    /// Overwrites the signing key with zero.
    fn drop(&mut self)
        opens_invariants none
        no_unwind
    {
        zeroize_bytes(&mut self.signing_key);
    }
}

/// What a transaction puts on the chain. Two calls with one identity are for the
/// same artifact.
#[derive(Clone, Copy, Debug)]
#[allow(inconsistent_fields)]
pub enum ChainTxId {
    Registration { digest: [u8; 32] },
    PcQc { dealer: u32, digest: [u8; 32] },
    BveQc { dealer: u32, commitment_digest: [u8; 32], digest: [u8; 32] },
    DkgResult { g2x: [u8; 192] },
}

impl ChainTxId {
    /// The place of a kind among the kinds.
    pub open spec fn place(self) -> nat {
        match self {
            ChainTxId::Registration { .. } => 0,
            ChainTxId::PcQc { .. } => 1,
            ChainTxId::BveQc { .. } => 2,
            ChainTxId::DkgResult { .. } => 3,
        }
    }

    fn position(&self) -> (position: u8)
        ensures
            position == self.place(),
    {
        match self {
            ChainTxId::Registration { .. } => 0,
            ChainTxId::PcQc { .. } => 1,
            ChainTxId::BveQc { .. } => 2,
            ChainTxId::DkgResult { .. } => 3,
        }
    }

    pub fn is_registration(&self) -> (registration: bool)
        ensures
            registration == (self is Registration),
    {
        match self {
            ChainTxId::Registration { .. } => true,
            _ => false,
        }
    }
}

impl Key for ChainTxId {
    open spec fn before(self, other: Self) -> bool {
        self.place() < other.place() || match (self, other) {
            (ChainTxId::Registration { digest: a }, ChainTxId::Registration { digest: b }) => a.before(
                b,
            ),
            (
                ChainTxId::PcQc { dealer: a, digest: x },
                ChainTxId::PcQc { dealer: b, digest: y },
            ) => (a, x).before((b, y)),
            (
                ChainTxId::BveQc { dealer: a, commitment_digest: c, digest: x },
                ChainTxId::BveQc { dealer: b, commitment_digest: d, digest: y },
            ) => (a, (c, x)).before((b, (d, y))),
            (ChainTxId::DkgResult { g2x: a }, ChainTxId::DkgResult { g2x: b }) => a.before(b),
            _ => false,
        }
    }

    proof fn irreflexive(a: Self) {
        match a {
            ChainTxId::Registration { digest } => <[u8; 32] as Key>::irreflexive(digest),
            ChainTxId::PcQc { dealer, digest } => <(u32, [u8; 32]) as Key>::irreflexive(
                (dealer, digest),
            ),
            ChainTxId::BveQc { dealer, commitment_digest, digest } => <(
                u32,
                ([u8; 32], [u8; 32]),
            ) as Key>::irreflexive((dealer, (commitment_digest, digest))),
            ChainTxId::DkgResult { g2x } => <[u8; 192] as Key>::irreflexive(g2x),
        }
    }

    proof fn transitive(a: Self, b: Self, c: Self) {
        match (a, b, c) {
            (
                ChainTxId::Registration { digest: x },
                ChainTxId::Registration { digest: y },
                ChainTxId::Registration { digest: z },
            ) => <[u8; 32] as Key>::transitive(x, y, z),
            (
                ChainTxId::PcQc { dealer: p, digest: x },
                ChainTxId::PcQc { dealer: q, digest: y },
                ChainTxId::PcQc { dealer: r, digest: z },
            ) => <(u32, [u8; 32]) as Key>::transitive((p, x), (q, y), (r, z)),
            (
                ChainTxId::BveQc { dealer: p, commitment_digest: s, digest: x },
                ChainTxId::BveQc { dealer: q, commitment_digest: t, digest: y },
                ChainTxId::BveQc { dealer: r, commitment_digest: u, digest: z },
            ) => <(u32, ([u8; 32], [u8; 32])) as Key>::transitive(
                (p, (s, x)),
                (q, (t, y)),
                (r, (u, z)),
            ),
            (
                ChainTxId::DkgResult { g2x: x },
                ChainTxId::DkgResult { g2x: y },
                ChainTxId::DkgResult { g2x: z },
            ) => <[u8; 192] as Key>::transitive(x, y, z),
            _ => {},
        }
    }

    proof fn total(a: Self, b: Self) {
        match (a, b) {
            (ChainTxId::Registration { digest: x }, ChainTxId::Registration { digest: y }) => <[u8; 32] as Key>::total(x, y),
            (
                ChainTxId::PcQc { dealer: p, digest: x },
                ChainTxId::PcQc { dealer: q, digest: y },
            ) => <(u32, [u8; 32]) as Key>::total((p, x), (q, y)),
            (
                ChainTxId::BveQc { dealer: p, commitment_digest: s, digest: x },
                ChainTxId::BveQc { dealer: q, commitment_digest: t, digest: y },
            ) => <(u32, ([u8; 32], [u8; 32])) as Key>::total((p, (s, x)), (q, (t, y))),
            (ChainTxId::DkgResult { g2x: x }, ChainTxId::DkgResult { g2x: y }) => <[u8; 192] as Key>::total(x, y),
            _ => {},
        }
    }

    fn rank(&self, other: &Self) -> Rank {
        let own: u8 = self.position();
        let theirs: u8 = other.position();
        if own < theirs {
            return Rank::Less;
        }
        if own > theirs {
            return Rank::Greater;
        }
        match (self, other) {
            (ChainTxId::Registration { digest: a }, ChainTxId::Registration { digest: b }) => a.rank(b),
            (
                ChainTxId::PcQc { dealer: a, digest: x },
                ChainTxId::PcQc { dealer: b, digest: y },
            ) => (*a, *x).rank(&(*b, *y)),
            (
                ChainTxId::BveQc { dealer: a, commitment_digest: c, digest: x },
                ChainTxId::BveQc { dealer: b, commitment_digest: d, digest: y },
            ) => (*a, (*c, *x)).rank(&(*b, (*d, *y))),
            (ChainTxId::DkgResult { g2x: a }, ChainTxId::DkgResult { g2x: b }) => a.rank(b),
            _ => Rank::Equal,
        }
    }

    fn duplicate(&self) -> Self {
        *self
    }
}

/// The bytes of a registration, field after field.
pub open spec fn registration_bytes(registration: RegistrationCall) -> Seq<u8> {
    registration.address.bytes@ + registration.qc_verifier.bytes@
        + registration.receiver_public_key@ + crate::octets::le_bytes(
        registration.receiver_proof_nonce as nat,
        8,
    ) + registration.receiver_proof@
}

fn push_all(bytes: &mut Vec<u8>, more: &[u8])
    ensures
        final(bytes)@ == old(bytes)@ + more@,
{
    let ghost before = bytes@;
    let mut i: usize = 0;
    while i < more.len()
        invariant
            i <= more@.len(),
            bytes@ == before + more@.take(i as int),
        decreases more@.len() - i,
    {
        bytes.push(more[i]);
        assert(more@.take(i + 1) =~= more@.take(i as int).push(more@[i as int]));
        i += 1;
    }
    assert(more@.take(more@.len() as int) =~= more@);
}

fn encode_registration(registration: &RegistrationCall) -> (bytes: Vec<u8>)
    ensures
        bytes@ == registration_bytes(*registration),
{
    let mut bytes: Vec<u8> = Vec::new();
    push_all(&mut bytes, registration.address.bytes.as_slice());
    push_all(&mut bytes, registration.qc_verifier.bytes.as_slice());
    push_all(&mut bytes, registration.receiver_public_key.as_slice());
    let nonce: Vec<u8> = crate::octets::number_bytes(registration.receiver_proof_nonce);
    push_all(&mut bytes, nonce.as_slice());
    push_all(&mut bytes, registration.receiver_proof.as_slice());
    assert(bytes@ =~= registration_bytes(*registration));
    bytes
}

/// Whether `id` is the identity of a registration.
pub open spec fn identifies_registration(id: ChainTxId, registration: RegistrationCall) -> bool {
    id matches ChainTxId::Registration { digest } && digest@ == blake3_digest(
        registration_bytes(registration),
    )
}

/// Whether `id` is the identity of a call.
pub open spec fn identifies_call(id: ChainTxId, call: ChainCall) -> bool {
    match call {
        ChainCall::PostPcQc(qc) => id == (ChainTxId::PcQc { dealer: qc.dealer.0, digest: qc.digest }),
        ChainCall::PostBveQc(qc) => id == (ChainTxId::BveQc {
            dealer: qc.dealer.0,
            commitment_digest: qc.commitment_digest,
            digest: qc.digest,
        }),
        ChainCall::PostDkgResult(qc) => id == (ChainTxId::DkgResult { g2x: qc.g2x }),
        ChainCall::PostRegistration { registration, .. } => identifies_registration(
            id,
            registration,
        ),
    }
}

/// The identity of the artifact that an event reports.
pub open spec fn event_tx_id(event: ChainEventView) -> ChainTxId {
    match event {
        ChainEventView::PcQc { qc, .. } => ChainTxId::PcQc { dealer: qc.dealer.0, digest: qc.digest },
        ChainEventView::BveQcFinalized { qc, .. } => ChainTxId::BveQc {
            dealer: qc.dealer.0,
            commitment_digest: qc.commitment_digest,
            digest: qc.digest,
        },
        ChainEventView::DkgResultRecorded { qc, .. } => ChainTxId::DkgResult { g2x: qc.g2x },
    }
}

impl ChainTxId {
    pub fn of_registration(registration: &RegistrationCall) -> (id: Self)
        ensures
            identifies_registration(id, *registration),
    {
        ChainTxId::Registration { digest: blake3_hash(&encode_registration(registration)) }
    }

    pub fn of_call(call: &ChainCall) -> (id: Self)
        ensures
            identifies_call(id, *call),
    {
        match call {
            ChainCall::PostPcQc(qc) => ChainTxId::PcQc { dealer: qc.dealer.0, digest: qc.digest },
            ChainCall::PostBveQc(qc) => ChainTxId::BveQc {
                dealer: qc.dealer.0,
                commitment_digest: qc.commitment_digest,
                digest: qc.digest,
            },
            ChainCall::PostDkgResult(qc) => ChainTxId::DkgResult { g2x: qc.g2x },
            ChainCall::PostRegistration { registration, .. } => ChainTxId::of_registration(
                registration,
            ),
        }
    }

    pub fn of_event(event: &ChainEvent) -> (id: Self)
        ensures
            id == event_tx_id(event@),
    {
        match event {
            ChainEvent::PcQc { qc, .. } => ChainTxId::PcQc { dealer: qc.dealer.0, digest: qc.digest },
            ChainEvent::BveQcFinalized { qc, .. } => ChainTxId::BveQc {
                dealer: qc.dealer.0,
                commitment_digest: qc.commitment_digest,
                digest: qc.digest,
            },
            ChainEvent::DkgResultRecorded { qc, .. } => ChainTxId::DkgResult { g2x: qc.g2x },
        }
    }
}

/// The nonce and the fee of a signed transaction.
#[derive(Clone, Copy, Debug, PartialEq, Eq, Structural)]
pub struct PreparedTransaction {
    pub nonce: u64,
    pub max_fee_per_gas: u128,
}

/// What becomes of a signed transaction in a new context.
#[derive(Clone, Copy, Debug, PartialEq, Eq, Structural)]
pub enum RefreshDecision {
    /// Its nonce is used up.
    Obsolete,
    /// It is sent again as it is.
    Keep,
    /// A transaction with this fee is signed in its place.
    Prepare { max_fee_per_gas: u128 },
}

/// The base fee with a buffer of a half for fees that rise.
pub open spec fn buffered_base_fee(base_fee_per_gas: nat) -> nat {
    base_fee_per_gas * 3 / 2
}

/// The fee cap in a context.
pub open spec fn fee_cap(context: DkgTransactionContext, max_priority_fee_per_gas: u128) -> u128 {
    let fee = buffered_base_fee(context.base_fee_per_gas as nat) + max_priority_fee_per_gas;
    if fee <= u128::MAX {
        fee as u128
    } else {
        u128::MAX
    }
}

/// What becomes of a signed transaction: it is obsolete below the account's
/// nonce, kept where its nonce is ahead or its fee suffices, and replaced else.
pub open spec fn refresh_decision(
    prepared: Option<PreparedTransaction>,
    context: DkgTransactionContext,
    max_priority_fee_per_gas: u128,
) -> RefreshDecision {
    let max_fee_per_gas = fee_cap(context, max_priority_fee_per_gas);
    match prepared {
        None => RefreshDecision::Prepare { max_fee_per_gas },
        Some(prepared) => if prepared.nonce < context.nonce {
            RefreshDecision::Obsolete
        } else if prepared.nonce != context.nonce || prepared.max_fee_per_gas >= max_fee_per_gas {
            RefreshDecision::Keep
        } else {
            RefreshDecision::Prepare { max_fee_per_gas }
        },
    }
}

/// The base fee with a buffer of a half.
pub fn buffered_base_fee_per_gas(base_fee_per_gas: u64) -> (fee: u128)
    ensures
        fee == buffered_base_fee(base_fee_per_gas as nat),
{
    base_fee_per_gas as u128 * 3 / 2
}

pub fn decide_refresh(
    prepared: Option<PreparedTransaction>,
    context: DkgTransactionContext,
    max_priority_fee_per_gas: u128,
) -> (decision: RefreshDecision)
    ensures
        decision == refresh_decision(prepared, context, max_priority_fee_per_gas),
{
    let max_fee_per_gas: u128 = buffered_base_fee_per_gas(context.base_fee_per_gas).saturating_add(
        max_priority_fee_per_gas,
    );
    match prepared {
        None => RefreshDecision::Prepare { max_fee_per_gas },
        Some(prepared) => {
            if prepared.nonce < context.nonce {
                RefreshDecision::Obsolete
            } else if prepared.nonce != context.nonce || prepared.max_fee_per_gas >= max_fee_per_gas {
                RefreshDecision::Keep
            } else {
                RefreshDecision::Prepare { max_fee_per_gas }
            }
        },
    }
}

/// A replacement keeps the nonce and raises the fee.
pub proof fn law_replacement_keeps_nonce_and_raises_fee(
    prepared: PreparedTransaction,
    context: DkgTransactionContext,
    max_priority_fee_per_gas: u128,
)
    ensures
        refresh_decision(Some(prepared), context, max_priority_fee_per_gas) matches
            RefreshDecision::Prepare { max_fee_per_gas } ==> context.nonce == prepared.nonce
            && max_fee_per_gas > prepared.max_fee_per_gas,
{
}

/// The values of the fields of an EIP-1559 transaction without an access list,
/// as one hash to sign.
pub uninterp spec fn eip1559_signature_hash(
    chain_id: u64,
    nonce: u64,
    gas_limit: u64,
    max_fee_per_gas: u128,
    max_priority_fee_per_gas: u128,
    to: Seq<u8>,
    value: u64,
    input: Seq<u8>,
) -> Seq<u8>;

/// The signature of a hash by a key, if the key is valid: `r`, `s`, and the
/// recovery byte.
pub uninterp spec fn secp256k1_signature(key: Seq<u8>, hash: Seq<u8>) -> Option<Seq<u8>>;

/// The account address of a key, if the key is valid.
pub uninterp spec fn secp256k1_address(key: Seq<u8>) -> Option<Seq<u8>>;

/// The fields of a transaction to the contract.
#[derive(Debug)]
pub struct TransactionFields {
    pub chain_id: u64,
    pub nonce: u64,
    pub gas_limit: u64,
    pub max_fee_per_gas: u128,
    pub max_priority_fee_per_gas: u128,
    pub to: Address,
    pub value: u64,
    pub input: Vec<u8>,
}

/// Calls `alloy_consensus::SignableTransaction::signature_hash` on a
/// `TxEip1559` with these fields and no access list. Claims that the hash
/// depends on the fields alone, named [`eip1559_signature_hash`].
#[verifier::external_body]
fn signature_hash(fields: &TransactionFields) -> (hash: [u8; 32])
    ensures
        hash@ == eip1559_signature_hash(
            fields.chain_id,
            fields.nonce,
            fields.gas_limit,
            fields.max_fee_per_gas,
            fields.max_priority_fee_per_gas,
            fields.to.bytes@,
            fields.value,
            fields.input@,
        ),
{
    let transaction = alloy_consensus::TxEip1559 {
        chain_id: fields.chain_id,
        nonce: fields.nonce,
        gas_limit: fields.gas_limit,
        max_fee_per_gas: fields.max_fee_per_gas,
        max_priority_fee_per_gas: fields.max_priority_fee_per_gas,
        to: alloy_primitives::TxKind::Call(alloy_primitives::Address::from(fields.to.bytes)),
        value: alloy_primitives::U256::from(fields.value),
        access_list: Default::default(),
        input: alloy_primitives::Bytes::from(fields.input.clone()),
    };
    alloy_consensus::SignableTransaction::signature_hash(&transaction).0
}

/// Calls `alloy_signer::SignerSync::sign_hash_sync` on the
/// `alloy_signer_local::PrivateKeySigner` of a key. Claims that the signature
/// depends on the key and the hash alone, named [`secp256k1_signature`].
#[verifier::external_body]
fn sign_hash(key: &[u8; 32], hash: &[u8; 32]) -> (signature: Option<[u8; 65]>)
    ensures
        match signature {
            Some(signature) => secp256k1_signature(key@, hash@) == Some(signature@),
            None => secp256k1_signature(key@, hash@) == None::<Seq<u8>>,
        },
{
    let key = alloy_primitives::B256::from(*key);
    let hash = alloy_primitives::B256::from(*hash);
    let signer = alloy_signer_local::PrivateKeySigner::from_bytes(&key).ok()?;
    alloy_signer::SignerSync::sign_hash_sync(&signer, &hash).ok().map(|signature| signature.as_bytes())
}

/// Calls `alloy_signer_local::PrivateKeySigner::address` on the signer of a key.
/// Claims that the address depends on the key alone, named [`secp256k1_address`].
#[verifier::external_body]
fn key_address(key: &[u8; 32]) -> (address: Option<[u8; 20]>)
    ensures
        match address {
            Some(address) => secp256k1_address(key@) == Some(address@),
            None => secp256k1_address(key@) == None::<Seq<u8>>,
        },
{
    let key = alloy_primitives::B256::from(*key);
    alloy_signer_local::PrivateKeySigner::from_bytes(&key).ok().map(|signer| *signer.address().0)
}

/// The account address of a signing key.
pub fn signer_address(key: &[u8; 32]) -> (result: Result<Address, DkgError>)
    ensures
        match result {
            Ok(address) => secp256k1_address(key@) == Some(address.bytes@),
            Err(error) => secp256k1_address(key@) is None && error == (DkgError::Operation {
                operation: "construct DKG transaction signer",
            }),
        },
{
    match key_address(key) {
        Some(bytes) => Ok(Address { bytes }),
        None => Err(DkgError::operation("construct DKG transaction signer")),
    }
}

/// What all transactions of a node have in common.
#[derive(Clone, Copy, Debug)]
pub struct TxConfig {
    pub contract: Address,
    pub chain_id: u64,
    pub gas_limit: u64,
    pub max_priority_fee_per_gas: u128,
}

/// A call of the contract, ready to be encoded.
#[allow(inconsistent_fields)]
#[derive(Debug)]
pub enum ContractCall {
    PostPcQc { epoch: u64, qc: ContractPcQc },
    PostBveQc { epoch: u64, qc: ContractBveQc },
    SubmitResult { epoch: u64, result: ContractDkgResult },
    Register { epoch: u64, registration: ContractRegistration },
}

/// A signed transaction.
#[derive(Debug)]
pub struct PreparedTx {
    pub fields: TransactionFields,
    pub signature: [u8; 65],
    pub latest_base_fee_per_gas: u64,
}

#[verifier::ext_equal]
pub struct PreparedView {
    pub chain_id: u64,
    pub nonce: u64,
    pub gas_limit: u64,
    pub max_fee_per_gas: u128,
    pub max_priority_fee_per_gas: u128,
    pub to: Address,
    pub value: u64,
    pub input: Seq<u8>,
    pub signature: Seq<u8>,
    pub latest_base_fee_per_gas: u64,
}

impl View for PreparedTx {
    type V = PreparedView;

    open spec fn view(&self) -> PreparedView {
        PreparedView {
            chain_id: self.fields.chain_id,
            nonce: self.fields.nonce,
            gas_limit: self.fields.gas_limit,
            max_fee_per_gas: self.fields.max_fee_per_gas,
            max_priority_fee_per_gas: self.fields.max_priority_fee_per_gas,
            to: self.fields.to,
            value: self.fields.value,
            input: self.fields.input@,
            signature: self.signature@,
            latest_base_fee_per_gas: self.latest_base_fee_per_gas,
        }
    }
}

impl PreparedTx {
    pub fn duplicate(&self) -> (copy: Self)
        ensures
            copy@ == self@,
    {
        PreparedTx {
            fields: TransactionFields {
                chain_id: self.fields.chain_id,
                nonce: self.fields.nonce,
                gas_limit: self.fields.gas_limit,
                max_fee_per_gas: self.fields.max_fee_per_gas,
                max_priority_fee_per_gas: self.fields.max_priority_fee_per_gas,
                to: self.fields.to,
                value: self.fields.value,
                input: copy_bytes(&self.fields.input),
            },
            signature: self.signature,
            latest_base_fee_per_gas: self.latest_base_fee_per_gas,
        }
    }
}

/// Why a call cannot be made into a transaction.
pub open spec fn call_error(config: TxConfig, epoch: Epoch, call: ChainCall, signer: Address) -> Option<
    DkgError,
> {
    match call {
        ChainCall::PostPcQc(_) => None,
        ChainCall::PostBveQc(_) => None,
        ChainCall::PostDkgResult(qc) => if qc.epoch == epoch.0 {
            None
        } else {
            Some(DkgError::ResultEpochMismatch { expected: epoch.0, actual: qc.epoch })
        },
        ChainCall::PostRegistration { registration, dkg } => if dkg != config.contract {
            Some(
                DkgError::RegistrationContractMismatch { expected: config.contract, actual: dkg },
            )
        } else if registration.address != signer {
            Some(DkgError::Operation { operation: "encode typed DKG registration" })
        } else {
            None
        },
    }
}

/// Whether `contract` is the contract call for a call of `epoch`.
pub open spec fn is_contract_call(contract: ContractCall, epoch: Epoch, call: ChainCall) -> bool {
    match (contract, call) {
        (ContractCall::PostPcQc { epoch: e, qc }, ChainCall::PostPcQc(source)) => e == epoch.0
            && qc.stands_for(source@),
        (ContractCall::PostBveQc { epoch: e, qc }, ChainCall::PostBveQc(source)) => e == epoch.0
            && qc.stands_for(source@),
        (ContractCall::SubmitResult { epoch: e, result }, ChainCall::PostDkgResult(source)) => e
            == epoch.0 && result.stands_for(source@),
        (
            ContractCall::Register { epoch: e, registration },
            ChainCall::PostRegistration { registration: source, .. },
        ) => e == epoch.0 && registration.stands_for(source),
        _ => false,
    }
}

/// Whether the signature of a transaction is that of `key` under exactly its fields.
pub open spec fn is_signed_with(transaction: PreparedView, key: Seq<u8>) -> bool {
    secp256k1_signature(
        key,
        eip1559_signature_hash(
            transaction.chain_id,
            transaction.nonce,
            transaction.gas_limit,
            transaction.max_fee_per_gas,
            transaction.max_priority_fee_per_gas,
            transaction.to.bytes@,
            transaction.value,
            transaction.input,
        ),
    ) == Some(transaction.signature)
}

impl TxConfig {
    /// The contract call for a call of `epoch`, if the call is for this contract,
    /// this epoch, and this signer.
    pub fn contract_call(&self, epoch: Epoch, call: &ChainCall, signer: &Address) -> (result: Result<
        ContractCall,
        DkgError,
    >)
        ensures
            match result {
                Ok(contract) => call_error(*self, epoch, *call, *signer) is None && is_contract_call(
                    contract,
                    epoch,
                    *call,
                ),
                Err(error) => call_error(*self, epoch, *call, *signer) == Some(error),
            },
    {
        match call {
            ChainCall::PostPcQc(qc) => Ok(
                ContractCall::PostPcQc { epoch: epoch.0, qc: ContractPcQc::from_qc(qc) },
            ),
            ChainCall::PostBveQc(qc) => Ok(
                ContractCall::PostBveQc { epoch: epoch.0, qc: ContractBveQc::from_qc(qc) },
            ),
            ChainCall::PostDkgResult(qc) => {
                if qc.epoch != epoch.0 {
                    return Err(
                        DkgError::ResultEpochMismatch { expected: epoch.0, actual: qc.epoch },
                    );
                }
                Ok(
                    ContractCall::SubmitResult {
                        epoch: epoch.0,
                        result: ContractDkgResult::from_qc(qc),
                    },
                )
            },
            ChainCall::PostRegistration { registration, dkg } => {
                if !same_key(dkg, &self.contract) {
                    return Err(
                        DkgError::RegistrationContractMismatch {
                            expected: self.contract,
                            actual: *dkg,
                        },
                    );
                }
                match ContractRegistration::try_from(registration, *signer) {
                    Ok(registration) => Ok(
                        ContractCall::Register { epoch: epoch.0, registration },
                    ),
                    Err(_) => Err(DkgError::operation("encode typed DKG registration")),
                }
            },
        }
    }

    /// The transaction with these fields and this signature.
    pub open spec fn transaction(
        self,
        nonce: u64,
        max_fee_per_gas: u128,
        base_fee_per_gas: u64,
        input: Seq<u8>,
        signature: Seq<u8>,
    ) -> PreparedView {
        PreparedView {
            chain_id: self.chain_id,
            nonce,
            gas_limit: self.gas_limit,
            max_fee_per_gas,
            max_priority_fee_per_gas: self.max_priority_fee_per_gas,
            to: self.contract,
            value: 0,
            input,
            signature,
            latest_base_fee_per_gas: base_fee_per_gas,
        }
    }

    /// The signature of a transaction by a key.
    pub open spec fn transaction_signature(
        self,
        key: Seq<u8>,
        nonce: u64,
        max_fee_per_gas: u128,
        input: Seq<u8>,
    ) -> Option<Seq<u8>> {
        secp256k1_signature(
            key,
            eip1559_signature_hash(
                self.chain_id,
                nonce,
                self.gas_limit,
                max_fee_per_gas,
                self.max_priority_fee_per_gas,
                self.contract.bytes@,
                0,
                input,
            ),
        )
    }

    /// Signs a transaction that carries `input` to the contract.
    pub fn prepare(
        &self,
        signing_key: &[u8; 32],
        nonce: u64,
        max_fee_per_gas: u128,
        base_fee_per_gas: u64,
        input: Vec<u8>,
    ) -> (result: Result<PreparedTx, DkgError>)
        ensures
            match self.transaction_signature(signing_key@, nonce, max_fee_per_gas, input@) {
                Some(signature) => result is Ok && result->Ok_0@ == self.transaction(
                    nonce,
                    max_fee_per_gas,
                    base_fee_per_gas,
                    input@,
                    signature,
                ),
                None => result == Err::<PreparedTx, _>(
                    DkgError::Operation { operation: "sign DKG transaction" },
                ),
            },
            result matches Ok(prepared) ==> {
                &&& prepared.fields.chain_id == self.chain_id
                &&& prepared.fields.nonce == nonce
                &&& prepared.fields.gas_limit == self.gas_limit
                &&& prepared.fields.max_fee_per_gas == max_fee_per_gas
                &&& prepared.fields.max_priority_fee_per_gas == self.max_priority_fee_per_gas
                &&& prepared.fields.to == self.contract
                &&& prepared.fields.value == 0
                &&& prepared.fields.input@ == input@
                &&& prepared.latest_base_fee_per_gas == base_fee_per_gas
                &&& is_signed_with(prepared@, signing_key@)
            },
    {
        let fields = TransactionFields {
            chain_id: self.chain_id,
            nonce,
            gas_limit: self.gas_limit,
            max_fee_per_gas,
            max_priority_fee_per_gas: self.max_priority_fee_per_gas,
            to: self.contract,
            value: 0,
            input,
        };
        let hash: [u8; 32] = signature_hash(&fields);
        match sign_hash(signing_key, &hash) {
            Some(signature) => Ok(
                PreparedTx { fields, signature, latest_base_fee_per_gas: base_fee_per_gas },
            ),
            None => Err(DkgError::operation("sign DKG transaction")),
        }
    }
}

/// Every signed transaction carries the configured chain, gas limit and priority
/// fee, goes to the configured contract, and sends no value; its nonce, fee cap
/// and input are those that were asked for, and the signature is that of exactly
/// these fields.
pub proof fn law_transaction_carries_the_configuration(
    config: TxConfig,
    key: Seq<u8>,
    nonce: u64,
    max_fee_per_gas: u128,
    base_fee_per_gas: u64,
    input: Seq<u8>,
    signature: Seq<u8>,
)
    requires
        config.transaction_signature(key, nonce, max_fee_per_gas, input) == Some(signature),
    ensures
        ({
            let transaction = config.transaction(
                nonce,
                max_fee_per_gas,
                base_fee_per_gas,
                input,
                signature,
            );
            &&& transaction.chain_id == config.chain_id
            &&& transaction.gas_limit == config.gas_limit
            &&& transaction.max_priority_fee_per_gas == config.max_priority_fee_per_gas
            &&& transaction.to == config.contract
            &&& transaction.value == 0
            &&& transaction.nonce == nonce
            &&& transaction.max_fee_per_gas == max_fee_per_gas
            &&& transaction.input == input
            &&& transaction.latest_base_fee_per_gas == base_fee_per_gas
            &&& transaction.signature == signature
            &&& secp256k1_signature(
                key,
                eip1559_signature_hash(
                    config.chain_id,
                    nonce,
                    config.gas_limit,
                    max_fee_per_gas,
                    config.max_priority_fee_per_gas,
                    config.contract.bytes@,
                    0,
                    input,
                ),
            ) == Some(signature)
        }),
{
}

/// The view of a prepared transaction shows each of its fields.
pub proof fn law_prepared_view_shows_every_field(prepared: PreparedTx)
    ensures
        prepared@.chain_id == prepared.fields.chain_id,
        prepared@.nonce == prepared.fields.nonce,
        prepared@.gas_limit == prepared.fields.gas_limit,
        prepared@.max_fee_per_gas == prepared.fields.max_fee_per_gas,
        prepared@.max_priority_fee_per_gas == prepared.fields.max_priority_fee_per_gas,
        prepared@.to == prepared.fields.to,
        prepared@.value == prepared.fields.value,
        prepared@.input == prepared.fields.input@,
        prepared@.signature == prepared.signature@,
        prepared@.latest_base_fee_per_gas == prepared.latest_base_fee_per_gas,
{
}

/// The fee cap leaves room for the base fee to grow by half, and adds the priority
/// fee, as far as that can be expressed.
pub proof fn law_fee_cap_covers_half_again_the_base_fee(
    context: DkgTransactionContext,
    max_priority_fee_per_gas: u128,
)
    ensures
        ({
            let cap = fee_cap(context, max_priority_fee_per_gas) as int;
            let base = context.base_fee_per_gas as int;
            let tip = max_priority_fee_per_gas as int;
            if 3 * base + 2 * tip <= 2 * u128::MAX {
                2 * (cap - tip) <= 3 * base <= 2 * (cap - tip) + 1
            } else {
                cap == u128::MAX
            }
        }),
{
}

/// A higher base fee never lowers the fee cap.
pub proof fn law_fee_cap_grows_with_the_base_fee(
    low: DkgTransactionContext,
    high: DkgTransactionContext,
    max_priority_fee_per_gas: u128,
)
    requires
        low.base_fee_per_gas <= high.base_fee_per_gas,
    ensures
        fee_cap(low, max_priority_fee_per_gas) <= fee_cap(high, max_priority_fee_per_gas),
{
}

/// A transaction whose nonce the chain has used is obsolete; one at the next nonce
/// is replaced exactly where its fee no longer covers the fee cap; any other one is
/// kept. Where nothing is prepared, a transaction is prepared under the fee cap.
pub proof fn law_refresh_follows_nonce_and_fee(
    prepared: PreparedTransaction,
    context: DkgTransactionContext,
    max_priority_fee_per_gas: u128,
)
    ensures
        ({
            let cap = fee_cap(context, max_priority_fee_per_gas);
            let decision = refresh_decision(Some(prepared), context, max_priority_fee_per_gas);
            &&& decision is Obsolete <==> prepared.nonce < context.nonce
            &&& decision is Prepare <==> prepared.nonce == context.nonce && prepared.max_fee_per_gas < cap
            &&& decision is Keep <==> prepared.nonce > context.nonce || (prepared.nonce == context.nonce
                && prepared.max_fee_per_gas >= cap)
            &&& decision is Prepare ==> decision == (RefreshDecision::Prepare { max_fee_per_gas: cap })
            &&& refresh_decision(None, context, max_priority_fee_per_gas) == (RefreshDecision::Prepare {
                max_fee_per_gas: cap,
            })
        }),
{
}

/// An event that reports the certificate or the result of a call has the identity
/// of the call, so that seeing the event settles the call.
pub proof fn law_event_has_the_identity_of_its_call(
    id: ChainTxId,
    call: ChainCall,
    event: ChainEventView,
)
    requires
        identifies_call(id, call),
        match (call, event) {
            (ChainCall::PostPcQc(posted), ChainEventView::PcQc { qc, .. }) => posted.dealer == qc.dealer
                && posted.digest == qc.digest,
            (ChainCall::PostBveQc(posted), ChainEventView::BveQcFinalized { qc, .. }) => posted.dealer
                == qc.dealer && posted.digest == qc.digest && posted.commitment_digest
                == qc.commitment_digest,
            (ChainCall::PostDkgResult(posted), ChainEventView::DkgResultRecorded { qc, .. }) => posted.g2x
                == qc.g2x,
            _ => false,
        },
    ensures
        event_tx_id(event) == id,
{
}

/// Calls with one identity are about the same certificate or the same result.
pub proof fn law_identity_separates_calls(id: ChainTxId, left: ChainCall, right: ChainCall)
    requires
        identifies_call(id, left),
        identifies_call(id, right),
    ensures
        match left {
            ChainCall::PostPcQc(qc) => right matches ChainCall::PostPcQc(other) && other.dealer
                == qc.dealer && other.digest == qc.digest,
            ChainCall::PostBveQc(qc) => right matches ChainCall::PostBveQc(other) && other.dealer
                == qc.dealer && other.digest == qc.digest && other.commitment_digest
                == qc.commitment_digest,
            ChainCall::PostDkgResult(qc) => right matches ChainCall::PostDkgResult(other) && other.g2x
                == qc.g2x,
            ChainCall::PostRegistration { registration, .. } => {
                right matches ChainCall::PostRegistration { registration: other, .. } && blake3_digest(
                    registration_bytes(other),
                ) == blake3_digest(registration_bytes(registration))
            },
        },
{
}

/// The bytes by which a registration is identified hold all of its parts.
pub proof fn law_registration_bytes_hold_every_part(left: RegistrationCall, right: RegistrationCall)
    requires
        registration_bytes(left) == registration_bytes(right),
    ensures
        left == right,
{
    let a = registration_bytes(left);
    let b = registration_bytes(right);
    crate::octets::lemma_le_bytes(left.receiver_proof_nonce as nat, 8);
    crate::octets::lemma_le_bytes(right.receiver_proof_nonce as nat, 8);
    assert(crate::octets::byte_range(8) == 0x1_0000_0000_0000_0000) by {
        reveal_with_fuel(crate::octets::byte_range, 9);
    }
    assert(left.address.bytes@ =~= a.subrange(0, 20));
    assert(right.address.bytes@ =~= b.subrange(0, 20));
    assert(left.qc_verifier.bytes@ =~= a.subrange(20, 40));
    assert(right.qc_verifier.bytes@ =~= b.subrange(20, 40));
    assert(left.receiver_public_key@ =~= a.subrange(40, 73));
    assert(right.receiver_public_key@ =~= b.subrange(40, 73));
    assert(crate::octets::le_bytes(left.receiver_proof_nonce as nat, 8) =~= a.subrange(73, 81));
    assert(crate::octets::le_bytes(right.receiver_proof_nonce as nat, 8) =~= b.subrange(73, 81));
    assert(left.receiver_proof@ =~= a.subrange(81, 145));
    assert(right.receiver_proof@ =~= b.subrange(81, 145));
    assert(left.address.bytes =~= right.address.bytes);
    assert(left.qc_verifier.bytes =~= right.qc_verifier.bytes);
    assert(left.receiver_public_key =~= right.receiver_public_key);
    assert(left.receiver_proof =~= right.receiver_proof);
}

/// A call is refused exactly where it is a result of another epoch, a registration
/// at another contract, or a registration of somebody else than the signer.
pub proof fn law_call_is_refused_for_a_reason(
    config: TxConfig,
    epoch: Epoch,
    call: ChainCall,
    signer: Address,
)
    ensures
        call_error(config, epoch, call, signer) is Some <==> match call {
            ChainCall::PostDkgResult(qc) => qc.epoch != epoch.0,
            ChainCall::PostRegistration { registration, dkg } => dkg != config.contract
                || registration.address != signer,
            _ => false,
        },
{
}

/// A contract call is made for the epoch of the call, in the same kind, and a
/// certificate keeps its dealer, its digests and its signatures.
pub proof fn law_contract_call_stands_for_its_call(contract: ContractCall, epoch: Epoch, call: ChainCall)
    requires
        is_contract_call(contract, epoch, call),
    ensures
        match call {
            ChainCall::PostPcQc(source) => contract matches ContractCall::PostPcQc { epoch: e, qc } && e
                == epoch.0 && qc.stands_for(source@),
            ChainCall::PostBveQc(source) => contract matches ContractCall::PostBveQc { epoch: e, qc } && e
                == epoch.0 && qc.stands_for(source@),
            ChainCall::PostDkgResult(source) => contract matches ContractCall::SubmitResult {
                epoch: e,
                result,
            } && e == epoch.0 && result.stands_for(source@),
            ChainCall::PostRegistration { registration: source, .. } => contract matches ContractCall::Register {
                epoch: e,
                registration,
            } && e == epoch.0 && registration.stands_for(source),
        },
{
}

/// Registrations come before commitment certificates, those before encryption
/// certificates, and those before results; among certificates of one sort the lower
/// dealer comes first.
pub proof fn law_identities_are_ordered_by_sort(left: ChainTxId, right: ChainTxId)
    ensures
        left is Registration && !(right is Registration) ==> left.before(right),
        left is PcQc && (right is BveQc || right is DkgResult) ==> left.before(right),
        left is BveQc && right is DkgResult ==> left.before(right),
        left is PcQc && right is PcQc && left->PcQc_dealer < right->PcQc_dealer ==> left.before(right),
        left is BveQc && right is BveQc && left->BveQc_dealer < right->BveQc_dealer ==> left.before(
            right,
        ),
{
}

} // verus!
