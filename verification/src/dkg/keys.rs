//! Protocol keys of the local node.

use crate::octets::{le_bytes, lemma_le_bytes};
use crate::digest::{blake3_derive_key, blake3_derived_key};
use crate::reliable::message::same_key;
use vstd::prelude::*;

verus! {

/// The derivation context of the receiver key.
pub const RECEIVER_KEY_DERIVATION: &'static str = "monad/dkg/receiver-key";

/// The derivation context of the key that signs quorum certificates.
pub const QC_KEY_DERIVATION: &'static str = "monad/dkg/qc-signing-key";

/// The order of the secp256k1 group, the highest byte first.
pub open spec fn group_order() -> Seq<u8> {
    seq![
        0xffu8, 0xffu8, 0xffu8, 0xffu8, 0xffu8, 0xffu8, 0xffu8, 0xffu8,
        0xffu8, 0xffu8, 0xffu8, 0xffu8, 0xffu8, 0xffu8, 0xffu8, 0xfeu8,
        0xbau8, 0xaeu8, 0xdcu8, 0xe6u8, 0xafu8, 0x48u8, 0xa0u8, 0x3bu8,
        0xbfu8, 0xd2u8, 0x5eu8, 0x8cu8, 0xd0u8, 0x36u8, 0x41u8, 0x41u8,
    ]
}

/// The number that bytes stand for, the highest byte first.
pub open spec fn be_number(bytes: Seq<u8>) -> nat
    decreases bytes.len(),
{
    if bytes.len() == 0 {
        0
    } else {
        256 * be_number(bytes.drop_last()) + bytes.last() as nat
    }
}

/// Whether bytes are a secret key: a number above zero and below the group order.
pub open spec fn is_secret_key(bytes: Seq<u8>) -> bool {
    0 < be_number(bytes) < be_number(group_order())
}

/// What is hashed for the candidate with number `counter`.
pub open spec fn candidate_material(seed: Seq<u8>, counter: u32) -> Seq<u8> {
    seed + le_bytes(counter as nat, 4)
}

/// The candidate with number `counter`.
pub open spec fn candidate(seed: Seq<u8>, domain: Seq<char>, counter: u32) -> Seq<u8> {
    blake3_derived_key(domain, candidate_material(seed, counter))
}

/// Whether the candidate with number `counter` is a secret key and none before it is.
pub open spec fn first_secret_key(seed: Seq<u8>, domain: Seq<char>, counter: u32) -> bool {
    &&& is_secret_key(candidate(seed, domain, counter))
    &&& forall|earlier: u32|
        earlier < counter ==> !is_secret_key(#[trigger] candidate(seed, domain, earlier))
}

/// The key derived from a seed: the first candidate that is a secret key.
pub open spec fn derived_key(seed: Seq<u8>, domain: Seq<char>) -> Option<Seq<u8>> {
    if exists|counter: u32| first_secret_key(seed, domain, counter) {
        Some(
            candidate(
                seed,
                domain,
                choose|counter: u32| first_secret_key(seed, domain, counter),
            ),
        )
    } else {
        None
    }
}

fn order_bytes() -> (bytes: [u8; 32])
    ensures
        bytes@ == group_order(),
{
    let bytes: [u8; 32] = [
        0xff, 0xff, 0xff, 0xff, 0xff, 0xff, 0xff, 0xff,
        0xff, 0xff, 0xff, 0xff, 0xff, 0xff, 0xff, 0xfe,
        0xba, 0xae, 0xdc, 0xe6, 0xaf, 0x48, 0xa0, 0x3b,
        0xbf, 0xd2, 0x5e, 0x8c, 0xd0, 0x36, 0x41, 0x41,
    ];
    assert(bytes@ =~= group_order());
    bytes
}

/// Where two byte strings of one length first differ, their numbers differ the same way.
proof fn lemma_first_difference_decides(a: Seq<u8>, b: Seq<u8>, first: int)
    requires
        a.len() == b.len(),
        0 <= first < a.len(),
        a.take(first) == b.take(first),
        a[first] < b[first],
    ensures
        be_number(a) < be_number(b),
    decreases a.len(),
{
    let x = a.drop_last();
    let y = b.drop_last();
    if first < a.len() - 1 {
        assert(x.take(first) =~= a.take(first));
        assert(y.take(first) =~= b.take(first));
        lemma_first_difference_decides(x, y, first);
    } else {
        assert(x =~= a.take(first));
        assert(y =~= b.take(first));
    }
}

proof fn lemma_zero_number(bytes: Seq<u8>)
    ensures
        be_number(bytes) == 0 <==> forall|i: int| 0 <= i < bytes.len() ==> #[trigger] bytes[i] == 0,
    decreases bytes.len(),
{
    if bytes.len() > 0 {
        let front = bytes.drop_last();
        lemma_zero_number(front);
        if be_number(bytes) == 0 {
            assert forall|i: int| 0 <= i < bytes.len() implies #[trigger] bytes[i] == 0 by {
                if i < front.len() {
                    assert(front[i] == bytes[i]);
                }
            }
        } else if forall|i: int| 0 <= i < bytes.len() ==> #[trigger] bytes[i] == 0 {
            assert forall|i: int| 0 <= i < front.len() implies #[trigger] front[i] == 0 by {
                assert(bytes[i] == 0);
            }
            assert(bytes[bytes.len() - 1] == 0);
        }
    }
}

/// Whether `bytes` are a secret key.
pub fn valid_secret_key(bytes: &[u8; 32]) -> (valid: bool)
    ensures
        valid == is_secret_key(bytes@),
{
    let order: [u8; 32] = order_bytes();
    let mut nonzero: bool = false;
    let mut i: usize = 0;
    let mut below: Option<bool> = None;
    while i < 32
        invariant
            i <= 32,
            order@ == group_order(),
            nonzero == !(forall|j: int| 0 <= j < i ==> #[trigger] bytes@[j] == 0),
            below == None::<bool> ==> bytes@.take(i as int) == order@.take(i as int),
            below == Some(true) ==> be_number(bytes@) < be_number(order@),
            below == Some(false) ==> be_number(bytes@) > be_number(order@),
        decreases 32 - i,
    {
        if bytes[i] != 0 {
            nonzero = true;
            assert(bytes@[i as int] != 0);
        }
        if below.is_none() {
            if bytes[i] < order[i] {
                proof {
                    lemma_first_difference_decides(bytes@, order@, i as int);
                }
                below = Some(true);
            } else if bytes[i] > order[i] {
                proof {
                    lemma_first_difference_decides(order@, bytes@, i as int);
                }
                below = Some(false);
            } else {
                assert(bytes@.take(i + 1) =~= order@.take(i + 1));
            }
        }
        i += 1;
    }
    proof {
        lemma_zero_number(bytes@);
        if below is None {
            assert(bytes@ =~= bytes@.take(32));
            assert(order@ =~= order@.take(32));
        }
    }
    nonzero && match below {
        Some(below) => below,
        None => false,
    }
}

fn material_of(seed: &[u8; 32], counter: u32) -> (material: Vec<u8>)
    ensures
        material@ == candidate_material(seed@, counter),
{
    let mut material: Vec<u8> = Vec::new();
    let mut i: usize = 0;
    while i < 32
        invariant
            i <= 32,
            material@ == seed@.take(i as int),
        decreases 32 - i,
    {
        material.push(seed[i]);
        assert(seed@.take(i + 1) =~= seed@.take(i as int).push(seed@[i as int]));
        i += 1;
    }
    assert(seed@.take(32) =~= seed@);
    let b0: u8 = (counter % 256) as u8;
    let b1: u8 = (counter / 256 % 256) as u8;
    let b2: u8 = (counter / 65536 % 256) as u8;
    let b3: u8 = (counter / 16777216) as u8;
    material.push(b0);
    material.push(b1);
    material.push(b2);
    material.push(b3);
    proof {
        reveal_with_fuel(le_bytes, 5);
        lemma_le_bytes(counter as nat, 4);
        assert(le_bytes(counter as nat, 4) =~= seq![b0, b1, b2, b3]);
        assert(material@ =~= candidate_material(seed@, counter));
    }
    material
}

/// The first candidate that is a secret key, if there is one.
pub fn derive_valid_key(seed: &[u8; 32], domain: &'static str) -> (key: Option<[u8; 32]>)
    ensures
        match key {
            Some(key) => derived_key(seed@, domain@) == Some(key@) && is_secret_key(key@),
            None => derived_key(seed@, domain@) == None::<Seq<u8>>,
        },
{
    let mut counter: u32 = 0;
    loop
        invariant
            forall|earlier: u32|
                earlier < counter ==> !is_secret_key(#[trigger] candidate(seed@, domain@, earlier)),
        decreases u32::MAX - counter,
    {
        let key: [u8; 32] = blake3_derive_key(domain, &material_of(seed, counter));
        assert(key@ == candidate(seed@, domain@, counter));
        if valid_secret_key(&key) {
            proof {
                assert(first_secret_key(seed@, domain@, counter));
                let chosen = choose|c: u32| first_secret_key(seed@, domain@, c);
                assert(first_secret_key(seed@, domain@, chosen));
                assert(is_secret_key(candidate(seed@, domain@, chosen)));
                assert(chosen == counter);
            }
            return Some(key);
        }
        if counter == u32::MAX {
            return None;
        }
        counter += 1;
    }
}

/// Overwrites bytes by `zeroize::Zeroize::zeroize`. Claims that they are zero
/// afterwards, and that it does not unwind.
#[verifier::external_body]
pub(crate) fn zeroize_bytes(bytes: &mut [u8; 32])
    ensures
        final(bytes)@ == Seq::new(32, |i: int| 0u8),
    opens_invariants none
    no_unwind
{
    zeroize::Zeroize::zeroize(bytes)
}

/// The secret keys of the local node.
#[derive(Clone)]
pub struct DkgLocalKeyMaterial {
    pub receiver_secret_key: [u8; 32],
    pub qc_signing_key: [u8; 32],
}

impl DkgLocalKeyMaterial {
    /// Derives independent protocol keys from a node-owned secret seed. There is
    /// no result where every candidate of a key is rejected.
    pub fn derive(seed: [u8; 32]) -> (keys: Option<Self>)
        ensures
            match keys {
                Some(keys) => {
                    &&& derived_key(seed@, RECEIVER_KEY_DERIVATION@) == Some(
                        keys.receiver_secret_key@,
                    )
                    &&& derived_key(seed@, QC_KEY_DERIVATION@) == Some(keys.qc_signing_key@)
                },
                None => derived_key(seed@, RECEIVER_KEY_DERIVATION@) is None || derived_key(
                    seed@,
                    QC_KEY_DERIVATION@,
                ) is None,
            },
    {
        match derive_valid_key(&seed, RECEIVER_KEY_DERIVATION) {
            Some(receiver_secret_key) => match derive_valid_key(&seed, QC_KEY_DERIVATION) {
                Some(qc_signing_key) => Some(
                    DkgLocalKeyMaterial { receiver_secret_key, qc_signing_key },
                ),
                None => None,
            },
            None => None,
        }
    }

    /// Whether two sets of keys are the same.
    pub fn same(&self, other: &Self) -> (same: bool)
        ensures
            same == (*self == *other),
    {
        same_key(&self.receiver_secret_key, &other.receiver_secret_key) && same_key(
            &self.qc_signing_key,
            &other.qc_signing_key,
        )
    }

    /// Overwrites the keys with zero.
    pub fn zeroize(&mut self)
        ensures
            final(self).receiver_secret_key@ == Seq::new(32, |i: int| 0u8),
            final(self).qc_signing_key@ == Seq::new(32, |i: int| 0u8),
    {
        zeroize_bytes(&mut self.receiver_secret_key);
        zeroize_bytes(&mut self.qc_signing_key);
    }
}

impl Drop for DkgLocalKeyMaterial {
    /// Overwrites the keys with zero.
    fn drop(&mut self)
        opens_invariants none
        no_unwind
    {
        zeroize_bytes(&mut self.receiver_secret_key);
        zeroize_bytes(&mut self.qc_signing_key);
    }
}

/// A derived key is a secret key, and a seed always gives the same one.
pub proof fn law_derived_key_is_a_secret_key(seed: Seq<u8>, domain: Seq<char>, key: Seq<u8>)
    requires
        derived_key(seed, domain) == Some(key),
    ensures
        is_secret_key(key),
        exists|counter: u32| first_secret_key(seed, domain, counter) && key == candidate(seed, domain, counter),
{
    let counter = choose|counter: u32| first_secret_key(seed, domain, counter);
    assert(first_secret_key(seed, domain, counter));
}

/// Every counter gives material of its own: the seed, then the counter with its
/// lowest byte first.
pub proof fn law_counters_give_material_of_their_own(seed: Seq<u8>, left: u32, right: u32)
    ensures
        candidate_material(seed, left).len() == seed.len() + 4,
        candidate_material(seed, left).take(seed.len() as int) == seed,
        candidate_material(seed, left) == candidate_material(seed, right) ==> left == right,
{
    crate::octets::lemma_le_bytes(left as nat, 4);
    crate::octets::lemma_le_bytes(right as nat, 4);
    assert(crate::octets::byte_range(4) == 0x1_0000_0000) by {
        reveal_with_fuel(crate::octets::byte_range, 5);
    }
    assert(candidate_material(seed, left).take(seed.len() as int) =~= seed);
    assert(candidate_material(seed, left).skip(seed.len() as int) =~= le_bytes(left as nat, 4));
    assert(candidate_material(seed, right).skip(seed.len() as int) =~= le_bytes(right as nat, 4));
}

/// The key that is derived is the first candidate that is a secret key, and where
/// some candidate is one a key is derived.
pub proof fn law_first_valid_candidate_is_derived(seed: Seq<u8>, domain: Seq<char>, counter: u32)
    requires
        is_secret_key(candidate(seed, domain, counter)),
        forall|earlier: u32|
            earlier < counter ==> !is_secret_key(#[trigger] candidate(seed, domain, earlier)),
    ensures
        derived_key(seed, domain) == Some(blake3_derived_key(domain, candidate_material(seed, counter))),
{
    assert(first_secret_key(seed, domain, counter));
    let chosen = choose|chosen: u32| first_secret_key(seed, domain, chosen);
    assert(first_secret_key(seed, domain, chosen));
    if chosen < counter {
        assert(!is_secret_key(candidate(seed, domain, chosen)));
    }
    if counter < chosen {
        assert(!is_secret_key(candidate(seed, domain, counter)));
    }
}

/// A number with its highest byte first counts each byte two hundred and fifty-six
/// times the one behind it.
pub proof fn law_highest_byte_comes_first(bytes: Seq<u8>, byte: u8)
    ensures
        be_number(bytes.push(byte)) == 256 * be_number(bytes) + byte,
        be_number(Seq::<u8>::empty()) == 0,
        be_number(seq![byte]) == byte,
{
    assert(bytes.push(byte).drop_last() =~= bytes);
    assert(seq![byte].drop_last() =~= Seq::<u8>::empty());
    assert(be_number(seq![byte].drop_last()) == 0);
}

/// The key that is derived is the first candidate that is a secret key: it is one, and
/// no candidate with a lower number is.
pub proof fn law_first_candidate_is_taken(seed: Seq<u8>, domain: Seq<char>, counter: u32, other: u32)
    requires
        first_secret_key(seed, domain, counter),
    ensures
        is_secret_key(candidate(seed, domain, counter)),
        other < counter ==> !is_secret_key(candidate(seed, domain, other)),
        first_secret_key(seed, domain, other) ==> other == counter,
{
}

} // verus!
