//! Names of recovery log files.

use crate::dkg::ids::Epoch;
use crate::octets::append_bytes;
use crate::text::{
    decimal, decimal_digits, is_digit, lemma_decimal, parse_number, parsed_number,
};
use vstd::prelude::*;
use vstd::seq_lib::to_multiset_insert;

verus! {

/// The bytes of `dkg-recovery-`.
pub open spec fn name_prefix() -> Seq<u8> {
    seq![100u8, 107u8, 103u8, 45u8, 114u8, 101u8, 99u8, 111u8, 118u8, 101u8, 114u8, 121u8, 45u8]
}

/// The bytes of `.wal`.
pub open spec fn name_suffix() -> Seq<u8> {
    seq![46u8, 119u8, 97u8, 108u8]
}

/// The epoch that a file name states.
pub open spec fn named_epoch(name: Seq<u8>) -> Option<Epoch> {
    let fixed = name_prefix().len() + name_suffix().len();
    if name.len() >= fixed && name.take(13) == name_prefix() && name.skip(name.len() - 4) == name_suffix() {
        match parsed_number(name.subrange(13, name.len() - 4)) {
            Some(number) => Some(Epoch(number)),
            None => None,
        }
    } else {
        None
    }
}

/// The file name of an epoch's log.
pub open spec fn epoch_name(epoch: Epoch) -> Seq<u8> {
    name_prefix() + decimal(epoch.0 as nat) + name_suffix()
}

/// The name of an epoch's log states that epoch.
pub proof fn law_name_states_its_epoch(epoch: Epoch)
    ensures
        named_epoch(epoch_name(epoch)) == Some(epoch),
{
    lemma_decimal(epoch.0 as nat);
    let name = epoch_name(epoch);
    let digits = decimal(epoch.0 as nat);
    assert(name.take(13) =~= name_prefix());
    assert(name.skip(name.len() - 4) =~= name_suffix());
    assert(name.subrange(13, name.len() - 4) =~= digits);
    assert(is_digit(digits[0]));
}

fn matches_at(text: &Vec<u8>, start: usize, expected: &Vec<u8>) -> (same: bool)
    requires
        start + expected@.len() <= text@.len(),
    ensures
        same == (text@.subrange(start as int, start + expected@.len()) == expected@),
{
    let total: usize = text.len();
    let mut i: usize = 0;
    while i < expected.len()
        invariant
            total == text@.len(),
            start + expected@.len() <= text@.len(),
            i <= expected@.len(),
            forall|j: int| 0 <= j < i ==> text@[start + j] == #[trigger] expected@[j],
        decreases expected@.len() - i,
    {
        if text[start + i] != expected[i] {
            assert(text@.subrange(start as int, start + expected@.len())[i as int] != expected@[i as int]);
            return false;
        }
        i += 1;
    }
    assert(text@.subrange(start as int, start + expected@.len()) =~= expected@);
    true
}

fn prefix_bytes() -> (bytes: Vec<u8>)
    ensures
        bytes@ == name_prefix(),
{
    let bytes: Vec<u8> = vec![100u8, 107u8, 103u8, 45u8, 114u8, 101u8, 99u8, 111u8, 118u8, 101u8, 114u8, 121u8, 45u8];
    assert(bytes@ =~= name_prefix());
    bytes
}

fn suffix_bytes() -> (bytes: Vec<u8>)
    ensures
        bytes@ == name_suffix(),
{
    let bytes: Vec<u8> = vec![46u8, 119u8, 97u8, 108u8];
    assert(bytes@ =~= name_suffix());
    bytes
}

/// The epoch that a file name states, if it is the name of a recovery log.
pub fn recovery_wal_epoch(name: &Vec<u8>) -> (epoch: Option<Epoch>)
    ensures
        epoch == named_epoch(name@),
{
    if name.len() < 17 {
        return None;
    }
    let end: usize = name.len() - 4;
    assert(name@.take(13) =~= name@.subrange(0, 13));
    assert(name@.skip(name@.len() - 4) =~= name@.subrange(end as int, end + 4));
    if !matches_at(name, 0, &prefix_bytes()) || !matches_at(name, end, &suffix_bytes()) {
        return None;
    }
    match parse_number(name, 13, end) {
        Some(number) => Some(Epoch(number)),
        None => None,
    }
}

/// The file name of an epoch's log.
pub fn recovery_wal_name(epoch: Epoch) -> (name: Vec<u8>)
    ensures
        name@ == epoch_name(epoch),
        named_epoch(name@) == Some(epoch),
{
    let digits: Vec<u8> = decimal_digits(epoch.0);
    proof {
        law_name_states_its_epoch(epoch);
    }
    let mut name: Vec<u8> = prefix_bytes();
    append_bytes(&mut name, &digits);
    append_bytes(&mut name, &suffix_bytes());
    name
}

/// The epochs stated by `names`, in the order of the names.
pub open spec fn named_epochs(names: Seq<Vec<u8>>) -> Seq<Epoch>
    decreases names.len(),
{
    if names.len() == 0 {
        Seq::empty()
    } else {
        match named_epoch(names.last()@) {
            Some(epoch) => named_epochs(names.drop_last()).push(epoch),
            None => named_epochs(names.drop_last()),
        }
    }
}

/// Whether epochs are in order.
pub open spec fn in_order(epochs: Seq<Epoch>) -> bool {
    forall|i: int, j: int| 0 <= i < j < epochs.len() ==> (#[trigger] epochs[i]).0 <= (#[trigger] epochs[j]).0
}

/// The epochs that have a recovery log among the files `names`, in order.
pub fn recovery_epochs(names: &Vec<Vec<u8>>) -> (epochs: Vec<Epoch>)
    ensures
        in_order(epochs@),
        epochs@.to_multiset() == named_epochs(names@).to_multiset(),
{
    let mut epochs: Vec<Epoch> = Vec::new();
    let mut i: usize = 0;
    assert(names@.take(0) =~= Seq::<Vec<u8>>::empty());
    while i < names.len()
        invariant
            i <= names@.len(),
            in_order(epochs@),
            epochs@.to_multiset() == named_epochs(names@.take(i as int)).to_multiset(),
        decreases names@.len() - i,
    {
        proof {
            assert(names@.take(i + 1).drop_last() =~= names@.take(i as int));
            assert(names@.take(i + 1).last() == names@[i as int]);
        }
        match recovery_wal_epoch(&names[i]) {
            None => {},
            Some(epoch) => {
                let ghost before = epochs@;
                let mut at: usize = 0;
                while at < epochs.len() && epochs[at].0 <= epoch.0
                    invariant
                        epochs@ == before,
                        at <= epochs@.len(),
                        forall|j: int| 0 <= j < at ==> (#[trigger] epochs@[j]).0 <= epoch.0,
                    decreases epochs@.len() - at,
                {
                    at += 1;
                }
                epochs.insert(at, epoch);
                proof {
                    to_multiset_insert(before, at as int, epoch);
                    let known = named_epochs(names@.take(i as int));
                    vstd::seq_lib::to_multiset_build(known, epoch);
                    assert(epochs@.to_multiset() =~= known.push(epoch).to_multiset());
                    assert forall|a: int, b: int| 0 <= a < b < epochs@.len() implies (#[trigger] epochs@[a]).0
                        <= (#[trigger] epochs@[b]).0 by {
                        let a2 = if a < at { a } else { a - 1 };
                        let b2 = if b < at { b } else { b - 1 };
                        if a != at && b != at {
                            assert(before[a2].0 <= before[b2].0);
                        } else if a == at {
                            if at < before.len() {
                                assert(before[at as int].0 <= before[b2].0 || b2 == at);
                            }
                        } else {
                            assert(before[a2].0 <= epoch.0);
                        }
                    }
                }
            },
        }
        i += 1;
    }
    assert(names@.take(names@.len() as int) =~= names@);
    epochs
}

/// A file is the log of an epoch exactly where its name is the fixed prefix, the
/// number of the epoch, and the fixed suffix.
pub proof fn law_log_names_are_prefix_number_suffix(name: Seq<u8>)
    ensures
        named_epoch(name) matches Some(epoch) ==> {
            &&& name.len() >= 17
            &&& name.take(13) == name_prefix()
            &&& name.skip(name.len() - 4) == name_suffix()
            &&& parsed_number(name.subrange(13, name.len() - 4)) == Some(epoch.0)
        },
        name.len() >= 17 && name.take(13) == name_prefix() && name.skip(name.len() - 4) == name_suffix()
            && parsed_number(name.subrange(13, name.len() - 4)) is Some ==> named_epoch(name) is Some,
{
}

/// Every file that names an epoch is listed, once each.
pub proof fn law_every_named_epoch_is_listed(names: Seq<Vec<u8>>, i: int)
    requires
        0 <= i < names.len(),
    ensures
        named_epoch(names[i]@) matches Some(epoch) ==> named_epochs(names).contains(epoch),
        named_epochs(names).len() <= names.len(),
    decreases names.len(),
{
    let fewer = names.drop_last();
    let all = named_epochs(names);
    let earlier = named_epochs(fewer);
    lemma_listed_length(names);
    if named_epoch(names[i]@) is Some {
        let epoch = named_epoch(names[i]@)->Some_0;
        if i < fewer.len() {
            assert(fewer[i] == names[i]);
            law_every_named_epoch_is_listed(fewer, i);
            let k = choose|k: int| 0 <= k < earlier.len() && earlier[k] == epoch;
            assert(all[k] == epoch);
        } else {
            assert(all[all.len() - 1] == epoch);
        }
    }
}

proof fn lemma_listed_length(names: Seq<Vec<u8>>)
    ensures
        named_epochs(names).len() <= names.len(),
    decreases names.len(),
{
    if names.len() > 0 {
        lemma_listed_length(names.drop_last());
    }
}

/// The fixed parts of a name spell the log of a recovery.
pub proof fn law_fixed_parts_spell_the_recovery_log()
    ensures
        crate::text::byte_text(name_prefix()) == "dkg-recovery-"@,
        crate::text::byte_text(name_suffix()) == ".wal"@,
{
    reveal_strlit("dkg-recovery-");
    reveal_strlit(".wal");
    assert(crate::text::byte_text(name_prefix()) =~= "dkg-recovery-"@);
    assert(crate::text::byte_text(name_suffix()) =~= ".wal"@);
}

/// Epochs in order do not descend.
pub proof fn law_epochs_ascend(epochs: Seq<Epoch>, i: int, j: int)
    requires
        in_order(epochs),
        0 <= i < j < epochs.len(),
    ensures
        epochs[i].0 <= epochs[j].0,
{
}

} // verus!
