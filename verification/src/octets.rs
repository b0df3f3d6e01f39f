//! Helpers on byte strings and the numbers in them.

use vstd::prelude::*;

verus! {

/// Copies a byte string.
pub fn copy_bytes(bytes: &Vec<u8>) -> (copy: Vec<u8>)
    ensures
        copy@ == bytes@,
{
    let copy = bytes.clone();
    assert(copy@ =~= bytes@);
    copy
}

/// Whether two byte strings hold the same bytes.
pub fn same_bytes(left: &Vec<u8>, right: &Vec<u8>) -> (same: bool)
    ensures
        same == (left@ == right@),
{
    let same: bool = *left == *right;
    assert(same ==> left@ =~= right@);
    same
}

/// Appends `tail` to `bytes`.
pub fn append_bytes(bytes: &mut Vec<u8>, tail: &Vec<u8>)
    ensures
        final(bytes)@ == old(bytes)@ + tail@,
{
    let ghost before = bytes@;
    bytes.extend_from_slice(tail.as_slice());
    assert(bytes@ =~= before + tail@);
}

/// The bytes from `start` up to `end`.
pub fn copy_range(bytes: &Vec<u8>, start: usize, end: usize) -> (copy: Vec<u8>)
    requires
        start <= end <= bytes@.len(),
    ensures
        copy@ == bytes@.subrange(start as int, end as int),
{
    let mut copy: Vec<u8> = Vec::new();
    let mut i: usize = start;
    while i < end
        invariant
            start <= i <= end <= bytes@.len(),
            copy@ == bytes@.subrange(start as int, i as int),
        decreases end - i,
    {
        copy.push(bytes[i]);
        assert(bytes@.subrange(start as int, i + 1) =~= bytes@.subrange(start as int, i as int).push(
            bytes@[i as int],
        ));
        i += 1;
    }
    copy
}

/// The number that bytes stand for, the first byte lowest.
pub open spec fn le_number(bytes: Seq<u8>) -> nat
    decreases bytes.len(),
{
    if bytes.len() == 0 {
        0
    } else {
        (bytes[0] + 256 * le_number(bytes.skip(1))) as nat
    }
}

/// The lowest `count` bytes of a number, lowest first.
pub open spec fn le_bytes(number: nat, count: nat) -> Seq<u8>
    decreases count,
{
    if count == 0 {
        Seq::empty()
    } else {
        seq![(number % 256) as u8] + le_bytes(number / 256, (count - 1) as nat)
    }
}

/// 256 to the power of `count`.
pub open spec fn byte_range(count: nat) -> nat
    decreases count,
{
    if count == 0 {
        1
    } else {
        256 * byte_range((count - 1) as nat)
    }
}

/// The bytes of a number stand for it.
pub proof fn lemma_le_bytes(number: nat, count: nat)
    ensures
        le_bytes(number, count).len() == count,
        number < byte_range(count) ==> le_number(le_bytes(number, count)) == number,
    decreases count,
{
    if count > 0 {
        lemma_le_bytes(number / 256, (count - 1) as nat);
        assert(le_bytes(number, count).skip(1) =~= le_bytes(number / 256, (count - 1) as nat));
    }
}

/// Overwrites the first eight bytes with a number, lowest byte first.
pub fn write_le(bytes: &mut Vec<u8>, number: u64)
    requires
        old(bytes)@.len() >= 8,
    ensures
        final(bytes)@ == le_bytes(number as nat, 8) + old(bytes)@.skip(8),
{
    let ghost before = bytes@;
    let ghost whole = le_bytes(number as nat, 8);
    let mut left: u64 = number;
    let mut i: usize = 0;
    proof {
        lemma_le_bytes(number as nat, 8);
        assert(whole.skip(0) =~= whole);
    }
    while i < 8
        invariant
            i <= 8,
            bytes@.len() == before.len(),
            before.len() >= 8,
            whole.len() == 8,
            whole.skip(i as int) == le_bytes(left as nat, (8 - i) as nat),
            forall|j: int| 0 <= j < i ==> bytes@[j] == whole[j],
            forall|j: int| i <= j < before.len() ==> bytes@[j] == before[j],
        decreases 8 - i,
    {
        let low: u8 = (left % 256) as u8;
        bytes.set(i, low);
        proof {
            let rest = le_bytes((left / 256) as nat, (8 - i - 1) as nat);
            lemma_le_bytes((left / 256) as nat, (8 - i - 1) as nat);
            assert(whole.skip(i as int)[0] == low);
            assert(whole.skip(i + 1) =~= whole.skip(i as int).skip(1));
            assert(whole.skip(i as int).skip(1) =~= rest);
        }
        left = left / 256;
        i += 1;
    }
    assert(bytes@ =~= whole + before.skip(8));
}

/// The eight bytes of a number, lowest first.
pub fn number_bytes(number: u64) -> (bytes: Vec<u8>)
    ensures
        bytes@ == le_bytes(number as nat, 8),
{
    let mut bytes: Vec<u8> = vec![0u8, 0u8, 0u8, 0u8, 0u8, 0u8, 0u8, 0u8];
    write_le(&mut bytes, number);
    proof {
        lemma_le_bytes(number as nat, 8);
    }
    assert(bytes@ =~= le_bytes(number as nat, 8));
    bytes
}

/// The number in the first eight bytes, lowest byte first.
pub fn read_le(bytes: &Vec<u8>) -> (number: u64)
    requires
        bytes@.len() >= 8,
    ensures
        number == le_number(bytes@.take(8)),
{
    let ghost whole = bytes@.take(8);
    let mut number: u64 = 0;
    let mut i: usize = 8;
    assert(whole.skip(8) =~= Seq::<u8>::empty());
    assert(byte_range(0) == 1);
    while i > 0
        invariant
            i <= 8,
            bytes@.len() >= 8,
            whole == bytes@.take(8),
            number == le_number(whole.skip(i as int)),
            number < byte_range((8 - i) as nat),
        decreases i,
    {
        i -= 1;
        proof {
            assert(whole.skip(i as int).skip(1) =~= whole.skip(i + 1));
            assert(whole.skip(i as int)[0] == bytes@[i as int]);
            assert(byte_range(8) == 18446744073709551616) by {
                reveal_with_fuel(byte_range, 9);
            }
            lemma_byte_range_grows((8 - i) as nat, 8);
            assert(byte_range((8 - i) as nat) == 256 * byte_range((8 - i - 1) as nat));
        }
        number = bytes[i] as u64 + 256 * number;
    }
    assert(whole.skip(0) =~= whole);
    number
}

proof fn lemma_byte_range_grows(low: nat, high: nat)
    requires
        low <= high,
    ensures
        0 < byte_range(low) <= byte_range(high),
    decreases high,
{
    if low < high {
        lemma_byte_range_grows(low, (high - 1) as nat);
    } else if low > 0 {
        lemma_byte_range_grows((low - 1) as nat, (low - 1) as nat);
    }
}

/// The eight bytes of a number are read back as that number.
pub proof fn law_number_bytes_are_read_back(number: u64)
    ensures
        le_bytes(number as nat, 8).len() == 8,
        le_number(le_bytes(number as nat, 8)) == number,
        le_bytes(number as nat, 8)[0] == number % 256,
{
    lemma_le_bytes(number as nat, 8);
    reveal_with_fuel(byte_range, 9);
    assert(byte_range(8) == 0x1_0000_0000_0000_0000);
}

} // verus!
