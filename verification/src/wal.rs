//! Framing of a crash-safe append-only log.
//!
//! A log is a sequence of frames: the record type's magic, the payload length
//! as a little-endian 32-bit number, a truncated BLAKE3 checksum over both and
//! the payload, and the payload. Reading stops at the first frame that is torn,
//! oversized, foreign, or damaged; what follows it is cut off on repair.

use crate::digest::{blake3_digest, blake3_hash};
use crate::octets::{append_bytes, copy_range};
use vstd::bytes::{
    lemma_auto_spec_u32_to_from_le_bytes, spec_u32_from_le_bytes, spec_u32_to_le_bytes,
    u32_from_le_bytes, u32_to_le_bytes,
};
use vstd::prelude::*;

verus! {

pub const CHECKSUM_LEN: usize = 16;

pub const FRAME_HEADER_LEN: usize = 24;

/// A record that can be kept in a log.
pub trait WalRecord: Sized + View {
    type Error;

    /// The bytes that start every frame of this record type.
    spec fn magic() -> Seq<u8>;

    proof fn magic_len()
        ensures
            Self::magic().len() == 4,
    ;

    /// The payload that stands for a record.
    spec fn encoded(record: Self::V) -> Result<Seq<u8>, Self::Error>;

    /// The record that a payload stands for.
    spec fn decoded(payload: Seq<u8>) -> Result<Self::V, Self::Error>;

    fn magic_bytes() -> (magic: [u8; 4])
        ensures
            magic@ == Self::magic(),
    ;

    fn encode(&self) -> (result: Result<Vec<u8>, Self::Error>)
        ensures
            match result {
                Ok(payload) => Self::encoded(self@) == Ok::<Seq<u8>, Self::Error>(payload@),
                Err(error) => Self::encoded(self@) == Err::<Seq<u8>, Self::Error>(error),
            },
    ;

    fn decode(payload: &Vec<u8>) -> (result: Result<Self, Self::Error>)
        ensures
            match result {
                Ok(record) => Self::decoded(payload@) == Ok::<Self::V, Self::Error>(record@),
                Err(error) => Self::decoded(payload@) == Err::<Self::V, Self::Error>(error),
            },
    ;
}

/// Why a record was not framed, or a log not read.
#[derive(Debug)]
pub enum WalError<E> {
    Encode(E),
    Decode { offset: usize, source: E },
    RecordTooLarge { bytes: usize, maximum: u32 },
}

/// What the checksum of a frame covers.
pub open spec fn checked_bytes(magic: Seq<u8>, payload: Seq<u8>) -> Seq<u8> {
    magic + spec_u32_to_le_bytes(payload.len() as u32) + payload
}

/// The checksum of a frame.
pub open spec fn checksum(magic: Seq<u8>, payload: Seq<u8>) -> Seq<u8> {
    blake3_digest(checked_bytes(magic, payload)).take(CHECKSUM_LEN as int)
}

/// The frame that holds `payload`.
pub open spec fn frame(magic: Seq<u8>, payload: Seq<u8>) -> Seq<u8> {
    magic + spec_u32_to_le_bytes(payload.len() as u32) + checksum(magic, payload) + payload
}

/// The payload length that a frame header states.
pub open spec fn stated_len(bytes: Seq<u8>, offset: nat) -> nat {
    spec_u32_from_le_bytes(bytes.subrange(offset as int + 4, offset as int + 8)) as nat
}

/// Whether a valid frame starts at `offset`.
pub open spec fn frame_starts(magic: Seq<u8>, bytes: Seq<u8>, offset: nat, maximum: u32) -> bool {
    &&& offset + FRAME_HEADER_LEN <= bytes.len()
    &&& bytes.subrange(offset as int, offset as int + 4) == magic
    &&& stated_len(bytes, offset) <= maximum
    &&& offset + FRAME_HEADER_LEN + stated_len(bytes, offset) <= bytes.len()
    &&& bytes.subrange(offset as int + 8, offset as int + FRAME_HEADER_LEN) == checksum(
        magic,
        frame_payload(bytes, offset),
    )
}

/// The payload of the frame that starts at `offset`.
pub open spec fn frame_payload(bytes: Seq<u8>, offset: nat) -> Seq<u8> {
    bytes.subrange(
        offset as int + FRAME_HEADER_LEN,
        offset as int + FRAME_HEADER_LEN + stated_len(bytes, offset),
    )
}

/// Where the frame that starts at `offset` ends.
pub open spec fn frame_end(bytes: Seq<u8>, offset: nat) -> nat {
    offset + FRAME_HEADER_LEN as nat + stated_len(bytes, offset)
}

/// The records from `offset` on and the end of the last valid frame, or the
/// offset of the first frame whose payload is not a record.
pub open spec fn scanned<R: WalRecord>(bytes: Seq<u8>, offset: nat, maximum: u32) -> Result<
    (Seq<R::V>, nat),
    (nat, R::Error),
>
    decreases bytes.len() - offset,
{
    if !frame_starts(R::magic(), bytes, offset, maximum) {
        Ok((Seq::empty(), offset))
    } else {
        match R::decoded(frame_payload(bytes, offset)) {
            Err(error) => Err((offset, error)),
            Ok(record) => match scanned::<R>(bytes, frame_end(bytes, offset), maximum) {
                Err(failure) => Err(failure),
                Ok((records, end)) => Ok((seq![record] + records, end)),
            },
        }
    }
}

/// The models of `records`.
pub open spec fn models<R: View>(records: Seq<R>) -> Seq<R::V> {
    records.map_values(|record: R| record@)
}

fn compute_checksum(magic: &[u8; 4], payload: &Vec<u8>) -> (sum: Vec<u8>)
    requires
        payload@.len() <= u32::MAX,
    ensures
        sum@ == checksum(magic@, payload@),
        sum@.len() == CHECKSUM_LEN,
{
    let mut checked: Vec<u8> = Vec::new();
    checked.extend_from_slice(magic.as_slice());
    assert(checked@ =~= magic@);
    let length: u32 = payload.len() as u32;
    append_bytes(&mut checked, &u32_to_le_bytes(length));
    append_bytes(&mut checked, payload);
    assert(checked@ == checked_bytes(magic@, payload@));
    let digest: [u8; 32] = blake3_hash(&checked);
    let mut sum: Vec<u8> = Vec::new();
    let mut i: usize = 0;
    while i < CHECKSUM_LEN
        invariant
            i <= CHECKSUM_LEN,
            sum@ == digest@.take(i as int),
        decreases CHECKSUM_LEN - i,
    {
        sum.push(digest[i]);
        assert(digest@.take(i + 1) =~= digest@.take(i as int).push(digest@[i as int]));
        i += 1;
    }
    sum
}

/// The frame to append for `record`.
pub fn frame_record<R: WalRecord>(record: &R, maximum: u32) -> (result: Result<
    Vec<u8>,
    WalError<R::Error>,
>)
    ensures
        match R::encoded(record@) {
            Err(error) => result == Err::<Vec<u8>, _>(WalError::Encode(error)),
            Ok(payload) => if payload.len() <= maximum {
                &&& result is Ok
                &&& result->Ok_0@ == frame(R::magic(), payload)
                &&& result->Ok_0@.len() == FRAME_HEADER_LEN + payload.len()
            } else {
                result matches Err(WalError::RecordTooLarge { bytes, maximum: limit }) && bytes
                    == payload.len() && limit == maximum
            },
        },
{
    let payload: Vec<u8> = match record.encode() {
        Ok(payload) => payload,
        Err(error) => return Err(WalError::Encode(error)),
    };
    if payload.len() > maximum as usize {
        return Err(WalError::RecordTooLarge { bytes: payload.len(), maximum });
    }
    let magic = R::magic_bytes();
    let mut bytes: Vec<u8> = Vec::new();
    bytes.extend_from_slice(magic.as_slice());
    assert(bytes@ =~= magic@);
    append_bytes(&mut bytes, &u32_to_le_bytes(payload.len() as u32));
    append_bytes(&mut bytes, &compute_checksum(&magic, &payload));
    append_bytes(&mut bytes, &payload);
    Ok(bytes)
}

/// Whether `bytes` holds `expected` at `start`.
fn holds_at(bytes: &Vec<u8>, start: usize, expected: &[u8]) -> (holds: bool)
    requires
        start + expected@.len() <= bytes@.len(),
    ensures
        holds == (bytes@.subrange(start as int, start + expected@.len()) == expected@),
{
    let total: usize = bytes.len();
    let mut i: usize = 0;
    while i < expected.len()
        invariant
            total == bytes@.len(),
            start + expected@.len() <= bytes@.len(),
            i <= expected@.len(),
            forall|j: int| 0 <= j < i ==> bytes@[start + j] == #[trigger] expected@[j],
        decreases expected@.len() - i,
    {
        if bytes[start + i] != expected[i] {
            assert(bytes@.subrange(start as int, start + expected@.len())[i as int] != expected@[i as int]);
            return false;
        }
        i += 1;
    }
    assert(bytes@.subrange(start as int, start + expected@.len()) =~= expected@);
    true
}

/// The payload of the frame at `offset`, if a valid one starts there.
fn read_frame(magic: &[u8; 4], bytes: &Vec<u8>, offset: usize, maximum: u32) -> (payload: Option<Vec<u8>>)
    requires
        offset <= bytes@.len(),
    ensures
        match payload {
            None => !frame_starts(magic@, bytes@, offset as nat, maximum),
            Some(payload) => {
                &&& frame_starts(magic@, bytes@, offset as nat, maximum)
                &&& payload@ == frame_payload(bytes@, offset as nat)
                &&& payload@.len() == stated_len(bytes@, offset as nat)
            },
        },
{
    if bytes.len() - offset < FRAME_HEADER_LEN {
        return None;
    }
    if !holds_at(bytes, offset, magic.as_slice()) {
        return None;
    }
    let stated: Vec<u8> = copy_range(bytes, offset + 4, offset + 8);
    let length: u32 = u32_from_le_bytes(stated.as_slice());
    let available: usize = bytes.len() - offset - FRAME_HEADER_LEN;
    if length > maximum || length as usize > available {
        return None;
    }
    let start: usize = offset + FRAME_HEADER_LEN;
    let payload: Vec<u8> = copy_range(bytes, start, start + length as usize);
    let sum: Vec<u8> = compute_checksum(magic, &payload);
    if !holds_at(bytes, offset + 8, sum.as_slice()) {
        return None;
    }
    Some(payload)
}

/// Reads a log: its records in the order they were appended, and the length of
/// the part that holds them.
pub fn scan_records<R: WalRecord>(bytes: &Vec<u8>, maximum: u32) -> (result: Result<
    (Vec<R>, usize),
    WalError<R::Error>,
>)
    ensures
        match scanned::<R>(bytes@, 0, maximum) {
            Ok((records, end)) => {
                &&& result matches Ok(read)
                &&& models(read.0@) == records
                &&& read.1 == end
                &&& end <= bytes@.len()
            },
            Err((at, error)) => result matches Err(WalError::Decode { offset, source }) && offset == at
                && source == error,
        },
{
    let magic = R::magic_bytes();
    let total: usize = bytes.len();
    let mut records: Vec<R> = Vec::new();
    let mut offset: usize = 0;
    let mut next: Option<Vec<u8>> = read_frame(&magic, bytes, 0, maximum);
    proof {
        assert(models(records@) =~= Seq::<R::V>::empty());
        match scanned::<R>(bytes@, 0, maximum) {
            Ok((read, end)) => {
                assert(models(records@) + read =~= read);
            },
            Err(_) => {},
        }
    }
    while next.is_some()
        invariant
            magic@ == R::magic(),
            total == bytes@.len(),
            offset <= bytes@.len(),
            match next {
                None => !frame_starts(magic@, bytes@, offset as nat, maximum),
                Some(payload) => {
                    &&& frame_starts(magic@, bytes@, offset as nat, maximum)
                    &&& payload@ == frame_payload(bytes@, offset as nat)
                    &&& payload@.len() == stated_len(bytes@, offset as nat)
                },
            },
            scanned::<R>(bytes@, 0, maximum) == (match scanned::<R>(bytes@, offset as nat, maximum) {
                Ok((rest, end)) => Ok((models(records@) + rest, end)),
                Err(failure) => Err(failure),
            }),
        decreases bytes@.len() - offset,
    {
        let payload: Vec<u8> = match next {
            Some(payload) => payload,
            None => {
                assert(false);
                Vec::new()
            },
        };
        let record: R = match R::decode(&payload) {
            Ok(record) => record,
            Err(source) => return Err(WalError::Decode { offset, source }),
        };
        let ghost earlier = records@;
        let ghost model = record@;
        let ghost at = offset as nat;
        records.push(record);
        offset = offset + FRAME_HEADER_LEN + payload.len();
        next = read_frame(&magic, bytes, offset, maximum);
        proof {
            assert(models(records@) =~= models(earlier).push(model));
            match scanned::<R>(bytes@, offset as nat, maximum) {
                Ok((rest, end)) => {
                    assert(models(earlier) + (seq![model] + rest) =~= models(records@) + rest);
                },
                Err(_) => {},
            }
        }
    }
    assert(models(records@) + Seq::<R::V>::empty() =~= models(records@));
    Ok((records, offset))
}

/// A valid frame stays valid when bytes are appended to the log.
proof fn lemma_frame_kept(magic: Seq<u8>, bytes: Seq<u8>, tail: Seq<u8>, offset: nat, maximum: u32)
    requires
        frame_starts(magic, bytes, offset, maximum),
    ensures
        frame_starts(magic, bytes + tail, offset, maximum),
        frame_payload(bytes + tail, offset) == frame_payload(bytes, offset),
        frame_end(bytes + tail, offset) == frame_end(bytes, offset),
{
    let whole = bytes + tail;
    let at = offset as int;
    assert(whole.subrange(at, at + 4) =~= bytes.subrange(at, at + 4));
    assert(whole.subrange(at + 4, at + 8) =~= bytes.subrange(at + 4, at + 8));
    assert(whole.subrange(at + 8, at + FRAME_HEADER_LEN) =~= bytes.subrange(
        at + 8,
        at + FRAME_HEADER_LEN,
    ));
    assert(frame_payload(whole, offset) =~= frame_payload(bytes, offset));
}

/// Appending to an intact log leaves its records in front of what the tail holds.
proof fn lemma_scan_prefix<R: WalRecord>(bytes: Seq<u8>, tail: Seq<u8>, offset: nat, maximum: u32)
    requires
        scanned::<R>(bytes, offset, maximum) is Ok,
        scanned::<R>(bytes, offset, maximum)->Ok_0.1 == bytes.len(),
    ensures
        scanned::<R>(bytes + tail, offset, maximum) == (match scanned::<R>(
            bytes + tail,
            bytes.len(),
            maximum,
        ) {
            Ok((rest, end)) => Ok((scanned::<R>(bytes, offset, maximum)->Ok_0.0 + rest, end)),
            Err(failure) => Err(failure),
        }),
    decreases bytes.len() - offset,
{
    let whole = bytes + tail;
    if frame_starts(R::magic(), bytes, offset, maximum) {
        lemma_frame_kept(R::magic(), bytes, tail, offset, maximum);
        let next = frame_end(bytes, offset);
        lemma_scan_prefix::<R>(bytes, tail, next, maximum);
        match R::decoded(frame_payload(bytes, offset)) {
            Ok(record) => {
                let (records, _) = scanned::<R>(bytes, next, maximum)->Ok_0;
                match scanned::<R>(whole, bytes.len(), maximum) {
                    Ok((rest, end)) => {
                        assert(seq![record] + (records + rest) =~= (seq![record] + records) + rest);
                    },
                    Err(_) => {},
                }
            },
            Err(_) => {},
        }
    } else {
        match scanned::<R>(whole, bytes.len(), maximum) {
            Ok((rest, end)) => {
                assert(Seq::<R::V>::empty() + rest =~= rest);
            },
            Err(_) => {},
        }
    }
}

/// Reading an intact log after an append gives the records read before and
/// then the appended one.
pub proof fn law_scan_returns_appended_record<R: WalRecord>(
    bytes: Seq<u8>,
    written: Seq<u8>,
    payload: Seq<u8>,
    record: R::V,
    maximum: u32,
)
    requires
        scanned::<R>(bytes, 0, maximum) is Ok,
        scanned::<R>(bytes, 0, maximum)->Ok_0.1 == bytes.len(),
        payload.len() <= maximum,
        written == frame(R::magic(), payload),
        written.len() == FRAME_HEADER_LEN + payload.len(),
        R::decoded(payload) == Ok::<R::V, R::Error>(record),
    ensures
        scanned::<R>(bytes + written, 0, maximum) == Ok::<(Seq<R::V>, nat), (nat, R::Error)>(
            (scanned::<R>(bytes, 0, maximum)->Ok_0.0.push(record), (bytes + written).len()),
        ),
{
    R::magic_len();
    lemma_auto_spec_u32_to_from_le_bytes();
    let whole = bytes + written;
    let at = bytes.len() as int;
    lemma_scan_prefix::<R>(bytes, written, 0, maximum);
    assert(spec_u32_to_le_bytes(payload.len() as u32).len() == 4);
    assert(whole.subrange(at, at + 4) =~= R::magic());
    assert(whole.subrange(at + 4, at + 8) =~= spec_u32_to_le_bytes(payload.len() as u32));
    assert(stated_len(whole, bytes.len()) == payload.len());
    assert(frame_payload(whole, bytes.len()) =~= payload);
    assert(whole.subrange(at + 8, at + FRAME_HEADER_LEN) =~= checksum(R::magic(), payload));
    assert(frame_starts(R::magic(), whole, bytes.len(), maximum));
    assert(!frame_starts(R::magic(), whole, whole.len(), maximum));
    let records = scanned::<R>(bytes, 0, maximum)->Ok_0.0;
    assert(scanned::<R>(whole, whole.len(), maximum) == Ok::<(Seq<R::V>, nat), (nat, R::Error)>(
        (Seq::empty(), whole.len()),
    ));
    assert(seq![record] + Seq::<R::V>::empty() =~= seq![record]);
    assert(records + seq![record] =~= records.push(record));
}

/// An append that was cut short loses nothing: the log reads as before it, and
/// the valid part ends where it ended before.
pub proof fn law_torn_append_is_dropped<R: WalRecord>(
    bytes: Seq<u8>,
    written: Seq<u8>,
    payload: Seq<u8>,
    kept: nat,
    maximum: u32,
)
    requires
        scanned::<R>(bytes, 0, maximum) is Ok,
        scanned::<R>(bytes, 0, maximum)->Ok_0.1 == bytes.len(),
        payload.len() <= maximum,
        written == frame(R::magic(), payload),
        written.len() == FRAME_HEADER_LEN + payload.len(),
        kept < written.len(),
    ensures
        scanned::<R>(bytes + written.take(kept as int), 0, maximum) == scanned::<R>(bytes, 0, maximum),
{
    R::magic_len();
    lemma_auto_spec_u32_to_from_le_bytes();
    let torn = written.take(kept as int);
    let whole = bytes + torn;
    let at = bytes.len() as int;
    lemma_scan_prefix::<R>(bytes, torn, 0, maximum);
    if kept >= FRAME_HEADER_LEN {
        assert(spec_u32_to_le_bytes(payload.len() as u32).len() == 4);
        assert(whole.subrange(at + 4, at + 8) =~= spec_u32_to_le_bytes(payload.len() as u32));
        assert(stated_len(whole, bytes.len()) == payload.len());
    }
    assert(!frame_starts(R::magic(), whole, bytes.len(), maximum));
    let records = scanned::<R>(bytes, 0, maximum)->Ok_0.0;
    assert(records + Seq::<R::V>::empty() =~= records);
}

/// Cutting a log at the end of its valid part keeps exactly the records read.
pub proof fn law_repaired_log_reads_the_same<R: WalRecord>(bytes: Seq<u8>, maximum: u32)
    requires
        scanned::<R>(bytes, 0, maximum) is Ok,
    ensures
        scanned::<R>(bytes, 0, maximum)->Ok_0.1 <= bytes.len(),
        scanned::<R>(bytes.take(scanned::<R>(bytes, 0, maximum)->Ok_0.1 as int), 0, maximum)
            == scanned::<R>(bytes, 0, maximum),
{
    lemma_scan_end::<R>(bytes, 0, maximum);
    lemma_scan_cut::<R>(bytes, 0, maximum);
}

proof fn lemma_scan_end<R: WalRecord>(bytes: Seq<u8>, offset: nat, maximum: u32)
    requires
        scanned::<R>(bytes, offset, maximum) is Ok,
        offset <= bytes.len(),
    ensures
        offset <= scanned::<R>(bytes, offset, maximum)->Ok_0.1 <= bytes.len(),
    decreases bytes.len() - offset,
{
    if frame_starts(R::magic(), bytes, offset, maximum) {
        lemma_scan_end::<R>(bytes, frame_end(bytes, offset), maximum);
    }
}

proof fn lemma_scan_cut<R: WalRecord>(bytes: Seq<u8>, offset: nat, maximum: u32)
    requires
        scanned::<R>(bytes, offset, maximum) is Ok,
        offset <= bytes.len(),
    ensures
        scanned::<R>(
            bytes.take(scanned::<R>(bytes, offset, maximum)->Ok_0.1 as int),
            offset,
            maximum,
        ) == scanned::<R>(bytes, offset, maximum),
    decreases bytes.len() - offset,
{
    lemma_scan_end::<R>(bytes, offset, maximum);
    let end = scanned::<R>(bytes, offset, maximum)->Ok_0.1;
    let cut = bytes.take(end as int);
    if frame_starts(R::magic(), bytes, offset, maximum) {
        let next = frame_end(bytes, offset);
        lemma_scan_end::<R>(bytes, next, maximum);
        lemma_scan_cut::<R>(bytes, next, maximum);
        let at = offset as int;
        assert(cut.subrange(at, at + 4) =~= bytes.subrange(at, at + 4));
        assert(cut.subrange(at + 4, at + 8) =~= bytes.subrange(at + 4, at + 8));
        assert(cut.subrange(at + 8, at + FRAME_HEADER_LEN) =~= bytes.subrange(
            at + 8,
            at + FRAME_HEADER_LEN,
        ));
        assert(frame_payload(cut, offset) =~= frame_payload(bytes, offset));
    }
}

/// The length to cut a log of `current_len` bytes to, where it has to be cut.
pub fn repair_tail(current_len: u64, valid_len: u64) -> (truncate_to: Option<u64>)
    ensures
        truncate_to == (if valid_len == current_len {
            None
        } else {
            Some(valid_len)
        }),
{
    if valid_len == current_len {
        None
    } else {
        Some(valid_len)
    }
}

/// A frame is its magic, the length of its payload with the lowest byte first, half
/// of the digest over magic, length and payload, and the payload.
pub proof fn law_frame_has_four_parts(magic: Seq<u8>, payload: Seq<u8>)
    requires
        magic.len() == 4,
        payload.len() <= u32::MAX,
        checksum(magic, payload).len() == 16,
    ensures
        frame(magic, payload).len() == 24 + payload.len(),
        frame(magic, payload).take(4) == magic,
        spec_u32_from_le_bytes(frame(magic, payload).subrange(4, 8)) == payload.len(),
        frame(magic, payload).subrange(8, 24) == blake3_digest(
            magic + spec_u32_to_le_bytes(payload.len() as u32) + payload,
        ).take(16),
        frame(magic, payload).skip(24) == payload,
{
    lemma_auto_spec_u32_to_from_le_bytes();
    let whole = frame(magic, payload);
    let length = spec_u32_to_le_bytes(payload.len() as u32);
    assert(whole.take(4) =~= magic);
    assert(whole.subrange(4, 8) =~= length);
    assert(whole.subrange(8, 24) =~= checksum(magic, payload));
    assert(whole.skip(24) =~= payload);
}

/// Bytes that start with no whole frame, with a foreign one, or with one that is too
/// long, hold no record.
pub proof fn law_reading_stops_at_a_bad_frame<R: WalRecord>(bytes: Seq<u8>, maximum: u32)
    requires
        R::magic().len() == 4,
        bytes.len() < 24 || bytes.take(4) != R::magic() || spec_u32_from_le_bytes(bytes.subrange(4, 8))
            > maximum || bytes.len() < 24 + spec_u32_from_le_bytes(bytes.subrange(4, 8)),
    ensures
        scanned::<R>(bytes, 0, maximum) == Ok::<(Seq<R::V>, nat), (nat, R::Error)>((Seq::empty(), 0)),
{
    if bytes.len() >= 24 {
        assert(bytes.subrange(0, 4) =~= bytes.take(4));
    }
}

} // verus!
