use monad_runtime::dkg::ids::{DkgMessageKind, PartyId};
use monad_runtime::dkg::record::{
    admit_records, DurableMessageError, EngineSeed, RecordPart, RecoveryRecord, WalCodecError,
};
use monad_runtime::wal::{
    frame_record, repair_tail, scan_records, WalError, WalRecord, FRAME_HEADER_LEN,
};

const MAX_RECORD_BYTES: u32 = 1024;

fn test_record(bytes: Vec<u8>) -> RecoveryRecord {
    RecoveryRecord::Registration(bytes)
}

fn checksum(payload: &[u8]) -> Vec<u8> {
    let mut covered = RecoveryRecord::magic_bytes().to_vec();
    covered.extend_from_slice(&(payload.len() as u32).to_le_bytes());
    covered.extend_from_slice(payload);
    blake3::hash(&covered).as_bytes()[..16].to_vec()
}

fn append(log: &mut Vec<u8>, record: &RecoveryRecord) {
    let frame = frame_record(record, MAX_RECORD_BYTES).unwrap();
    log.extend_from_slice(&frame);
}

fn open(log: &mut Vec<u8>) -> Vec<Vec<u8>> {
    let (records, valid): (Vec<RecoveryRecord>, usize) =
        scan_records(log, MAX_RECORD_BYTES).unwrap();
    if let Some(length) = repair_tail(log.len() as u64, valid as u64) {
        log.truncate(length as usize);
    }
    records
        .into_iter()
        .map(|record| match record {
            RecoveryRecord::Registration(bytes) => bytes,
            _ => panic!("the log holds registrations only"),
        })
        .collect()
}

#[test]
fn reopens_records_in_append_order() {
    let mut log = Vec::new();
    assert!(open(&mut log).is_empty());

    append(&mut log, &test_record(vec![1]));
    append(&mut log, &test_record(vec![2, 3]));

    assert_eq!(open(&mut log), vec![vec![1], vec![2, 3]]);
}

#[test]
fn rejects_oversized_records() {
    assert!(matches!(
        frame_record(&test_record(vec![1, 2]), 1),
        Err(WalError::RecordTooLarge { .. })
    ));
}

#[test]
fn open_truncates_a_torn_tail() {
    let mut log = Vec::new();
    append(&mut log, &test_record(vec![1, 2, 3]));
    let valid_len = log.len();

    log.extend_from_slice(b"torn");

    assert_eq!(open(&mut log), vec![vec![1, 2, 3]]);
    assert_eq!(log.len(), valid_len);
}

#[test]
fn open_truncates_a_bad_checksum_tail() {
    let mut log = Vec::new();
    append(&mut log, &test_record(vec![1]));
    let first_len = log.len();
    append(&mut log, &test_record(vec![2]));

    log[first_len + FRAME_HEADER_LEN] = b'x';

    assert_eq!(open(&mut log), vec![vec![1]]);
    assert_eq!(log.len(), first_len);
}

#[test]
fn frames_hold_magic_length_and_checksum() {
    let payload = test_record(vec![9, 8]).encode().unwrap();
    let frame = frame_record(&test_record(vec![9, 8]), MAX_RECORD_BYTES).unwrap();
    assert_eq!(frame[..4], RecoveryRecord::magic_bytes());
    assert_eq!(frame[4..8], (payload.len() as u32).to_le_bytes());
    assert_eq!(frame[8..24], checksum(&payload)[..]);
    assert_eq!(frame[24..], payload[..]);
}

#[test]
fn undecodable_records_are_reported_with_their_offset() {
    let mut log = Vec::new();
    append(&mut log, &test_record(vec![1]));
    let offset = log.len();
    let payload = [0xFFu8];
    log.extend_from_slice(&RecoveryRecord::magic_bytes());
    log.extend_from_slice(&1u32.to_le_bytes());
    log.extend_from_slice(&checksum(&payload));
    log.extend_from_slice(&payload);
    let result: Result<(Vec<RecoveryRecord>, usize), _> = scan_records(&log, MAX_RECORD_BYTES);
    let Err(WalError::Decode { offset: at, source }) = result else {
        panic!("the second record does not decode")
    };
    assert_eq!(at, offset);
    assert_eq!(source, WalCodecError::UnknownRecordKind(0xFF));
}

#[test]
fn empty_parts_of_records_are_refused() {
    assert!(matches!(
        RecoveryRecord::decode(&Vec::new()),
        Err(WalCodecError::Invalid(RecordPart::Empty))
    ));
    assert!(matches!(
        frame_record(&test_record(Vec::new()), MAX_RECORD_BYTES),
        Err(WalError::Encode(WalCodecError::Invalid(
            RecordPart::Registration
        )))
    ));
    let short_seed = RecoveryRecord::Seed(EngineSeed::new([7; 32]))
        .encode()
        .unwrap()[..32]
        .to_vec();
    assert!(matches!(
        RecoveryRecord::decode(&short_seed),
        Err(WalCodecError::Invalid(RecordPart::EngineSeed))
    ));
}

#[test]
fn message_records_are_lists_of_a_number_and_a_string() {
    let incoming = RecoveryRecord::Incoming {
        source: PartyId(0x0400),
        payload: vec![9, 8, 7],
    };
    assert_eq!(
        incoming.encode().unwrap(),
        vec![4, 0xc7, 0x82, 4, 0, 0x83, 9, 8, 7]
    );
    let long = RecoveryRecord::Outgoing {
        recipients: vec![PartyId(0), PartyId(5), PartyId(200)],
        payload: vec![1; 60],
    };
    let mut expected = vec![3, 0xf8, 0x43, 0xc4, 0x80, 5, 0x81, 200, 0xb8, 60];
    expected.extend_from_slice(&[1; 60]);
    assert_eq!(long.encode().unwrap(), expected);
}

#[test]
fn logs_with_ephemeral_or_malformed_messages_are_refused() {
    let records = vec![
        RecoveryRecord::Seed(EngineSeed::new([7; 32])),
        RecoveryRecord::Incoming {
            source: PartyId(1),
            payload: vec![2],
        },
        RecoveryRecord::Outgoing {
            recipients: vec![PartyId(1)],
            payload: vec![7],
        },
    ];
    let ack = Some(DkgMessageKind::PcAck);
    let request = Some(DkgMessageKind::PcRetrievalRequest);
    assert!(admit_records(&records, &vec![None, ack, Some(DkgMessageKind::PcProposal)]).is_ok());
    assert_eq!(
        admit_records(&records, &vec![None, ack, request]),
        Err(WalCodecError::Message(DurableMessageError::Ephemeral(
            DkgMessageKind::PcRetrievalRequest
        )))
    );
    assert_eq!(
        admit_records(&records, &vec![None, None, request]),
        Err(WalCodecError::Message(DurableMessageError::Decode))
    );
    assert!(admit_records(&Vec::new(), &Vec::new()).is_ok());
}

#[test]
fn longer_files_are_cut_to_their_valid_part() {
    assert_eq!(repair_tail(10, 8), Some(8));
    assert_eq!(repair_tail(10, 10), None);
}
