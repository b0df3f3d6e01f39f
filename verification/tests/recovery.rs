use monad_runtime::dkg::ids::{DkgMessageId, DkgMessageKey, DkgMessageKind, Epoch, PartyId};
use monad_runtime::dkg::record::{EngineSeed, RecoveryRecord, ENGINE_SEED_BYTES};
use monad_runtime::dkg::recovery::{
    expired_epochs, RecoveredRecord, RecoveryState, RecoveryWalConfig, RecoveryWalError,
    RegistrationPlan, SeedPlan, DEFAULT_RECOVERY_WAL_PREALLOCATE_BYTES, MAX_RECOVERY_RECORD_BYTES,
    WAL_PREALLOCATE_ALIGNMENT,
};
use monad_runtime::dkg::wal_files::{recovery_epochs, recovery_wal_epoch, recovery_wal_name};
use monad_runtime::reliable::message::{IncomingRecord, OutgoingRecord};
use monad_runtime::wal::{frame_record, scan_records, FRAME_HEADER_LEN};

/// A log in memory, whose messages fill the slot of their first byte.
struct TestWal {
    bytes: Vec<u8>,
}

impl TestWal {
    fn new() -> Self {
        TestWal { bytes: Vec::new() }
    }

    fn append(&mut self, record: &RecoveryRecord) {
        let frame = frame_record(record, MAX_RECOVERY_RECORD_BYTES).unwrap();
        self.bytes.extend_from_slice(&frame);
    }

    fn records(&self) -> Vec<RecoveryRecord> {
        scan_records(&self.bytes, MAX_RECOVERY_RECORD_BYTES)
            .unwrap()
            .0
    }

    fn load(&self) -> Result<RecoveryState, RecoveryWalError> {
        let records = self
            .records()
            .into_iter()
            .map(|record| match record {
                RecoveryRecord::Seed(seed) => RecoveredRecord::Seed(seed),
                RecoveryRecord::Registration(bytes) => RecoveredRecord::Registration(bytes),
                RecoveryRecord::Outgoing {
                    recipients,
                    payload,
                } => RecoveredRecord::Outgoing(OutgoingRecord {
                    message_id: message_id(payload[0]),
                    recipients,
                    payload,
                }),
                RecoveryRecord::Incoming { source, payload } => {
                    RecoveredRecord::Incoming(IncomingRecord {
                        source,
                        message_id: message_id(payload[0]),
                        payload,
                    })
                }
            })
            .collect();
        RecoveryState::from_records(records)
    }

    fn load_or_create_engine_seed(
        &mut self,
        state: &RecoveryState,
    ) -> Result<[u8; 32], RecoveryWalError> {
        match state.plan_engine_seed()? {
            SeedPlan::Reuse(seed) => Ok(seed.to_bytes()),
            SeedPlan::Append(seed) => {
                self.append(&RecoveryRecord::Seed(seed.duplicate()));
                Ok(seed.to_bytes())
            }
        }
    }

    fn load_or_create_registration(
        &mut self,
        state: &mut RecoveryState,
        created: Vec<u8>,
    ) -> Result<Vec<u8>, RecoveryWalError> {
        match state.plan_registration(created)? {
            RegistrationPlan::Reuse(registration) => Ok(registration),
            RegistrationPlan::Append(registration) => {
                self.append(&RecoveryRecord::Registration(registration.clone()));
                state.apply(RecoveredRecord::Registration(registration.clone()))?;
                Ok(registration)
            }
        }
    }
}

fn message_id(value: u8) -> DkgMessageId {
    DkgMessageId::single(DkgMessageKey::new(
        DkgMessageKind::Ladder,
        PartyId(0),
        PartyId(value.into()),
        PartyId(0),
        1,
    ))
}

fn incoming(value: u8) -> RecoveryRecord {
    RecoveryRecord::Incoming {
        source: PartyId(value.into()),
        payload: vec![value],
    }
}

#[test]
fn default_preallocation_covers_one_maximum_record() {
    let maximum_record_bytes = u64::from(MAX_RECOVERY_RECORD_BYTES) + FRAME_HEADER_LEN as u64;

    assert!(DEFAULT_RECOVERY_WAL_PREALLOCATE_BYTES >= maximum_record_bytes);
    assert_eq!(
        DEFAULT_RECOVERY_WAL_PREALLOCATE_BYTES % WAL_PREALLOCATE_ALIGNMENT,
        0
    );
    assert!(
        DEFAULT_RECOVERY_WAL_PREALLOCATE_BYTES < maximum_record_bytes + WAL_PREALLOCATE_ALIGNMENT
    );
}

#[test]
fn preallocation_can_be_overridden() {
    let default = RecoveryWalConfig::default();
    assert_eq!(default.max_epochs, 2);
    assert_eq!(RecoveryWalConfig::with_override(None), default);
    assert_eq!(
        RecoveryWalConfig::with_override(Some(5)).preallocate_bytes,
        5
    );
}

#[test]
fn wal_rejects_conflicting_engine_seed_records() {
    let mut wal = TestWal::new();
    wal.append(&RecoveryRecord::Seed(EngineSeed::new(
        [0x11; ENGINE_SEED_BYTES],
    )));
    wal.append(&RecoveryRecord::Seed(EngineSeed::new(
        [0x22; ENGINE_SEED_BYTES],
    )));

    assert!(matches!(
        wal.load().err(),
        Some(RecoveryWalError::ConflictingSeed)
    ));
}

#[test]
fn wal_creates_and_reuses_one_engine_seed() {
    let mut wal = TestWal::new();

    let first = wal
        .load_or_create_engine_seed(&RecoveryState::new())
        .unwrap();
    let state = wal.load().unwrap();
    let second = wal.load_or_create_engine_seed(&state).unwrap();

    assert_eq!(first, second);
    assert_ne!(first, [0; ENGINE_SEED_BYTES]);
    assert_eq!(
        wal.records()
            .iter()
            .filter(|record| matches!(record, RecoveryRecord::Seed(_)))
            .count(),
        1
    );
}

#[test]
fn failed_draw_makes_no_seed() {
    assert!(matches!(
        RecoveryState::seed_plan(None).err(),
        Some(RecoveryWalError::Random)
    ));
    let Ok(SeedPlan::Append(seed)) = RecoveryState::seed_plan(Some([5; 32])) else {
        panic!("a drawn seed is appended")
    };
    assert_eq!(seed.to_bytes(), [5; 32]);
}

#[test]
fn wal_rejects_protocol_records_without_engine_seed() {
    let mut wal = TestWal::new();
    wal.append(&incoming(1));

    let state = wal.load().unwrap();
    let err = wal.load_or_create_engine_seed(&state).unwrap_err();

    assert!(matches!(err, RecoveryWalError::MissingSeed));
}

#[test]
fn wal_reuses_one_registration_after_restart() {
    let mut wal = TestWal::new();
    let mut state = wal.load().unwrap();
    assert!(state.needs_registration());
    let first = wal
        .load_or_create_registration(&mut state, vec![0xAA, 0xBB])
        .unwrap();

    let mut restarted = wal.load().unwrap();
    let second = wal
        .load_or_create_registration(&mut restarted, vec![0xCC])
        .unwrap();

    assert_eq!(first, vec![0xAA, 0xBB]);
    assert_eq!(second, first);
    assert_eq!(restarted.registration(), Some(first));
}

#[test]
fn wal_rejects_conflicting_registration_records() {
    let mut wal = TestWal::new();
    wal.append(&RecoveryRecord::Registration(vec![0xAA, 0xBB]));
    wal.append(&RecoveryRecord::Registration(vec![0xCC, 0xDD]));

    assert!(matches!(
        wal.load().err(),
        Some(RecoveryWalError::ConflictingRegistration)
    ));
}

#[test]
fn empty_registrations_are_not_kept() {
    assert!(matches!(
        RecoveryState::new().plan_registration(Vec::new()).err(),
        Some(RecoveryWalError::EmptyRegistration)
    ));
}

#[test]
fn wal_loads_outgoing_message_records() {
    let mut wal = TestWal::new();

    wal.append(&RecoveryRecord::Outgoing {
        recipients: vec![PartyId(2), PartyId(3)],
        payload: vec![0xAA, 0xBB, 0xCC],
    });

    let loaded = wal.load().unwrap();
    assert_eq!(loaded.outbox_len(), 1);
    let record = loaded.outgoing(&message_id(0xAA)).unwrap();
    assert_eq!(record.recipients, vec![PartyId(2), PartyId(3)]);
    assert_eq!(record.payload, vec![0xAA, 0xBB, 0xCC]);
    assert!(loaded.outgoing(&message_id(42)).is_none());
    let ids = loaded.outbox_ids();
    assert_eq!(ids.len(), 1);
    assert_eq!(loaded.outgoing(&ids[0]).unwrap().payload[0], 0xAA);
}

#[test]
fn wal_rejects_conflicting_outgoing_records() {
    let mut wal = TestWal::new();
    for last in [1, 2] {
        wal.append(&RecoveryRecord::Outgoing {
            recipients: vec![PartyId(2)],
            payload: vec![0xAA, last],
        });
    }
    assert!(matches!(
        wal.load().err(),
        Some(RecoveryWalError::ConflictingOutbox(_))
    ));
}

#[test]
fn wal_loads_incoming_messages() {
    let mut wal = TestWal::new();

    wal.append(&incoming(2));

    let loaded = wal.load().unwrap();
    assert_eq!(loaded.incoming().len(), 1);
    assert_eq!(loaded.incoming()[0].source, PartyId(2));
    assert_eq!(loaded.incoming()[0].payload, vec![2]);
}

fn names(names: &[&str]) -> Vec<Vec<u8>> {
    names.iter().map(|name| name.as_bytes().to_vec()).collect()
}

#[test]
fn wal_rotation_keeps_at_most_two_epochs() {
    let epochs = recovery_epochs(&names(&["dkg-recovery-1.wal", "dkg-recovery-2.wal"]));

    assert_eq!(expired_epochs(&epochs, Epoch(3), 2), vec![Epoch(1)]);
}

#[test]
fn wal_rotation_does_not_delete_newer_epochs() {
    let epochs = recovery_epochs(&names(&["dkg-recovery-7.wal", "dkg-recovery-8.wal"]));
    assert!(expired_epochs(&epochs, Epoch(6), 2).is_empty());

    let epochs = recovery_epochs(&names(&[
        "dkg-recovery-6.wal",
        "dkg-recovery-7.wal",
        "dkg-recovery-8.wal",
    ]));
    assert_eq!(expired_epochs(&epochs, Epoch(7), 2), vec![Epoch(6)]);
}

#[test]
fn lists_recoverable_epochs_in_order() {
    assert_eq!(
        recovery_epochs(&names(&[
            "dkg-recovery-9.wal",
            "dkg-recovery-7.wal",
            "unrelated"
        ])),
        vec![Epoch(7), Epoch(9)]
    );
    assert!(recovery_epochs(&Vec::new()).is_empty());
}

#[test]
fn file_names_round_trip() {
    assert_eq!(
        recovery_wal_name(Epoch(120)),
        b"dkg-recovery-120.wal".to_vec()
    );
    assert_eq!(
        recovery_wal_epoch(&recovery_wal_name(Epoch(u64::MAX))),
        Some(Epoch(u64::MAX))
    );
    assert_eq!(
        recovery_wal_epoch(&b"dkg-recovery-.wal".to_vec()),
        None
    );
    assert_eq!(
        recovery_wal_epoch(&b"dkg-recovery-18446744073709551616.wal".to_vec()),
        None
    );
}

#[test]
fn accepted_messages_are_listed_as_a_set() {
    let record = |source: u32, message: u8, payload: Vec<u8>| {
        RecoveredRecord::Incoming(IncomingRecord {
            source: PartyId(source),
            message_id: message_id(message),
            payload,
        })
    };
    let state = RecoveryState::from_records(vec![
        record(2, 1, vec![1]),
        record(1, 2, vec![2, 0]),
        record(1, 1, vec![1, 1]),
        record(1, 2, vec![2]),
        record(2, 1, vec![1]),
        record(1, 1, vec![1, 0, 9]),
    ])
    .unwrap();
    let key = |record: &IncomingRecord<PartyId, DkgMessageId>| {
        (record.source, record.payload.clone())
    };
    assert_eq!(
        state.incoming_set().iter().map(key).collect::<Vec<_>>(),
        vec![
            (PartyId(1), vec![1, 0, 9]),
            (PartyId(1), vec![1, 1]),
            (PartyId(1), vec![2]),
            (PartyId(1), vec![2, 0]),
            (PartyId(2), vec![1]),
        ]
    );
    // The log keeps the order in which they were accepted.
    assert_eq!(
        state.incoming().iter().map(key).collect::<Vec<_>>(),
        vec![
            (PartyId(2), vec![1]),
            (PartyId(1), vec![2, 0]),
            (PartyId(1), vec![1, 1]),
            (PartyId(1), vec![2]),
            (PartyId(1), vec![1, 0, 9]),
        ]
    );
    assert!(state.completions().is_empty());
}
