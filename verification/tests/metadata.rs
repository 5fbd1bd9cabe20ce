use state_delta::metadata::last_persisted_index_of;
use state_delta::metadata::snapshot_sync_completed_of;
use state_delta::metadata::MetadataError;
use state_delta::metadata::MetadataKey;
use state_delta::metadata::MetadataValue;
use state_delta::metadata::StateSnapshotSyncProgress;

#[test]
fn test_metadata_schema_encode_decode() {
    let key = MetadataKey::StateSnapshotSync(123456789);
    let key_bytes = key.encode_key();
    assert_eq!(MetadataKey::decode_key(&key_bytes).unwrap(), key);
    let value = MetadataValue::StateSnapshotSync(StateSnapshotSyncProgress {
        last_persisted_state_value_index: 123456789,
        snapshot_sync_completed: true,
    });
    let value_bytes = value.encode_value();
    assert_eq!(MetadataValue::decode_value(&value_bytes).unwrap(), value);
}

#[test]
fn decode_rejects_wrong_length() {
    assert_eq!(
        MetadataKey::decode_key(&vec![0u8]).err().unwrap(),
        MetadataError::WrongLength
    );
    assert_eq!(
        MetadataValue::decode_value(&vec![0u8; 3]).err().unwrap(),
        MetadataError::WrongLength
    );
}

#[test]
fn decode_rejects_unknown_tag() {
    assert_eq!(
        MetadataKey::decode_key(&vec![7u8, 0, 0, 0, 0, 0, 0, 0, 0]).err().unwrap(),
        MetadataError::UnknownTag
    );
    assert_eq!(
        MetadataValue::decode_value(&vec![7u8, 0, 0, 0, 0, 0, 0, 0, 0, 1]).err().unwrap(),
        MetadataError::UnknownTag
    );
}

#[test]
fn decode_rejects_bad_completion_flag() {
    assert_eq!(
        MetadataValue::decode_value(&vec![0u8, 0, 0, 0, 0, 0, 0, 0, 0, 2]).err().unwrap(),
        MetadataError::BadFlag
    );
}

#[test]
fn completion_of_absent_progress_is_false() {
    assert!(!snapshot_sync_completed_of(None));
    let done = StateSnapshotSyncProgress {
        last_persisted_state_value_index: 4,
        snapshot_sync_completed: true,
    };
    assert!(snapshot_sync_completed_of(Some(done)));
}

#[test]
fn index_of_absent_progress_is_an_error() {
    assert_eq!(
        last_persisted_index_of(None).err().unwrap(),
        MetadataError::ProgressMissing
    );
    let progress = StateSnapshotSyncProgress {
        last_persisted_state_value_index: 4,
        snapshot_sync_completed: false,
    };
    assert_eq!(last_persisted_index_of(Some(progress)).unwrap(), 4);
}
