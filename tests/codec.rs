use bincode::Options;
use serde_snapshot::codec::{deserialize_accounts_db_fields, serialize_accounts_db_fields, MAX_STREAM_SIZE};
use serde_snapshot::types::{AccountsDbFields, BankHashInfo, BankHashStats, DecodeError, SlotStorages, StorageEntry};

type Wire = (Vec<(u64, Vec<(u64, u64)>)>, u64, u64, ([u8; 32], [u8; 32], (u64, u64, u64, u64, u64)));

fn sample() -> AccountsDbFields {
    AccountsDbFields {
        storages: vec![
            SlotStorages::new(10, vec![StorageEntry::new(7, 4096), StorageEntry::new(8, 12)]),
            SlotStorages::new(11, vec![]),
            SlotStorages::new(12, vec![StorageEntry::new(0, 1)]),
        ],
        write_version: 3,
        snapshot_slot: 12,
        bank_hash_info: BankHashInfo {
            hash: (0..32).collect(),
            snapshot_hash: (100..132).collect(),
            stats: BankHashStats {
                num_updated_accounts: 11,
                num_removed_accounts: 12,
                num_lamports_stored: 13,
                total_data_len: 14,
                num_executable_accounts: 15,
            },
        },
    }
}

fn wire_of(f: &AccountsDbFields) -> Wire {
    let mut hash = [0u8; 32];
    hash.copy_from_slice(&f.bank_hash_info.hash);
    let mut snapshot_hash = [0u8; 32];
    snapshot_hash.copy_from_slice(&f.bank_hash_info.snapshot_hash);
    let st = f.bank_hash_info.stats;
    (
        f.storages.iter().map(|s| (s.slot, s.entries.iter().map(|e| (e.id, e.current_len)).collect())).collect(),
        f.write_version,
        f.snapshot_slot,
        (
            hash,
            snapshot_hash,
            (st.num_updated_accounts, st.num_removed_accounts, st.num_lamports_stored, st.total_data_len, st.num_executable_accounts),
        ),
    )
}

fn same(a: &AccountsDbFields, b: &AccountsDbFields) -> bool {
    wire_of(a) == wire_of(b)
}

#[test]
fn encoding_matches_bincode_fixint() {
    let f = sample();
    let ours = serialize_accounts_db_fields(&f);
    let theirs = bincode::options().with_fixint_encoding().serialize(&wire_of(&f)).unwrap();
    assert_eq!(ours, theirs);
    assert_eq!(ours.len(), 8 + (16 + 32) + 16 + (16 + 16) + 120);
}

#[test]
fn decodes_what_bincode_wrote() {
    let f = sample();
    let theirs = bincode::options().with_fixint_encoding().serialize(&wire_of(&f)).unwrap();
    let (g, end) = deserialize_accounts_db_fields(&theirs, 0).unwrap();
    assert!(same(&f, &g));
    assert_eq!(end, theirs.len());
}

#[test]
fn round_trip_with_trailing_bytes() {
    let f = sample();
    let mut bytes = vec![1u8, 2, 3];
    bytes.extend(serialize_accounts_db_fields(&f));
    let n = bytes.len();
    bytes.extend([0xFFu8; 10]);
    let (g, end) = deserialize_accounts_db_fields(&bytes, 3).unwrap();
    assert!(same(&f, &g));
    assert_eq!(end, n);
}

#[test]
fn declared_slot_count_past_limit_is_size_limit() {
    let mut bytes = (1u64 << 40).to_le_bytes().to_vec();
    bytes.extend([0u8; 64]);
    assert_eq!(deserialize_accounts_db_fields(&bytes, 0).unwrap_err(), DecodeError::SizeLimit);
}

#[test]
fn declared_entry_count_past_limit_is_size_limit() {
    let mut bytes = 1u64.to_le_bytes().to_vec();
    bytes.extend(10u64.to_le_bytes());
    bytes.extend((MAX_STREAM_SIZE / 16).to_le_bytes());
    bytes.extend([0u8; 64]);
    assert_eq!(deserialize_accounts_db_fields(&bytes, 0).unwrap_err(), DecodeError::SizeLimit);
}

#[test]
fn truncated_record_is_unexpected_eof() {
    let bytes = serialize_accounts_db_fields(&sample());
    for cut in [0usize, 7, 8, 20, bytes.len() - 1] {
        let short = bytes[..cut].to_vec();
        assert_eq!(deserialize_accounts_db_fields(&short, 0).unwrap_err(), DecodeError::UnexpectedEof);
    }
}

#[test]
fn repeated_slot_is_rejected() {
    let mut f = sample();
    f.storages[1].slot = 10;
    let bytes = serialize_accounts_db_fields(&f);
    assert_eq!(deserialize_accounts_db_fields(&bytes, 0).unwrap_err(), DecodeError::DuplicateSlot);
}

#[test]
fn entry_count_past_limit_in_a_later_slot_is_size_limit() {
    let mut bytes = 2u64.to_le_bytes().to_vec();
    bytes.extend(10u64.to_le_bytes());
    bytes.extend(1u64.to_le_bytes());
    bytes.extend(7u64.to_le_bytes());
    bytes.extend(4096u64.to_le_bytes());
    bytes.extend(11u64.to_le_bytes());
    bytes.extend(u64::MAX.to_le_bytes());
    assert_eq!(deserialize_accounts_db_fields(&bytes, 0).unwrap_err(), DecodeError::SizeLimit);
}
