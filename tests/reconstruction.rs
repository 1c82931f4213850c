use serde_snapshot::merge::SnapshotAccountsDbFields;
use serde_snapshot::reconstruct::{
    reconstruct_accountsdb_from_fields, reconstruct_accountsdb_from_streams,
    ReconstructedAccountsDb,
};
use serde_snapshot::remap::{plan_remap, FileKey, UnpackedFile, MAX_APPEND_VEC_ID};
use serde_snapshot::types::{
    AccountsDbFields, BankHashInfo, BankHashStats, SlotStorages, SnapshotError, StorageEntry,
};
use serde_snapshot::codec::serialize_accounts_db_fields;

fn hash_info(seed: u8) -> BankHashInfo {
    BankHashInfo {
        hash: vec![seed; 32],
        snapshot_hash: vec![seed.wrapping_add(1); 32],
        stats: BankHashStats {
            num_updated_accounts: 1,
            num_removed_accounts: 2,
            num_lamports_stored: 3,
            total_data_len: 4,
            num_executable_accounts: 5,
        },
    }
}

fn record(slots: &[(u64, &[(u64, u64)])], write_version: u64, snapshot_slot: u64, seed: u8) -> AccountsDbFields {
    let storages = slots
        .iter()
        .map(|(slot, entries)| {
            SlotStorages::new(*slot, entries.iter().map(|(id, len)| StorageEntry::new(*id, *len)).collect())
        })
        .collect();
    AccountsDbFields { storages, write_version, snapshot_slot, bank_hash_info: hash_info(seed) }
}

/// Every file of `fields` unpacked into directory 0, and present there.
fn unpacked_all(fields: &[&AccountsDbFields]) -> (Vec<UnpackedFile>, Vec<FileKey>) {
    let mut unpacked = Vec::new();
    let mut present = Vec::new();
    for f in fields {
        for s in &f.storages {
            for e in &s.entries {
                unpacked.push(UnpackedFile { slot: s.slot, id: e.id, dir: 0 });
                present.push(FileKey { dir: 0, slot: s.slot, id: e.id });
            }
        }
    }
    (unpacked, present)
}

fn full_only(full: AccountsDbFields) -> SnapshotAccountsDbFields {
    SnapshotAccountsDbFields { full_snapshot_accounts_db_fields: full, incremental_snapshot_accounts_db_fields: None }
}

fn renames(db: &ReconstructedAccountsDb) -> usize {
    db.storages.iter().filter(|p| p.id != p.original_id).count()
}

#[test]
fn full_only_one_slot_one_storage() {
    let full = record(&[(10, &[(7, 4096)])], 3, 10, 9);
    let (unpacked, present) = unpacked_all(&[&full]);
    let db = reconstruct_accountsdb_from_fields(full_only(full), &unpacked, &present).unwrap();
    assert_eq!(db.storages.len(), 1);
    let p = db.storages[0];
    assert_eq!((p.slot, p.original_id, p.current_len), (10, 7, 4096));
    // the counter starts at zero and file 10.0 is free, so the entry takes id 0
    assert_eq!(p.id, 0);
    assert_eq!(db.next_id, 1);
    assert_eq!(db.num_collisions, 0);
    assert_eq!(db.write_version, 3);
    assert_eq!(db.snapshot_slot, 10);
    assert_eq!(db.bank_hash_info.hash, vec![9u8; 32]);
}

#[test]
fn full_only_id_matching_counter_keeps_its_name() {
    let full = record(&[(10, &[(0, 4096)])], 3, 10, 9);
    let (unpacked, present) = unpacked_all(&[&full]);
    let db = reconstruct_accountsdb_from_fields(full_only(full), &unpacked, &present).unwrap();
    assert_eq!(db.storages[0].id, 0);
    assert_eq!(renames(&db), 0);
    assert_eq!(db.next_id, 1);
    assert_eq!(db.num_collisions, 0);
}

#[test]
fn full_and_incremental_disjoint_slots() {
    let full = record(&[(10, &[(1, 100)])], 2, 10, 1);
    let inc = record(&[(11, &[(1, 200)])], 5, 11, 7);
    let (unpacked, present) = unpacked_all(&[&full, &inc]);
    let fields = SnapshotAccountsDbFields {
        full_snapshot_accounts_db_fields: full,
        incremental_snapshot_accounts_db_fields: Some(inc),
    };
    let db = reconstruct_accountsdb_from_fields(fields, &unpacked, &present).unwrap();
    let slots: Vec<u64> = db.storages.iter().map(|p| p.slot).collect();
    assert_eq!(slots, vec![10, 11]);
    assert_eq!(db.snapshot_slot, 11);
    assert_eq!(db.write_version, 5);
    assert_eq!(db.bank_hash_info.hash, vec![7u8; 32]);
    assert_eq!(db.storages[1].current_len, 200);
    assert_ne!(db.storages[0].id, db.storages[1].id);
}

#[test]
fn incremental_slot_at_full_slot_is_pruned() {
    let full = record(&[(10, &[(1, 100)])], 2, 10, 1);
    let inc = record(&[(10, &[(2, 300)]), (11, &[(1, 200)])], 5, 11, 7);
    let (unpacked, present) = unpacked_all(&[&full, &inc]);
    let fields = SnapshotAccountsDbFields {
        full_snapshot_accounts_db_fields: full,
        incremental_snapshot_accounts_db_fields: Some(inc),
    };
    let db = reconstruct_accountsdb_from_fields(fields, &unpacked, &present).unwrap();
    let kept: Vec<(u64, u64, u64)> = db.storages.iter().map(|p| (p.slot, p.original_id, p.current_len)).collect();
    assert_eq!(kept, vec![(10, 1, 100), (11, 1, 200)]);
}

#[test]
fn overlap_after_pruning_is_incompatible() {
    let full = record(&[(10, &[(1, 100)])], 2, 5, 1);
    let inc = record(&[(10, &[(2, 100)])], 5, 7, 7);
    let (unpacked, present) = unpacked_all(&[&full, &inc]);
    let fields = SnapshotAccountsDbFields {
        full_snapshot_accounts_db_fields: full,
        incremental_snapshot_accounts_db_fields: Some(inc),
    };
    let r = reconstruct_accountsdb_from_fields(fields, &unpacked, &present);
    assert_eq!(r.unwrap_err(), SnapshotError::IncompatibleSnapshots);
}

#[test]
fn identifier_collision_renames_once() {
    let full = record(&[(10, &[(0, 100)]), (11, &[(0, 200)])], 2, 11, 1);
    let (unpacked, mut present) = unpacked_all(&[&full]);
    // a stray file already holds the name that the second entry would take first
    present.push(FileKey { dir: 0, slot: 11, id: 1 });
    let db = reconstruct_accountsdb_from_fields(full_only(full), &unpacked, &present).unwrap();
    assert_eq!(db.storages[0].id, 0);
    assert_eq!(db.storages[1].id, 2);
    assert_eq!(renames(&db), 1);
    assert_eq!(db.num_collisions, 1);
    assert_eq!(db.next_id, 3);
}

#[test]
fn all_slots_empty_is_an_invariant_violation() {
    let full = record(&[(10, &[]), (11, &[])], 2, 11, 1);
    let bytes = serialize_accounts_db_fields(&full);
    let r = reconstruct_accountsdb_from_streams(&bytes, 0, None, 0, &Vec::new(), &Vec::new());
    assert_eq!(r.unwrap_err(), SnapshotError::EmptyReconstruction);
}

#[test]
fn empty_slots_are_dropped() {
    let full = record(&[(9, &[]), (10, &[(0, 100)])], 2, 10, 1);
    let (unpacked, present) = unpacked_all(&[&full]);
    let db = reconstruct_accountsdb_from_fields(full_only(full), &unpacked, &present).unwrap();
    assert_eq!(db.storages.len(), 1);
    assert_eq!(db.storages[0].slot, 10);
}

#[test]
fn file_not_unpacked_is_missing() {
    let full = record(&[(10, &[(0, 100), (4, 50)])], 2, 10, 1);
    let unpacked = vec![UnpackedFile { slot: 10, id: 0, dir: 0 }];
    let present = vec![FileKey { dir: 0, slot: 10, id: 0 }];
    let r = reconstruct_accountsdb_from_fields(full_only(full), &unpacked, &present);
    assert_eq!(r.unwrap_err(), SnapshotError::MissingFile { slot: 10, id: 4 });
}

#[test]
fn stale_incremental_keeps_full_storages_and_takes_its_metadata() {
    let full = record(&[(10, &[(0, 100)])], 2, 10, 1);
    let inc = record(&[(8, &[(5, 1)]), (10, &[(6, 1)])], 5, 12, 7);
    let (unpacked, present) = unpacked_all(&[&full]);
    let fields = SnapshotAccountsDbFields {
        full_snapshot_accounts_db_fields: full,
        incremental_snapshot_accounts_db_fields: Some(inc),
    };
    let db = reconstruct_accountsdb_from_fields(fields, &unpacked, &present).unwrap();
    assert_eq!(db.storages.len(), 1);
    assert_eq!((db.storages[0].slot, db.storages[0].original_id), (10, 0));
    assert_eq!(db.write_version, 5);
    assert_eq!(db.snapshot_slot, 12);
    assert_eq!(db.bank_hash_info.hash, vec![7u8; 32]);
}

#[test]
fn sequential_ids_need_no_rename() {
    let full = record(&[(10, &[(0, 1), (1, 2)]), (12, &[(2, 3)])], 2, 12, 1);
    let (unpacked, present) = unpacked_all(&[&full]);
    let db = reconstruct_accountsdb_from_fields(full_only(full), &unpacked, &present).unwrap();
    assert_eq!(renames(&db), 0);
    assert_eq!(db.num_collisions, 0);
    assert_eq!(db.next_id, 3);
}

#[test]
fn ids_are_distinct_and_below_counter() {
    let full = record(&[(10, &[(5, 1), (3, 2)]), (11, &[(5, 3), (0, 4)])], 2, 11, 1);
    let (unpacked, present) = unpacked_all(&[&full]);
    let db = reconstruct_accountsdb_from_fields(full_only(full), &unpacked, &present).unwrap();
    let ids: Vec<u64> = db.storages.iter().map(|p| p.id).collect();
    for w in ids.windows(2) {
        assert!(w[0] < w[1]);
    }
    assert!(ids.iter().all(|id| *id < db.next_id));
    assert!(db.next_id - 1 <= MAX_APPEND_VEC_ID);
    assert_eq!(db.num_collisions + ids.len() as u64, db.next_id);
}

#[test]
fn name_freed_by_an_earlier_rename_is_taken() {
    let full = record(&[(10, &[(3, 1), (1, 2), (0, 3)])], 2, 10, 1);
    let (unpacked, present) = unpacked_all(&[&full]);
    let db = reconstruct_accountsdb_from_fields(full_only(full), &unpacked, &present).unwrap();
    let ids: Vec<u64> = db.storages.iter().map(|p| p.id).collect();
    // 10.3 collides with 10.0 and 10.1 and moves to 10.2; 10.1 then moves to
    // the name 10.3 just freed; 10.0 meets no file at 10.4
    assert_eq!(ids, vec![2, 3, 4]);
    assert_eq!(db.num_collisions, 2);
    assert_eq!(db.next_id, 5);
}

#[test]
fn reconstruction_is_deterministic() {
    let full = record(&[(10, &[(5, 1), (3, 2)]), (11, &[(5, 3)])], 2, 11, 1);
    let (unpacked, mut present) = unpacked_all(&[&full]);
    present.push(FileKey { dir: 0, slot: 11, id: 2 });
    let a = plan_remap(&full.storages, &unpacked, &present).unwrap();
    let b = plan_remap(&full.storages, &unpacked, &present).unwrap();
    assert_eq!(a.entries, b.entries);
    assert_eq!(a.next_id, b.next_id);
    assert_eq!(a.num_collisions, b.num_collisions);
}

#[test]
fn streams_reconstruct_after_a_prefix() {
    let full = record(&[(10, &[(0, 100)])], 2, 10, 1);
    let inc = record(&[(11, &[(1, 200)])], 5, 11, 7);
    let (unpacked, present) = unpacked_all(&[&full, &inc]);
    let mut full_bytes = vec![0xAAu8; 5];
    full_bytes.extend(serialize_accounts_db_fields(&full));
    let inc_bytes = serialize_accounts_db_fields(&inc);
    let db = reconstruct_accountsdb_from_streams(&full_bytes, 5, Some(&inc_bytes), 0, &unpacked, &present).unwrap();
    assert_eq!(db.storages.len(), 2);
    assert_eq!(db.snapshot_slot, 11);
    assert_eq!(db.write_version, 5);
}

#[test]
fn streams_report_decode_errors() {
    let full = record(&[(10, &[(0, 100)])], 2, 10, 1);
    let bytes = serialize_accounts_db_fields(&full);
    let cut = bytes[..bytes.len() - 1].to_vec();
    let r = reconstruct_accountsdb_from_streams(&cut, 0, None, 0, &Vec::new(), &Vec::new());
    assert_eq!(r.unwrap_err(), SnapshotError::Decode(serde_snapshot::types::DecodeError::UnexpectedEof));
}

#[test]
fn collapse_without_incremental_is_the_full_record() {
    let full = record(&[(10, &[(1, 100)]), (12, &[(4, 8)])], 2, 12, 1);
    let merged = full_only(full).collapse_into().unwrap();
    let kept: Vec<u64> = merged.storages.iter().map(|s| s.slot).collect();
    assert_eq!(kept, vec![10, 12]);
    assert_eq!(merged.write_version, 2);
    assert_eq!(merged.snapshot_slot, 12);
}

#[test]
fn collapse_appends_newer_incremental_slots() {
    let full = record(&[(10, &[(1, 100)])], 2, 10, 1);
    let inc = record(&[(9, &[(3, 1)]), (12, &[(2, 5)]), (11, &[(0, 6)])], 4, 12, 3);
    let fields = SnapshotAccountsDbFields {
        full_snapshot_accounts_db_fields: full,
        incremental_snapshot_accounts_db_fields: Some(inc),
    };
    let merged = fields.collapse_into().unwrap();
    let kept: Vec<u64> = merged.storages.iter().map(|s| s.slot).collect();
    assert_eq!(kept, vec![10, 12, 11]);
    assert_eq!(merged.write_version, 4);
    assert_eq!(merged.bank_hash_info.hash, vec![3u8; 32]);
    assert!(serde_snapshot::merge::contains_slot(&merged.storages, 11));
    assert!(!serde_snapshot::merge::contains_slot(&merged.storages, 9));
}

#[test]
fn streams_report_size_limit_before_any_file_work() {
    let mut bytes = (1u64 << 40).to_le_bytes().to_vec();
    bytes.extend([0u8; 64]);
    let r = reconstruct_accountsdb_from_streams(&bytes, 0, None, 0, &Vec::new(), &Vec::new());
    assert_eq!(r.unwrap_err(), SnapshotError::Decode(serde_snapshot::types::DecodeError::SizeLimit));
}

#[test]
fn streams_report_incremental_decode_error() {
    let full = record(&[(10, &[(0, 100)])], 2, 10, 1);
    let (unpacked, present) = unpacked_all(&[&full]);
    let bytes = serialize_accounts_db_fields(&full);
    let short = vec![0u8; 3];
    let r = reconstruct_accountsdb_from_streams(&bytes, 0, Some(&short), 0, &unpacked, &present);
    assert_eq!(r.unwrap_err(), SnapshotError::Decode(serde_snapshot::types::DecodeError::UnexpectedEof));
}
