//! Reconstruction of an accounts-db state from the records of a full and an
//! optional incremental snapshot: merge, then identifier assignment.
use vstd::prelude::*;
use crate::codec::{decodes_to, deserialize_accounts_db_fields, encodes_at, entry_count_past_limit, MAX_SLOT_COUNT};
use vstd::bytes::spec_u64_from_le_bytes;
use crate::merge::{collapsed, overlapping, SnapshotAccountsDbFields};
use crate::remap::{
    assigned_first_fit, flatten, follows_input, has_entries, runs_out_of_ids, missing_file, plan_remap, FileKey,
    PlannedStorage, UnpackedFile, MAX_APPEND_VEC_ID,
};
use crate::types::{
    slot_keys_unique, AccountsDbFields, AccountsDbFieldsView, BankHashInfo, DecodeError, Slot, SnapshotError, StorageEntry,
    StoredMetaWriteVersion,
};

verus! {

/// The accounts-db state that a snapshot yields: every storage entry with the
/// identifier and directory it ends up with, the identifier counter, the number
/// of refused candidates, and the snapshot's write version, slot and bank hash.
#[derive(Debug)]
pub struct ReconstructedAccountsDb {
    pub storages: Vec<PlannedStorage>,
    pub next_id: u64,
    pub num_collisions: u64,
    pub write_version: StoredMetaWriteVersion,
    pub snapshot_slot: Slot,
    pub bank_hash_info: BankHashInfo,
}

/// The slots of the incremental record, newer than the full snapshot, collide with the full record's.
pub open spec fn incompatible(full: AccountsDbFieldsView, inc: Option<AccountsDbFieldsView>) -> bool {
    inc is Some && overlapping(full.storages, inc->Some_0.storages, full.snapshot_slot)
}

/// The record that merging yields.
pub open spec fn merged(full: AccountsDbFieldsView, inc: Option<AccountsDbFieldsView>) -> AccountsDbFieldsView {
    match inc {
        None => full,
        Some(i) => collapsed(full, i),
    }
}

/// What reconstruction returns for the records `full` and `inc`, given the
/// unpacked files and the files present.
pub open spec fn reconstruction_outcome(
    full: AccountsDbFieldsView,
    inc: Option<AccountsDbFieldsView>,
    unpacked: Seq<UnpackedFile>,
    present: Seq<FileKey>,
    r: Result<ReconstructedAccountsDb, SnapshotError>,
) -> bool {
    let m = merged(full, inc);
    let flat = flatten(m.storages);
    &&& (r == Err::<ReconstructedAccountsDb, SnapshotError>(SnapshotError::IncompatibleSnapshots))
        <==> incompatible(full, inc)
    &&& r is Ok ==> {
        let db = r->Ok_0;
        &&& assigned_first_fit(db.storages@, present, unpacked, db.next_id)
        &&& follows_input(db.storages@, flat)
        &&& db.storages@.len() > 0
        &&& db.next_id - 1 <= MAX_APPEND_VEC_ID
        &&& db.num_collisions + db.storages@.len() == db.next_id
        &&& db.write_version == m.write_version
        &&& db.snapshot_slot == m.snapshot_slot
        &&& db.bank_hash_info@ == m.bank_hash_info
    }
    &&& !incompatible(full, inc) ==> ((r == Err::<ReconstructedAccountsDb, SnapshotError>(
        SnapshotError::EmptyReconstruction,
    )) <==> flat.len() == 0)
    &&& r matches Err(SnapshotError::MissingFile { slot, id }) ==> missing_file(flat, unpacked, slot, id)
    &&& !incompatible(full, inc) && flat.len() > 0 ==> ((r == Err::<ReconstructedAccountsDb, SnapshotError>(
        SnapshotError::IdOverflow,
    )) <==> runs_out_of_ids(flat, present, unpacked))
    &&& r matches Err(e) ==> (e is IncompatibleSnapshots || e is EmptyReconstruction || e is MissingFile
        || e is IdOverflow)
}

/// The view of an optional record.
pub open spec fn option_view(o: Option<AccountsDbFields>) -> Option<AccountsDbFieldsView> {
    match o {
        None => None,
        Some(f) => Some(f@),
    }
}

/// Assigns every storage entry of the merged record `combined` its identifier.
fn assign_storages(
    combined: AccountsDbFields,
    unpacked: &Vec<UnpackedFile>,
    present: &Vec<FileKey>,
) -> (r: Result<ReconstructedAccountsDb, SnapshotError>)
    requires
        flatten(combined@.storages).len() > 0,
    ensures
        r is Ok ==> {
            let db = r->Ok_0;
            &&& assigned_first_fit(db.storages@, present@, unpacked@, db.next_id)
            &&& follows_input(db.storages@, flatten(combined@.storages))
            &&& db.storages@.len() > 0
            &&& db.next_id - 1 <= MAX_APPEND_VEC_ID
            &&& db.num_collisions + db.storages@.len() == db.next_id
            &&& db.write_version == combined@.write_version
            &&& db.snapshot_slot == combined@.snapshot_slot
            &&& db.bank_hash_info@ == combined@.bank_hash_info
        },
        r matches Err(SnapshotError::MissingFile { slot, id }) ==> missing_file(
            flatten(combined@.storages),
            unpacked@,
            slot,
            id,
        ),
        (r == Err::<ReconstructedAccountsDb, SnapshotError>(SnapshotError::IdOverflow)) <==> runs_out_of_ids(
            flatten(combined@.storages),
            present@,
            unpacked@,
        ),
        r matches Err(e) ==> (e is MissingFile || e is IdOverflow),
{
    match plan_remap(&combined.storages, unpacked, present) {
        Ok(plan) => Ok(
            ReconstructedAccountsDb {
                storages: plan.entries,
                next_id: plan.next_id,
                num_collisions: plan.num_collisions,
                write_version: combined.write_version,
                snapshot_slot: combined.snapshot_slot,
                bank_hash_info: combined.bank_hash_info,
            },
        ),
        Err(e) => Err(e),
    }
}

/// Merges the full and incremental records, then assigns every storage entry
/// its identifier, given the unpacked files and the files present in their
/// directories. The merged record must hold at least one storage entry.
pub fn reconstruct_accountsdb_from_fields(
    fields: SnapshotAccountsDbFields,
    unpacked: &Vec<UnpackedFile>,
    present: &Vec<FileKey>,
) -> (r: Result<ReconstructedAccountsDb, SnapshotError>)
    requires
        flatten(
            merged(
                fields.full_snapshot_accounts_db_fields@,
                option_view(fields.incremental_snapshot_accounts_db_fields),
            ).storages,
        ).len() > 0,
    ensures
        reconstruction_outcome(
            fields.full_snapshot_accounts_db_fields@,
            option_view(fields.incremental_snapshot_accounts_db_fields),
            unpacked@,
            present@,
            r,
        ),
{
    let ghost full = fields.full_snapshot_accounts_db_fields@;
    let ghost inc = option_view(fields.incremental_snapshot_accounts_db_fields);
    let combined = match fields.collapse_into() {
        Ok(c) => c,
        Err(e) => {
            return Err(e);
        },
    };
    assert(combined@ == merged(full, inc));
    assign_storages(combined, unpacked, present)
}

/// Decodes the accounts-db record of the full snapshot at `full_start` of
/// `full`, and that of the incremental snapshot at `incremental_start` of
/// `incremental` if there is one, then reconstructs from them. A stream that
/// does not decode gives the decoder's error; a merged record without any
/// storage entry gives `EmptyReconstruction`.
pub fn reconstruct_accountsdb_from_streams(
    full: &Vec<u8>,
    full_start: usize,
    incremental: Option<&Vec<u8>>,
    incremental_start: usize,
    unpacked: &Vec<UnpackedFile>,
    present: &Vec<FileKey>,
) -> (r: Result<ReconstructedAccountsDb, SnapshotError>)
    requires
        full_start <= full@.len(),
        incremental matches Some(b) ==> incremental_start <= b@.len(),
    ensures
        forall|fv: AccountsDbFieldsView|
            #[trigger] decodes_to(full@, full_start as int, fv) && incremental is None
                ==> reconstruction_outcome(fv, None, unpacked@, present@, r),
        forall|fv: AccountsDbFieldsView, iv: AccountsDbFieldsView|
            #[trigger] decodes_to(full@, full_start as int, fv) && incremental is Some
                && #[trigger] decodes_to(incremental->Some_0@, incremental_start as int, iv)
                ==> reconstruction_outcome(fv, Some(iv), unpacked@, present@, r),
        r matches Err(SnapshotError::Decode(_)) ==> !(exists|fv: AccountsDbFieldsView|
            #[trigger] decodes_to(full@, full_start as int, fv)) || (incremental matches Some(b) && !(exists|
            iv: AccountsDbFieldsView| #[trigger] decodes_to(b@, incremental_start as int, iv))),
        !(exists|fv: AccountsDbFieldsView| #[trigger] decodes_to(full@, full_start as int, fv)) ==> r is Err
            && r->Err_0 is Decode,
        incremental matches Some(b) && !(exists|iv: AccountsDbFieldsView|
            #[trigger] decodes_to(b@, incremental_start as int, iv)) ==> r is Err && r->Err_0 is Decode,
        forall|fv: AccountsDbFieldsView|
            #[trigger] encodes_at(full@, full_start as int, fv) && !slot_keys_unique(fv.storages) ==> r == Err::<
                ReconstructedAccountsDb,
                SnapshotError,
            >(SnapshotError::Decode(DecodeError::DuplicateSlot)),
        full_start + 8 <= full@.len() && spec_u64_from_le_bytes(full@.subrange(full_start as int, full_start + 8))
            > MAX_SLOT_COUNT ==> r == Err::<ReconstructedAccountsDb, SnapshotError>(
            SnapshotError::Decode(DecodeError::SizeLimit),
        ),
        forall|ss: Seq<(Slot, Seq<StorageEntry>)>|
            #[trigger] entry_count_past_limit(full@, full_start as int, ss) ==> r == Err::<
                ReconstructedAccountsDb,
                SnapshotError,
            >(SnapshotError::Decode(DecodeError::SizeLimit)),
{
    let (full_fields, _) = match deserialize_accounts_db_fields(full, full_start) {
        Ok(found) => found,
        Err(e) => {
            return Err(SnapshotError::Decode(e));
        },
    };
    assert(decodes_to(full@, full_start as int, full_fields@));
    let incremental_fields = match incremental {
        None => None,
        Some(bytes) => match deserialize_accounts_db_fields(bytes, incremental_start) {
            Ok((f, _)) => {
                assert(decodes_to(bytes@, incremental_start as int, f@));
                Some(f)
            },
            Err(e) => {
                return Err(SnapshotError::Decode(e));
            },
        },
    };
    let fields = SnapshotAccountsDbFields {
        full_snapshot_accounts_db_fields: full_fields,
        incremental_snapshot_accounts_db_fields: incremental_fields,
    };
    let ghost fv = fields.full_snapshot_accounts_db_fields@;
    let ghost iv = option_view(fields.incremental_snapshot_accounts_db_fields);
    let combined = match fields.collapse_into() {
        Ok(c) => c,
        Err(e) => {
            return Err(e);
        },
    };
    assert(combined@ == merged(fv, iv));
    if !has_entries(&combined.storages) {
        return Err(SnapshotError::EmptyReconstruction);
    }
    assign_storages(combined, unpacked, present)
}

} // verus!
