//! Properties of reconstruction that relate several entries or several runs.
use vstd::prelude::*;
use crate::merge::{collapsed, pruned, newer_than};
use crate::remap::{
    acceptable, assigned_first_fit, first_unpacked, follows_input, lemma_common_prefix, previous_id, renamed, source_of, target_of,
    FileKey, PlannedStorage, UnpackedFile,
};
use crate::types::{AccountsDbFieldsView, Slot, StorageEntry};

verus! {

/// No two entries of `flat` share slot and identifier.
pub open spec fn storage_keys_unique(flat: Seq<(Slot, StorageEntry)>) -> bool {
    forall|a: int, b: int|
        0 <= a < b < flat.len() ==> !(flat[a].0 == flat[b].0 && flat[a].1.id == flat[b].1.id)
}

/// Identifiers are assigned in increasing order, so no two entries share one,
/// and every identifier lies below the counter's final value.
pub proof fn lemma_ids_increase_below_next_id(
    planned: Seq<PlannedStorage>,
    present: Seq<FileKey>,
    unpacked: Seq<UnpackedFile>,
    next_id: u64,
)
    requires
        assigned_first_fit(planned, present, unpacked, next_id),
    ensures
        forall|a: int, b: int| 0 <= a < b < planned.len() ==> planned[a].id < planned[b].id,
        forall|k: int| 0 <= k < planned.len() ==> planned[k].id < next_id,
{
    assert forall|a: int, b: int| 0 <= a < b < planned.len() implies planned[a].id < planned[b].id by {
        lemma_increasing_from(planned, present, unpacked, next_id, a, b);
    }
    assert forall|k: int| 0 <= k < planned.len() implies planned[k].id < next_id by {
        if k < planned.len() - 1 {
            lemma_increasing_from(planned, present, unpacked, next_id, k, planned.len() - 1);
        }
    }
}

proof fn lemma_increasing_from(
    planned: Seq<PlannedStorage>,
    present: Seq<FileKey>,
    unpacked: Seq<UnpackedFile>,
    next_id: u64,
    a: int,
    b: int,
)
    requires
        assigned_first_fit(planned, present, unpacked, next_id),
        0 <= a < b < planned.len(),
    ensures
        planned[a].id < planned[b].id,
    decreases b - a,
{
    assert(previous_id(planned, b) < planned[b].id);
    if a < b - 1 {
        lemma_increasing_from(planned, present, unpacked, next_id, a, b - 1);
    }
}

/// Running the assignment twice on the same input gives the same entries and
/// the same counter, whatever else happened in between.
pub proof fn lemma_assignment_deterministic(
    first: Seq<PlannedStorage>,
    first_next_id: u64,
    second: Seq<PlannedStorage>,
    second_next_id: u64,
    flat: Seq<(Slot, StorageEntry)>,
    present: Seq<FileKey>,
    unpacked: Seq<UnpackedFile>,
)
    requires
        assigned_first_fit(first, present, unpacked, first_next_id),
        assigned_first_fit(second, present, unpacked, second_next_id),
        follows_input(first, flat),
        follows_input(second, flat),
    ensures
        first == second,
        first_next_id == second_next_id,
{
    assert(flat.subrange(0, flat.len() as int) =~= flat);
    lemma_common_prefix(first, first_next_id, second, second_next_id, flat, present, unpacked, flat.len() as int);
    assert(first.subrange(0, flat.len() as int) =~= first);
    assert(second.subrange(0, flat.len() as int) =~= second);
}

/// Every entry's file lies under its assigned name once the renames are done,
/// no later rename takes it away, and no two entries share a file. This needs
/// the unpacked files among the files present and the stream's slot and
/// identifier pairs distinct.
pub proof fn lemma_each_storage_keeps_its_file(
    planned: Seq<PlannedStorage>,
    next_id: u64,
    flat: Seq<(Slot, StorageEntry)>,
    present: Seq<FileKey>,
    unpacked: Seq<UnpackedFile>,
)
    requires
        assigned_first_fit(planned, present, unpacked, next_id),
        follows_input(planned, flat),
        storage_keys_unique(flat),
        forall|i: int| 0 <= i < unpacked.len() ==> present.contains(
            FileKey { dir: unpacked[i].dir, slot: unpacked[i].slot, id: #[trigger] unpacked[i].id },
        ),
    ensures
        forall|a: int, b: int|
            0 <= a < b < planned.len() ==> target_of(planned[a]) != target_of(planned[b]),
        forall|a: int, b: int|
            0 <= a < b < planned.len() && renamed(planned[b]) ==> source_of(planned[b]) != target_of(planned[a]),
{
    lemma_ids_increase_below_next_id(planned, present, unpacked, next_id);
    assert forall|a: int, b: int|
        0 <= a < b < planned.len() && renamed(planned[b]) implies source_of(planned[b]) != target_of(planned[a]) by {
        let pa = planned[a];
        let pb = planned[b];
        if source_of(pb) == target_of(pa) {
            if !renamed(pa) {
                assert(flat[a].0 == flat[b].0 && flat[a].1.id == flat[b].1.id);
            } else {
                let key = FileKey { dir: pa.dir, slot: pa.slot, id: pa.id };
                let u = UnpackedFile { slot: pb.slot, id: pb.original_id, dir: pb.dir };
                assert(first_unpacked(unpacked, pb.slot, pb.original_id, pb.dir));
                let i = choose|i: int|
                    0 <= i < unpacked.len() && #[trigger] unpacked[i] == u && forall|j: int|
                        0 <= j < i ==> !(unpacked[j].slot == pb.slot && unpacked[j].id == pb.original_id);
                assert(present.contains(FileKey { dir: unpacked[i].dir, slot: unpacked[i].slot, id: unpacked[i].id }));
                assert(present.contains(key));
                let before = planned.subrange(0, a);
                assert forall|k: int| 0 <= k < before.len() && renamed(before[k])
                    implies #[trigger] source_of(before[k]) != key by {
                    assert(before[k] == planned[k]);
                    if source_of(before[k]) == key {
                        assert(flat[k].0 == flat[b].0 && flat[k].1.id == flat[b].1.id);
                    }
                }
                assert(acceptable(present, planned, a, pa.id));
            }
        }
    }
}

/// When every incremental slot is at most the full snapshot's slot, the merged
/// storages are the full snapshot's alone, while write version, slot and bank
/// hash still come from the incremental snapshot.
pub proof fn lemma_stale_incremental_adds_no_storages(full: AccountsDbFieldsView, inc: AccountsDbFieldsView)
    requires
        forall|i: int| 0 <= i < inc.storages.len() ==> #[trigger] inc.storages[i].0 <= full.snapshot_slot,
    ensures
        collapsed(full, inc).storages == full.storages,
        collapsed(full, inc).write_version == inc.write_version,
        collapsed(full, inc).snapshot_slot == inc.snapshot_slot,
        collapsed(full, inc).bank_hash_info == inc.bank_hash_info,
{
    inc.storages.lemma_all_neg_filter_empty(newer_than(full.snapshot_slot));
    assert(pruned(inc.storages, full.snapshot_slot).len() == 0);
    assert(collapsed(full, inc).storages =~= full.storages);
}

/// When the stream's identifiers are 0, 1, 2, ... in order, every entry keeps
/// its identifier: no file is renamed, no collision is counted, and the
/// counter ends at the number of entries.
pub proof fn lemma_sequential_ids_need_no_rename(
    planned: Seq<PlannedStorage>,
    next_id: u64,
    flat: Seq<(Slot, StorageEntry)>,
    present: Seq<FileKey>,
    unpacked: Seq<UnpackedFile>,
)
    requires
        assigned_first_fit(planned, present, unpacked, next_id),
        follows_input(planned, flat),
        forall|k: int| 0 <= k < flat.len() ==> #[trigger] flat[k].1.id == k,
    ensures
        forall|k: int| 0 <= k < planned.len() ==> !#[trigger] renamed(planned[k]),
        next_id == planned.len(),
{
    lemma_ids_are_positions(planned, next_id, flat, present, unpacked, planned.len() as int);
    assert forall|k: int| 0 <= k < planned.len() implies !#[trigger] renamed(planned[k]) by {
        lemma_ids_are_positions(planned, next_id, flat, present, unpacked, k + 1);
        assert(flat[k].1.id == k);
        assert(planned[k].slot == flat[k].0);
        assert(planned[k].original_id == flat[k].1.id);
    }
}

proof fn lemma_ids_are_positions(
    planned: Seq<PlannedStorage>,
    next_id: u64,
    flat: Seq<(Slot, StorageEntry)>,
    present: Seq<FileKey>,
    unpacked: Seq<UnpackedFile>,
    n: int,
)
    requires
        assigned_first_fit(planned, present, unpacked, next_id),
        follows_input(planned, flat),
        forall|k: int| 0 <= k < flat.len() ==> #[trigger] flat[k].1.id == k,
        0 <= n <= planned.len(),
    ensures
        previous_id(planned, n) == n - 1,
    decreases n,
{
    if n > 0 {
        let k = n - 1;
        lemma_ids_are_positions(planned, next_id, flat, present, unpacked, k);
        assert(flat[k].1.id == k);
        assert(acceptable(present, planned, k, k as u64));
        assert(previous_id(planned, k) < planned[k].id);
        if planned[k].id > k {
            assert(!acceptable(present, planned, k, k as u64));
        }
    }
}

} // verus!
