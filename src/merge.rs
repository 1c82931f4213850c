//! Merge of the accounts-db records of a full and an incremental snapshot.
use vstd::prelude::*;
use crate::types::{
    has_slot, slot_keys_unique, slots_view, AccountsDbFields, AccountsDbFieldsView, Slot, SlotStorages,
    SnapshotError, StorageEntry,
};

verus! {

/// The storages of an incremental snapshot that are newer than `full_slot`.
pub open spec fn newer_than(full_slot: Slot) -> spec_fn((Slot, Seq<StorageEntry>)) -> bool {
    |e: (Slot, Seq<StorageEntry>)| e.0 > full_slot
}

/// The incremental storages that survive pruning against the full snapshot's slot.
pub open spec fn pruned(
    inc: Seq<(Slot, Seq<StorageEntry>)>,
    full_slot: Slot,
) -> Seq<(Slot, Seq<StorageEntry>)> {
    inc.filter(newer_than(full_slot))
}

/// Some incremental slot newer than `full_slot` is also a slot of the full snapshot.
pub open spec fn overlapping(
    full: Seq<(Slot, Seq<StorageEntry>)>,
    inc: Seq<(Slot, Seq<StorageEntry>)>,
    full_slot: Slot,
) -> bool {
    exists|i: int| 0 <= i < inc.len() && inc[i].0 > full_slot && has_slot(full, #[trigger] inc[i].0)
}

/// The record that merging `full` with `inc` yields: the full storages, then the
/// pruned incremental ones; write version, slot and bank hash of the incremental.
pub open spec fn collapsed(full: AccountsDbFieldsView, inc: AccountsDbFieldsView) -> AccountsDbFieldsView {
    AccountsDbFieldsView {
        storages: full.storages + pruned(inc.storages, full.snapshot_slot),
        write_version: inc.write_version,
        snapshot_slot: inc.snapshot_slot,
        bank_hash_info: inc.bank_hash_info,
    }
}

/// Each pruned storage is an incremental one newer than `full_slot`, and
/// pruning keeps slots distinct.
pub proof fn lemma_pruned_elements(inc: Seq<(Slot, Seq<StorageEntry>)>, full_slot: Slot)
    ensures
        forall|i: int|
            0 <= i < pruned(inc, full_slot).len() ==> exists|j: int|
                0 <= j < inc.len() && inc[j] == #[trigger] pruned(inc, full_slot)[i] && inc[j].0 > full_slot,
        slot_keys_unique(inc) ==> slot_keys_unique(pruned(inc, full_slot)),
    decreases inc.len(),
{
    reveal(Seq::filter);
    if inc.len() > 0 {
        let rest = inc.drop_last();
        lemma_pruned_elements(rest, full_slot);
        let p = pruned(inc, full_slot);
        let q = pruned(rest, full_slot);
        assert forall|i: int| 0 <= i < p.len() implies exists|j: int|
            0 <= j < inc.len() && inc[j] == #[trigger] p[i] && inc[j].0 > full_slot by {
            if i < q.len() {
                let j = choose|j: int| 0 <= j < rest.len() && rest[j] == #[trigger] q[i] && rest[j].0 > full_slot;
                assert(inc[j] == rest[j]);
            } else {
                assert(inc[inc.len() - 1] == p[i]);
            }
        }
        if slot_keys_unique(inc) {
            assert(slot_keys_unique(rest));
            assert forall|a: int, b: int| 0 <= a < b < p.len() implies p[a].0 != p[b].0 by {
                if b >= q.len() {
                    let j = choose|j: int| 0 <= j < rest.len() && rest[j] == #[trigger] q[a] && rest[j].0 > full_slot;
                    assert(inc[j] == rest[j]);
                    assert(p[b] == inc[inc.len() - 1]);
                }
            }
        }
    }
}

/// The accounts-db records of a full snapshot and, optionally, of an
/// incremental snapshot taken on top of it.
#[derive(Debug)]
pub struct SnapshotAccountsDbFields {
    pub full_snapshot_accounts_db_fields: AccountsDbFields,
    pub incremental_snapshot_accounts_db_fields: Option<AccountsDbFields>,
}

/// Whether `v` holds storages for `slot`.
pub fn contains_slot(v: &Vec<SlotStorages>, slot: Slot) -> (r: bool)
    ensures
        r == has_slot(slots_view(v@), slot),
{
    let mut i: usize = 0;
    while i < v.len()
        invariant
            i <= v@.len(),
            forall|k: int| 0 <= k < i ==> v@[k].slot != slot,
        decreases v@.len() - i,
    {
        if v[i].slot == slot {
            assert(slots_view(v@)[i as int].0 == slot);
            return true;
        }
        i = i + 1;
    }
    assert(forall|k: int| 0 <= k < v@.len() ==> slots_view(v@)[k].0 == v@[k].slot);
    false
}

impl SnapshotAccountsDbFields {
    /// Collapses the two records into one. Without an incremental snapshot this
    /// is the full record. Otherwise the incremental storages of slots up to the
    /// full snapshot's slot are dropped; if a remaining slot is also a slot of the
    /// full snapshot the snapshots are incompatible; else the storages are the
    /// full ones followed by the remaining incremental ones, and write version,
    /// slot and bank hash are the incremental snapshot's.
    #[verifier::loop_isolation(false)]
    pub fn collapse_into(self) -> (r: Result<AccountsDbFields, SnapshotError>)
        ensures
            self.incremental_snapshot_accounts_db_fields is None ==> r is Ok && r->Ok_0@
                == self.full_snapshot_accounts_db_fields@,
            self.incremental_snapshot_accounts_db_fields is Some ==> {
                let full = self.full_snapshot_accounts_db_fields@;
                let inc = self.incremental_snapshot_accounts_db_fields->Some_0@;
                &&& r is Err <==> overlapping(full.storages, inc.storages, full.snapshot_slot)
                &&& r is Ok ==> r->Ok_0@ == collapsed(full, inc)
            },
            r is Err ==> r == Err::<AccountsDbFields, SnapshotError>(
                SnapshotError::IncompatibleSnapshots,
            ),
            r is Ok && slot_keys_unique(self.full_snapshot_accounts_db_fields@.storages) && (
            self.incremental_snapshot_accounts_db_fields matches Some(inc) ==> slot_keys_unique(
                inc@.storages,
            )) ==> slot_keys_unique(r->Ok_0@.storages),
    {
        let SnapshotAccountsDbFields {
            full_snapshot_accounts_db_fields: full,
            incremental_snapshot_accounts_db_fields: incremental,
        } = self;
        match incremental {
            None => Ok(full),
            Some(inc) => {
                let full_slot = full.snapshot_slot;
                let ghost full_v = slots_view(full.storages@);
                let ghost inc_v = slots_view(inc.storages@);
                let mut i: usize = 0;
                while i < inc.storages.len()
                    invariant
                        i <= inc.storages@.len(),
                        full_v == slots_view(full.storages@),
                        inc_v == slots_view(inc.storages@),
                        full_slot == full.snapshot_slot,
                        forall|k: int|
                            0 <= k < i ==> !(inc_v[k].0 > full_slot && has_slot(
                                full_v,
                                #[trigger] inc_v[k].0,
                            )),
                    decreases inc.storages@.len() - i,
                {
                    let slot = inc.storages[i].slot;
                    if slot > full_slot && contains_slot(&full.storages, slot) {
                        assert(inc_v[i as int].0 == slot);
                        return Err(SnapshotError::IncompatibleSnapshots);
                    }
                    i = i + 1;
                }
                let mut combined = full.storages;
                let mut j: usize = 0;
                while j < inc.storages.len()
                    invariant
                        j <= inc.storages@.len(),
                        inc_v == slots_view(inc.storages@),
                        slots_view(combined@) == full_v + inc_v.subrange(0, j as int).filter(
                            newer_than(full_slot),
                        ),
                    decreases inc.storages@.len() - j,
                {
                    let ghost before = combined@;
                    proof {
                        assert(inc_v.subrange(0, j + 1).drop_last() =~= inc_v.subrange(
                            0,
                            j as int,
                        ));
                        reveal(Seq::filter);
                    }
                    if inc.storages[j].slot > full_slot {
                        let s = inc.storages[j].duplicate();
                        combined.push(s);
                        assert(slots_view(combined@) =~= slots_view(before).push(s@));
                    }
                    j = j + 1;
                }
                assert(inc_v.subrange(0, inc.storages@.len() as int) =~= inc_v);
                proof {
                    lemma_pruned_elements(inc_v, full_slot);
                    let p = pruned(inc_v, full_slot);
                    if slot_keys_unique(full_v) && slot_keys_unique(inc_v) {
                        let c = full_v + p;
                        assert forall|a: int, b: int| 0 <= a < b < c.len() implies c[a].0 != c[b].0 by {
                            if b >= full_v.len() {
                                let j = choose|j: int| 0 <= j < inc_v.len() && inc_v[j] == #[trigger] p[b - full_v.len()] && inc_v[j].0 > full_slot;
                                assert(!(inc_v[j].0 > full_slot && has_slot(full_v, inc_v[j].0)));
                                if a < full_v.len() {
                                    assert(full_v[a].0 == c[a].0);
                                }
                            }
                        }
                    }
                }
                Ok(
                    AccountsDbFields {
                        storages: combined,
                        write_version: inc.write_version,
                        snapshot_slot: inc.snapshot_slot,
                        bank_hash_info: inc.bank_hash_info,
                    },
                )
            },
        }
    }
}

} // verus!
