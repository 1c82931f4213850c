//! Plain records decoded from a snapshot stream.
use vstd::prelude::*;

verus! {

/// Ledger position.
pub type Slot = u64;

/// Identifier of one append-only accounts file within a slot.
pub type AppendVecId = u64;

/// Monotone per-account update counter.
pub type StoredMetaWriteVersion = u64;

/// Number of bytes in a hash.
pub const HASH_BYTES: usize = 32;

/// The wire record of one storage entry: its identifier and the number of
/// bytes of its append-vec that are in use.
#[derive(Clone, Copy, Debug, PartialEq, Eq, Structural)]
pub struct StorageEntry {
    pub id: AppendVecId,
    pub current_len: u64,
}

impl StorageEntry {
    pub fn new(id: AppendVecId, current_len: u64) -> (r: StorageEntry)
        ensures
            r.id == id,
            r.current_len == current_len,
    {
        StorageEntry { id, current_len }
    }

    pub fn id(&self) -> (r: AppendVecId)
        ensures
            r == self.id,
    {
        self.id
    }

    pub fn current_len(&self) -> (r: u64)
        ensures
            r == self.current_len,
    {
        self.current_len
    }
}

/// Per-slot statistics carried in the bank-hash summary.
#[derive(Clone, Copy, Debug, PartialEq, Eq, Structural)]
pub struct BankHashStats {
    pub num_updated_accounts: u64,
    pub num_removed_accounts: u64,
    pub num_lamports_stored: u64,
    pub total_data_len: u64,
    pub num_executable_accounts: u64,
}

/// Summary of one slot: bank hash, snapshot hash and statistics.
#[derive(Debug)]
pub struct BankHashInfo {
    pub hash: Vec<u8>,
    pub snapshot_hash: Vec<u8>,
    pub stats: BankHashStats,
}

/// The mathematical value of a `BankHashInfo`.
pub struct BankHashInfoView {
    pub hash: Seq<u8>,
    pub snapshot_hash: Seq<u8>,
    pub stats: BankHashStats,
}

impl View for BankHashInfo {
    type V = BankHashInfoView;

    open spec fn view(&self) -> BankHashInfoView {
        BankHashInfoView { hash: self.hash@, snapshot_hash: self.snapshot_hash@, stats: self.stats }
    }
}

impl BankHashInfoView {
    /// Both hashes have their full width.
    pub open spec fn wf(self) -> bool {
        self.hash.len() == HASH_BYTES && self.snapshot_hash.len() == HASH_BYTES
    }
}

/// The storage entries that one slot holds, in the order of the stream.
#[derive(Debug)]
pub struct SlotStorages {
    pub slot: Slot,
    pub entries: Vec<StorageEntry>,
}

impl View for SlotStorages {
    type V = (Slot, Seq<StorageEntry>);

    open spec fn view(&self) -> (Slot, Seq<StorageEntry>) {
        (self.slot, self.entries@)
    }
}

impl SlotStorages {
    pub fn new(slot: Slot, entries: Vec<StorageEntry>) -> (r: SlotStorages)
        ensures
            r@ == (slot, entries@),
    {
        SlotStorages { slot, entries }
    }

    /// A copy of this slot's storages.
    pub fn duplicate(&self) -> (r: SlotStorages)
        ensures
            r@ == self@,
    {
        let mut entries: Vec<StorageEntry> = Vec::new();
        let mut i: usize = 0;
        while i < self.entries.len()
            invariant
                i <= self.entries@.len(),
                entries@ == self.entries@.subrange(0, i as int),
            decreases self.entries@.len() - i,
        {
            entries.push(self.entries[i]);
            i = i + 1;
        }
        assert(entries@ == self.entries@);
        SlotStorages { slot: self.slot, entries }
    }
}

/// The view of a sequence of per-slot storages.
pub open spec fn slots_view(v: Seq<SlotStorages>) -> Seq<(Slot, Seq<StorageEntry>)> {
    v.map_values(|s: SlotStorages| s@)
}

/// No slot occurs twice.
pub open spec fn slot_keys_unique(s: Seq<(Slot, Seq<StorageEntry>)>) -> bool {
    forall|i: int, j: int| 0 <= i < j < s.len() ==> s[i].0 != s[j].0
}

/// Some element of `s` is keyed by `slot`.
pub open spec fn has_slot(s: Seq<(Slot, Seq<StorageEntry>)>, slot: Slot) -> bool {
    exists|i: int| 0 <= i < s.len() && s[i].0 == slot
}

/// The accounts-db record of one snapshot: storages per slot, the write
/// version, the slot of the snapshot and the bank-hash summary of that slot.
#[derive(Debug)]
pub struct AccountsDbFields {
    pub storages: Vec<SlotStorages>,
    pub write_version: StoredMetaWriteVersion,
    pub snapshot_slot: Slot,
    pub bank_hash_info: BankHashInfo,
}

/// The mathematical value of an `AccountsDbFields`.
pub struct AccountsDbFieldsView {
    pub storages: Seq<(Slot, Seq<StorageEntry>)>,
    pub write_version: StoredMetaWriteVersion,
    pub snapshot_slot: Slot,
    pub bank_hash_info: BankHashInfoView,
}

impl View for AccountsDbFields {
    type V = AccountsDbFieldsView;

    open spec fn view(&self) -> AccountsDbFieldsView {
        AccountsDbFieldsView {
            storages: slots_view(self.storages@),
            write_version: self.write_version,
            snapshot_slot: self.snapshot_slot,
            bank_hash_info: self.bank_hash_info@,
        }
    }
}

impl AccountsDbFieldsView {
    /// Slot keys are unique and both hashes have their full width.
    pub open spec fn wf(self) -> bool {
        slot_keys_unique(self.storages) && self.bank_hash_info.wf()
    }
}

/// Why a payload could not be decoded.
#[derive(Clone, Copy, Debug, PartialEq, Eq, Structural)]
pub enum DecodeError {
    /// The payload declares more bytes than the decoder's limit allows.
    SizeLimit,
    /// The payload ends before the record does.
    UnexpectedEof,
    /// The record lists one slot twice.
    DuplicateSlot,
}

/// Why a snapshot could not be reconstructed.
#[derive(Clone, Copy, Debug, PartialEq, Eq, Structural)]
pub enum SnapshotError {
    /// A stream could not be decoded.
    Decode(DecodeError),
    /// After pruning, the incremental snapshot still holds a slot of the full one.
    IncompatibleSnapshots,
    /// The append-vec named by this slot and identifier was not unpacked.
    MissingFile { slot: Slot, id: AppendVecId },
    /// Every slot's storage sequence was empty.
    EmptyReconstruction,
    /// The identifiers assigned reach into the reserved upper half.
    IdOverflow,
}

} // verus!
