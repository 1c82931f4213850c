//! Assignment of fresh storage identifiers. Every storage entry draws
//! candidates from one counter that starts at zero; a candidate is taken when it
//! is the entry's own identifier or when no file of that name is present in the
//! entry's directory, else it counts as a collision. Entries whose identifier
//! changes have their file renamed.
use vstd::prelude::*;
use crate::types::{
    slots_view, AppendVecId, Slot, SlotStorages, SnapshotError, StorageEntry,
};

verus! {

/// The largest identifier that reconstruction may assign: the upper half of the
/// identifier space is kept for allocations after loading.
pub const MAX_APPEND_VEC_ID: u64 = 9223372036854775807;

/// A file named after `slot` and `id` in the directory numbered `dir`.
#[derive(Clone, Copy, Debug, PartialEq, Eq, Structural)]
pub struct FileKey {
    pub dir: u64,
    pub slot: Slot,
    pub id: AppendVecId,
}

/// One unpacked append-vec: the slot and identifier its name carries and the
/// directory it was unpacked into.
#[derive(Clone, Copy, Debug, PartialEq, Eq, Structural)]
pub struct UnpackedFile {
    pub slot: Slot,
    pub id: AppendVecId,
    pub dir: u64,
}

/// One storage entry after remapping.
#[derive(Clone, Copy, Debug, PartialEq, Eq, Structural)]
pub struct PlannedStorage {
    pub slot: Slot,
    /// The identifier assigned.
    pub id: AppendVecId,
    /// The identifier the stream gave.
    pub original_id: AppendVecId,
    pub current_len: u64,
    /// The directory the file lies in.
    pub dir: u64,
}

/// The result of remapping: the entries in stream order, the counter's final
/// value and the number of candidates refused.
#[derive(Debug)]
pub struct RemapPlan {
    pub entries: Vec<PlannedStorage>,
    pub next_id: u64,
    pub num_collisions: u64,
}

/// The entries of one slot, each paired with the slot.
pub open spec fn row(slot: Slot, es: Seq<StorageEntry>) -> Seq<(Slot, StorageEntry)> {
    es.map_values(|e: StorageEntry| (slot, e))
}

/// All entries of all slots, slot after slot.
pub open spec fn flatten(s: Seq<(Slot, Seq<StorageEntry>)>) -> Seq<(Slot, StorageEntry)>
    decreases s.len(),
{
    if s.len() == 0 {
        Seq::empty()
    } else {
        flatten(s.drop_last()) + row(s.last().0, s.last().1)
    }
}

/// The file of an entry before any rename.
pub open spec fn source_of(p: PlannedStorage) -> FileKey {
    FileKey { dir: p.dir, slot: p.slot, id: p.original_id }
}

/// The file of an entry after its rename, if any.
pub open spec fn target_of(p: PlannedStorage) -> FileKey {
    FileKey { dir: p.dir, slot: p.slot, id: p.id }
}

/// The entry's file is renamed.
pub open spec fn renamed(p: PlannedStorage) -> bool {
    p.id != p.original_id
}

/// Whether a file is present at `key` once the renames of `planned` are done,
/// starting from the files `present`.
pub open spec fn occupied_after(present: Seq<FileKey>, planned: Seq<PlannedStorage>, key: FileKey) -> bool {
    ||| (present.contains(key) && !(exists|k: int|
        0 <= k < planned.len() && renamed(planned[k]) && #[trigger] source_of(planned[k]) == key))
    ||| (exists|k: int| 0 <= k < planned.len() && renamed(planned[k]) && #[trigger] target_of(planned[k]) == key)
}

/// Whether candidate `c` may be given to an entry of `slot` with identifier
/// `original_id` unpacked into `dir`, after the entries `before` were placed.
pub open spec fn acceptable_for(
    present: Seq<FileKey>,
    before: Seq<PlannedStorage>,
    dir: u64,
    slot: Slot,
    original_id: AppendVecId,
    c: u64,
) -> bool {
    c == original_id || !occupied_after(present, before, FileKey { dir, slot, id: c })
}

/// Whether candidate `c` may be given to entry `k` of `planned`.
pub open spec fn acceptable(present: Seq<FileKey>, planned: Seq<PlannedStorage>, k: int, c: u64) -> bool {
    acceptable_for(present, planned.subrange(0, k), planned[k].dir, planned[k].slot, planned[k].original_id, c)
}

/// The identifier assigned before entry `k`, or -1 for the first entry.
pub open spec fn previous_id(planned: Seq<PlannedStorage>, k: int) -> int {
    if k == 0 { -1 } else { planned[k - 1].id as int }
}

/// The first unpacked file named after `slot` and `id` lies in `dir`.
pub open spec fn first_unpacked(unpacked: Seq<UnpackedFile>, slot: Slot, id: AppendVecId, dir: u64) -> bool {
    exists|i: int|
        0 <= i < unpacked.len() && #[trigger] unpacked[i] == UnpackedFile { slot, id, dir } && forall|j: int|
            0 <= j < i ==> !(unpacked[j].slot == slot && unpacked[j].id == id)
}

/// `planned` is what the counter yields, candidate by candidate: each entry got
/// the first acceptable candidate after its predecessor's identifier, lies in
/// the directory it was unpacked into, and the counter stands one past the last
/// identifier assigned.
pub open spec fn assigned_first_fit(
    planned: Seq<PlannedStorage>,
    present: Seq<FileKey>,
    unpacked: Seq<UnpackedFile>,
    next_id: u64,
) -> bool {
    &&& forall|k: int| 0 <= k < planned.len() ==> previous_id(planned, k) < planned[k].id
    &&& forall|k: int| 0 <= k < planned.len() ==> #[trigger] acceptable(present, planned, k, planned[k].id)
    &&& forall|k: int, c: u64|
        0 <= k < planned.len() && previous_id(planned, k) < c < planned[k].id
            ==> !#[trigger] acceptable(present, planned, k, c)
    &&& forall|k: int| 0 <= k < planned.len() ==> first_unpacked(
        unpacked,
        #[trigger] planned[k].slot,
        planned[k].original_id,
        planned[k].dir,
    )
    &&& next_id == previous_id(planned, planned.len() as int) + 1
}

/// Entry `k` of `planned` stands for entry `k` of `flat`.
pub open spec fn follows_input(planned: Seq<PlannedStorage>, flat: Seq<(Slot, StorageEntry)>) -> bool {
    &&& planned.len() == flat.len()
    &&& forall|k: int| 0 <= k < planned.len() ==> {
        &&& #[trigger] planned[k].slot == flat[k].0
        &&& planned[k].original_id == flat[k].1.id
        &&& planned[k].current_len == flat[k].1.current_len
    }
}

/// Some entry of `flat` names a file that was not unpacked.
pub open spec fn missing_file(flat: Seq<(Slot, StorageEntry)>, unpacked: Seq<UnpackedFile>, slot: Slot, id: AppendVecId) -> bool {
    exists|k: int| 0 <= k < flat.len() && #[trigger] flat[k] == (slot, StorageEntry { id, current_len: flat[k].1.current_len })
        && !(exists|i: int| 0 <= i < unpacked.len() && unpacked[i].slot == slot && unpacked[i].id == id)
}

/// The directory `slot` and `id` were unpacked into.
pub fn find_unpacked(unpacked: &Vec<UnpackedFile>, slot: Slot, id: AppendVecId) -> (r: Option<u64>)
    ensures
        r is Some ==> first_unpacked(unpacked@, slot, id, r->Some_0),
        r is None <==> !(exists|i: int| 0 <= i < unpacked@.len() && unpacked@[i].slot == slot && unpacked@[i].id == id),
{
    let mut i: usize = 0;
    while i < unpacked.len()
        invariant
            i <= unpacked@.len(),
            forall|k: int| 0 <= k < i ==> !(unpacked@[k].slot == slot && unpacked@[k].id == id),
        decreases unpacked@.len() - i,
    {
        let u = unpacked[i];
        if u.slot == slot && u.id == id {
            assert(unpacked@[i as int] == UnpackedFile { slot, id, dir: u.dir });
            return Some(u.dir);
        }
        i = i + 1;
    }
    None
}

/// Whether a file is present at `key` once the renames of `planned` are done.
pub fn is_occupied(present: &Vec<FileKey>, planned: &Vec<PlannedStorage>, key: FileKey) -> (r: bool)
    ensures
        r == occupied_after(present@, planned@, key),
{
    let mut in_present = false;
    let mut i: usize = 0;
    while i < present.len()
        invariant
            i <= present@.len(),
            in_present == (exists|k: int| 0 <= k < i && present@[k] == key),
        decreases present@.len() - i,
    {
        if present[i] == key {
            in_present = true;
        }
        i = i + 1;
    }
    let mut moved_away = false;
    let mut moved_here = false;
    let mut j: usize = 0;
    while j < planned.len()
        invariant
            j <= planned@.len(),
            moved_away == (exists|k: int| 0 <= k < j && renamed(planned@[k]) && #[trigger] source_of(planned@[k]) == key),
            moved_here == (exists|k: int| 0 <= k < j && renamed(planned@[k]) && #[trigger] target_of(planned@[k]) == key),
        decreases planned@.len() - j,
    {
        let p = planned[j];
        if p.id != p.original_id {
            if p.dir == key.dir && p.slot == key.slot && p.original_id == key.id {
                moved_away = true;
                assert(source_of(planned@[j as int]) == key);
            }
            if p.dir == key.dir && p.slot == key.slot && p.id == key.id {
                moved_here = true;
                assert(target_of(planned@[j as int]) == key);
            }
        }
        j = j + 1;
    }
    proof {
        if in_present {
            let k = choose|k: int| 0 <= k < present@.len() && present@[k] == key;
            assert(present@.contains(key));
        }
        if present@.contains(key) {
            let k = choose|k: int| 0 <= k < present@.len() && present@[k] == key;
            assert(in_present);
        }
    }
    (in_present && !moved_away) || moved_here
}

proof fn lemma_flatten_prefix(s: Seq<(Slot, Seq<StorageEntry>)>, i: int)
    requires
        0 <= i <= s.len(),
    ensures
        flatten(s.subrange(0, i)).len() <= flatten(s).len(),
        forall|m: int| 0 <= m < flatten(s.subrange(0, i)).len() ==> flatten(s.subrange(0, i))[m] == flatten(s)[m],
    decreases s.len() - i,
{
    if i == s.len() {
        assert(s.subrange(0, i) =~= s);
    } else {
        lemma_flatten_prefix(s, i + 1);
        assert(s.subrange(0, i + 1).drop_last() =~= s.subrange(0, i));
    }
}

/// Entry `planned.len()` of `flat` comes after the entries `planned`, which the
/// counter assigned first fit and left at `next_id`, and no candidate up to
/// `MAX_APPEND_VEC_ID` is acceptable for it.
pub open spec fn stuck_at(
    planned: Seq<PlannedStorage>,
    next_id: u64,
    flat: Seq<(Slot, StorageEntry)>,
    present: Seq<FileKey>,
    unpacked: Seq<UnpackedFile>,
) -> bool {
    let k = planned.len() as int;
    &&& k < flat.len()
    &&& assigned_first_fit(planned, present, unpacked, next_id)
    &&& follows_input(planned, flat.subrange(0, k))
    &&& exists|dir: u64|
        #[trigger] first_unpacked(unpacked, flat[k].0, flat[k].1.id, dir) && forall|c: u64|
            previous_id(planned, k) < c <= MAX_APPEND_VEC_ID ==> !acceptable_for(
                present,
                planned,
                dir,
                flat[k].0,
                flat[k].1.id,
                c,
            )
}

/// Assigning identifiers to `flat` reaches an entry for which the counter
/// finds no acceptable candidate within the lower half of the identifier space.
pub open spec fn runs_out_of_ids(
    flat: Seq<(Slot, StorageEntry)>,
    present: Seq<FileKey>,
    unpacked: Seq<UnpackedFile>,
) -> bool {
    exists|planned: Seq<PlannedStorage>, next_id: u64| #[trigger] stuck_at(planned, next_id, flat, present, unpacked)
}

pub proof fn lemma_first_unpacked_unique(unpacked: Seq<UnpackedFile>, slot: Slot, id: AppendVecId, d1: u64, d2: u64)
    requires
        first_unpacked(unpacked, slot, id, d1),
        first_unpacked(unpacked, slot, id, d2),
    ensures
        d1 == d2,
{
    let i1 = choose|i: int|
        0 <= i < unpacked.len() && #[trigger] unpacked[i] == UnpackedFile { slot, id, dir: d1 } && forall|j: int|
            0 <= j < i ==> !(unpacked[j].slot == slot && unpacked[j].id == id);
    let i2 = choose|i: int|
        0 <= i < unpacked.len() && #[trigger] unpacked[i] == UnpackedFile { slot, id, dir: d2 } && forall|j: int|
            0 <= j < i ==> !(unpacked[j].slot == slot && unpacked[j].id == id);
    if i1 < i2 {
        assert(!(unpacked[i1].slot == slot && unpacked[i1].id == id));
    } else if i2 < i1 {
        assert(!(unpacked[i2].slot == slot && unpacked[i2].id == id));
    }
}

/// Two first-fit assignments of prefixes of one input agree where both reach.
pub proof fn lemma_common_prefix(
    a: Seq<PlannedStorage>,
    a_next: u64,
    b: Seq<PlannedStorage>,
    b_next: u64,
    flat: Seq<(Slot, StorageEntry)>,
    present: Seq<FileKey>,
    unpacked: Seq<UnpackedFile>,
    n: int,
)
    requires
        assigned_first_fit(a, present, unpacked, a_next),
        assigned_first_fit(b, present, unpacked, b_next),
        a.len() <= flat.len(),
        b.len() <= flat.len(),
        follows_input(a, flat.subrange(0, a.len() as int)),
        follows_input(b, flat.subrange(0, b.len() as int)),
        0 <= n <= a.len(),
        n <= b.len(),
    ensures
        a.subrange(0, n) == b.subrange(0, n),
    decreases n,
{
    if n > 0 {
        let k = n - 1;
        lemma_common_prefix(a, a_next, b, b_next, flat, present, unpacked, k);
        let f = a[k];
        let s = b[k];
        assert(f.slot == flat.subrange(0, a.len() as int)[k].0);
        assert(s.slot == flat.subrange(0, b.len() as int)[k].0);
        assert(first_unpacked(unpacked, f.slot, f.original_id, f.dir));
        assert(first_unpacked(unpacked, s.slot, s.original_id, s.dir));
        lemma_first_unpacked_unique(unpacked, f.slot, f.original_id, f.dir, s.dir);
        assert(a.subrange(0, k) == b.subrange(0, k));
        if k > 0 {
            assert(a[k - 1] == a.subrange(0, k)[k - 1]);
            assert(b[k - 1] == b.subrange(0, k)[k - 1]);
        }
        assert(previous_id(a, k) == previous_id(b, k));
        assert(acceptable(present, a, k, f.id));
        assert(acceptable(present, b, k, s.id));
        if f.id < s.id {
            assert(!acceptable(present, b, k, f.id));
        } else if s.id < f.id {
            assert(!acceptable(present, a, k, s.id));
        }
        assert(f == s);
        assert(a.subrange(0, n) =~= a.subrange(0, k).push(f));
        assert(b.subrange(0, n) =~= b.subrange(0, k).push(s));
    }
}

/// An assignment that got past entry `stuck.len()` cannot have been stuck there.
proof fn lemma_not_stuck_below(
    planned: Seq<PlannedStorage>,
    next_id: u64,
    flat: Seq<(Slot, StorageEntry)>,
    present: Seq<FileKey>,
    unpacked: Seq<UnpackedFile>,
    stuck: Seq<PlannedStorage>,
    stuck_next: u64,
)
    requires
        assigned_first_fit(planned, present, unpacked, next_id),
        planned.len() <= flat.len(),
        follows_input(planned, flat.subrange(0, planned.len() as int)),
        forall|k: int| 0 <= k < planned.len() ==> planned[k].id < next_id,
        next_id <= MAX_APPEND_VEC_ID + 1,
        stuck.len() < planned.len(),
    ensures
        !stuck_at(stuck, stuck_next, flat, present, unpacked),
{
    if stuck_at(stuck, stuck_next, flat, present, unpacked) {
        let k = stuck.len() as int;
        lemma_common_prefix(stuck, stuck_next, planned, next_id, flat, present, unpacked, k);
        assert(stuck.subrange(0, k) =~= stuck);
        let p = planned[k];
        let d = choose|d: u64|
            #[trigger] first_unpacked(unpacked, flat[k].0, flat[k].1.id, d) && forall|c: u64|
                previous_id(stuck, k) < c <= MAX_APPEND_VEC_ID ==> !acceptable_for(present, stuck, d, flat[k].0, flat[k].1.id, c);
        assert(p.slot == flat.subrange(0, planned.len() as int)[k].0);
        assert(first_unpacked(unpacked, p.slot, p.original_id, p.dir));
        lemma_first_unpacked_unique(unpacked, p.slot, p.original_id, p.dir, d);
        if k > 0 {
            assert(stuck[k - 1] == planned.subrange(0, k)[k - 1]);
        }
        assert(previous_id(stuck, k) == previous_id(planned, k));
        assert(previous_id(planned, k) < p.id);
        assert(acceptable(present, planned, k, p.id));
    }
}

/// Whether some slot of `storages` holds an entry.
pub fn has_entries(storages: &Vec<SlotStorages>) -> (r: bool)
    ensures
        r == (flatten(slots_view(storages@)).len() > 0),
{
    let ghost sv = slots_view(storages@);
    let mut i: usize = 0;
    while i < storages.len()
        invariant
            i <= storages@.len(),
            sv == slots_view(storages@),
            flatten(sv.subrange(0, i as int)).len() == 0,
        decreases storages@.len() - i,
    {
        proof {
            assert(sv.subrange(0, i + 1).drop_last() =~= sv.subrange(0, i as int));
            assert(sv[i as int] == storages@[i as int]@);
            lemma_flatten_prefix(sv, i + 1);
        }
        if storages[i].entries.len() > 0 {
            return true;
        }
        i = i + 1;
    }
    assert(sv.subrange(0, sv.len() as int) =~= sv);
    false
}

/// Assigns each storage entry of `storages`, slot after slot and in stream
/// order, the first acceptable candidate of one counter that starts at zero. A
/// candidate is acceptable when it is the entry's own identifier or no file of
/// that name is present in the entry's directory, given the files `present`
/// and the renames decided before. Fails when an entry's file was not
/// unpacked, when a candidate would pass `MAX_APPEND_VEC_ID`, and when there
/// is no entry at all.
pub fn plan_remap(
    storages: &Vec<SlotStorages>,
    unpacked: &Vec<UnpackedFile>,
    present: &Vec<FileKey>,
) -> (r: Result<RemapPlan, SnapshotError>)
    ensures
        r is Ok ==> {
            let plan = r->Ok_0;
            &&& assigned_first_fit(plan.entries@, present@, unpacked@, plan.next_id)
            &&& follows_input(plan.entries@, flatten(slots_view(storages@)))
            &&& plan.entries@.len() > 0
            &&& plan.next_id - 1 <= MAX_APPEND_VEC_ID
            &&& plan.num_collisions + plan.entries@.len() == plan.next_id
        },
        (r == Err::<RemapPlan, SnapshotError>(SnapshotError::EmptyReconstruction)) <==> flatten(
            slots_view(storages@),
        ).len() == 0,
        r matches Err(SnapshotError::MissingFile { slot, id }) ==> missing_file(
            flatten(slots_view(storages@)),
            unpacked@,
            slot,
            id,
        ),
        r matches Err(e) ==> (e is EmptyReconstruction || e is MissingFile || e is IdOverflow),
        (r == Err::<RemapPlan, SnapshotError>(SnapshotError::IdOverflow)) <==> runs_out_of_ids(
            flatten(slots_view(storages@)),
            present@,
            unpacked@,
        ),
{
    let ghost sv = slots_view(storages@);
    let mut planned: Vec<PlannedStorage> = Vec::new();
    let mut next_id: u64 = 0;
    let mut num_collisions: u64 = 0;
    let mut i: usize = 0;
    while i < storages.len()
        invariant
            i <= storages@.len(),
            sv == slots_view(storages@),
            assigned_first_fit(planned@, present@, unpacked@, next_id),
            follows_input(planned@, flatten(sv.subrange(0, i as int))),
            num_collisions + planned@.len() == next_id,
            next_id <= MAX_APPEND_VEC_ID + 1,
            follows_input(planned@, flatten(sv).subrange(0, planned@.len() as int)),
        decreases storages@.len() - i,
    {
        let slot = storages[i].slot;
        let ghost base = flatten(sv.subrange(0, i as int));
        let ghost es = storages@[i as int].entries@;
        let mut j: usize = 0;
        while j < storages[i].entries.len()
            invariant
                i < storages@.len(),
                j <= es.len(),
                sv == slots_view(storages@),
                es == storages@[i as int].entries@,
                slot == storages@[i as int].slot,
                base == flatten(sv.subrange(0, i as int)),
                assigned_first_fit(planned@, present@, unpacked@, next_id),
                follows_input(planned@, base + row(slot, es.subrange(0, j as int))),
                num_collisions + planned@.len() == next_id,
                next_id <= MAX_APPEND_VEC_ID + 1,
                follows_input(planned@, flatten(sv).subrange(0, planned@.len() as int)),
            decreases es.len() - j,
        {
            let entry = storages[i].entries[j];
            proof {
                assert(sv.subrange(0, i + 1).drop_last() =~= sv.subrange(0, i as int));
                assert(sv[i as int] == (slot, es));
                assert(row(slot, es.subrange(0, j + 1)) =~= row(slot, es.subrange(0, j as int)).push((slot, entry)));
                lemma_flatten_prefix(sv, i + 1);
                assert(sv.subrange(0, sv.len() as int) =~= sv);
                assert(flatten(sv.subrange(0, i + 1)) == base + row(slot, es));
                assert(row(slot, es)[j as int] == (slot, entry));
                assert(flatten(sv.subrange(0, i + 1))[planned@.len() as int] == (slot, entry));
                assert(flatten(sv)[planned@.len() as int] == (slot, entry));
            }
            let dir = match find_unpacked(unpacked, slot, entry.id) {
                Some(d) => d,
                None => {
                    proof {
                        let k = planned@.len() as int;
                        let flat = flatten(sv);
                        assert(flat[k] == (slot, StorageEntry { id: entry.id, current_len: flat[k].1.current_len }));
                        crate::laws::lemma_ids_increase_below_next_id(planned@, present@, unpacked@, next_id);
                        assert forall|p2: Seq<PlannedStorage>, n2: u64| !#[trigger] stuck_at(p2, n2, flat, present@, unpacked@) by {
                            if stuck_at(p2, n2, flat, present@, unpacked@) {
                                if p2.len() < k {
                                    lemma_not_stuck_below(planned@, next_id, flat, present@, unpacked@, p2, n2);
                                } else if p2.len() == k {
                                    let d = choose|d: u64| #[trigger] first_unpacked(unpacked@, flat[k].0, flat[k].1.id, d)
                                        && forall|c: u64| previous_id(p2, k) < c <= MAX_APPEND_VEC_ID ==> !acceptable_for(present@, p2, d, flat[k].0, flat[k].1.id, c);
                                    assert(first_unpacked(unpacked@, slot, entry.id, d));
                                } else {
                                    assert(p2[k].slot == flat.subrange(0, p2.len() as int)[k].0);
                                    assert(first_unpacked(unpacked@, p2[k].slot, p2[k].original_id, p2[k].dir));
                                }
                            }
                        }
                    }
                    return Err(SnapshotError::MissingFile { slot, id: entry.id });
                },
            };
            let ghost prev = previous_id(planned@, planned@.len() as int);
            let ghost start_id = next_id;
            proof {
                crate::laws::lemma_ids_increase_below_next_id(planned@, present@, unpacked@, next_id);
            }
            let mut id: u64;
            loop
                invariant_except_break
                    num_collisions + planned@.len() == next_id,
                    forall|c: u64| prev < c < next_id ==> !acceptable_for(present@, planned@, dir, slot, entry.id, c),
                invariant
                    start_id <= next_id,
                    forall|k: int| 0 <= k < planned@.len() ==> planned@[k].id < start_id,
                    assigned_first_fit(planned@, present@, unpacked@, start_id),
                    follows_input(planned@, flatten(sv).subrange(0, planned@.len() as int)),
                    flatten(sv)[planned@.len() as int] == (slot, entry),
                    first_unpacked(unpacked@, slot, entry.id, dir),
                    prev == previous_id(planned@, planned@.len() as int),
                    prev < next_id,
                    next_id <= MAX_APPEND_VEC_ID + 1,
                    planned@.len() < flatten(sv).len(),
                    sv == slots_view(storages@),
                ensures
                    prev < id,
                    next_id == id + 1,
                    num_collisions + planned@.len() + 1 == next_id,
                    acceptable_for(present@, planned@, dir, slot, entry.id, id),
                    forall|c: u64| prev < c < id ==> !acceptable_for(present@, planned@, dir, slot, entry.id, c),
                decreases MAX_APPEND_VEC_ID + 1 - next_id,
            {
                if next_id > MAX_APPEND_VEC_ID {
                    proof {
                        let flat = flatten(sv);
                        assert(first_unpacked(unpacked@, flat[planned@.len() as int].0, flat[planned@.len() as int].1.id, dir));
                        assert(stuck_at(planned@, start_id, flat, present@, unpacked@));
                    }
                    return Err(SnapshotError::IdOverflow);
                }
                let c = next_id;
                next_id = next_id + 1;
                if c == entry.id || !is_occupied(present, &planned, FileKey { dir, slot, id: c }) {
                    id = c;
                    break;
                }
                num_collisions = num_collisions + 1;
            }
            let p = PlannedStorage { slot, id, original_id: entry.id, current_len: entry.current_len, dir };
            let ghost old_planned = planned@;
            planned.push(p);
            proof {
                assert(planned@.subrange(0, old_planned.len() as int) =~= old_planned);
                assert forall|k: int| 0 <= k < old_planned.len() implies planned@.subrange(0, k) =~= old_planned.subrange(0, k) by {}
                assert forall|k: int| 0 <= k < planned@.len() implies #[trigger] acceptable(present@, planned@, k, planned@[k].id) by {
                    if k < old_planned.len() {
                        assert(planned@.subrange(0, k) =~= old_planned.subrange(0, k));
                        assert(acceptable(present@, old_planned, k, old_planned[k].id));
                    } else {
                        assert(planned@.subrange(0, k) =~= old_planned);
                    }
                }
                assert forall|k: int, c: u64|
                    0 <= k < planned@.len() && previous_id(planned@, k) < c < planned@[k].id
                    implies !#[trigger] acceptable(present@, planned@, k, c) by {
                    if k < old_planned.len() {
                        assert(planned@.subrange(0, k) =~= old_planned.subrange(0, k));
                        assert(!acceptable(present@, old_planned, k, c));
                    } else {
                        assert(planned@.subrange(0, k) =~= old_planned);
                    }
                }
                assert forall|k: int| 0 <= k < planned@.len() implies first_unpacked(
                    unpacked@,
                    #[trigger] planned@[k].slot,
                    planned@[k].original_id,
                    planned@[k].dir,
                ) by {
                    if k < old_planned.len() {
                        assert(planned@[k] == old_planned[k]);
                    }
                }
                let flat = flatten(sv);
                assert forall|k: int| 0 <= k < planned@.len() implies {
                    &&& #[trigger] planned@[k].slot == flat.subrange(0, planned@.len() as int)[k].0
                    &&& planned@[k].original_id == flat.subrange(0, planned@.len() as int)[k].1.id
                    &&& planned@[k].current_len == flat.subrange(0, planned@.len() as int)[k].1.current_len
                } by {
                    if k < old_planned.len() {
                        assert(planned@[k] == old_planned[k]);
                        assert(old_planned[k].slot == flat.subrange(0, old_planned.len() as int)[k].0);
                    }
                }
                assert forall|k: int| 0 <= k < planned@.len() implies previous_id(planned@, k) < planned@[k].id by {
                    if k > 0 {
                        assert(planned@[k - 1] == old_planned[k - 1]);
                    }
                    if k < old_planned.len() {
                        assert(planned@[k] == old_planned[k]);
                        assert(previous_id(planned@, k) == previous_id(old_planned, k));
                        assert(previous_id(old_planned, k) < old_planned[k].id);
                    } else {
                        assert(previous_id(planned@, k) == prev);
                    }
                }
                assert(next_id == previous_id(planned@, planned@.len() as int) + 1);
            }
            j = j + 1;
        }
        proof {
            assert(es.subrange(0, es.len() as int) =~= es);
            assert(sv.subrange(0, i + 1).drop_last() =~= sv.subrange(0, i as int));
            assert(sv[i as int] == (slot, es));
        }
        i = i + 1;
    }
    assert(sv.subrange(0, sv.len() as int) =~= sv);
    proof {
        let flat = flatten(sv);
        crate::laws::lemma_ids_increase_below_next_id(planned@, present@, unpacked@, next_id);
        assert forall|p2: Seq<PlannedStorage>, n2: u64| !#[trigger] stuck_at(p2, n2, flat, present@, unpacked@) by {
            if stuck_at(p2, n2, flat, present@, unpacked@) {
                assert(flat.subrange(0, planned@.len() as int) =~= flat);
                lemma_not_stuck_below(planned@, next_id, flat, present@, unpacked@, p2, n2);
            }
        }
    }
    if planned.len() == 0 {
        return Err(SnapshotError::EmptyReconstruction);
    }
    Ok(RemapPlan { entries: planned, next_id, num_collisions })
}

} // verus!
