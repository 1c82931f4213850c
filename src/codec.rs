//! The wire form of an accounts-db record: fixed-width little-endian integers,
//! each sequence preceded by its length as a `u64`, read under a byte limit.
//! Bytes after the record are left to the caller.
use vstd::prelude::*;
use vstd::bytes::{
    lemma_auto_spec_u64_to_from_le_bytes, spec_u64_from_le_bytes, spec_u64_to_le_bytes,
    u64_from_le_bytes, u64_to_le_bytes,
};
use vstd::slice::slice_subrange;
use crate::types::{
    slot_keys_unique, slots_view, AccountsDbFields, AccountsDbFieldsView, BankHashInfo, BankHashInfoView,
    BankHashStats, DecodeError, Slot, SlotStorages, StorageEntry, HASH_BYTES,
};

verus! {

/// The most bytes one record may take: 32 GiB.
pub const MAX_STREAM_SIZE: u64 = 34359738368;

/// Bytes of one encoded storage entry.
pub const ENTRY_BYTES: u64 = 16;

/// Bytes after the storages: write version, slot, two hashes and five counters.
pub const TAIL_BYTES: u64 = 120;

/// The most slots a record may declare: each takes at least 16 bytes, and the
/// count and the tail take 128 more.
pub const MAX_SLOT_COUNT: u64 = 2147483640;

pub open spec fn enc_u64(x: u64) -> Seq<u8> {
    spec_u64_to_le_bytes(x)
}

pub open spec fn enc_entry(e: StorageEntry) -> Seq<u8> {
    enc_u64(e.id) + enc_u64(e.current_len)
}

pub open spec fn enc_entries(es: Seq<StorageEntry>) -> Seq<u8>
    decreases es.len(),
{
    if es.len() == 0 {
        Seq::empty()
    } else {
        enc_entry(es[0]) + enc_entries(es.drop_first())
    }
}

pub open spec fn enc_slot(s: (Slot, Seq<StorageEntry>)) -> Seq<u8> {
    enc_u64(s.0) + enc_u64(s.1.len() as u64) + enc_entries(s.1)
}

pub open spec fn enc_slots(ss: Seq<(Slot, Seq<StorageEntry>)>) -> Seq<u8>
    decreases ss.len(),
{
    if ss.len() == 0 {
        Seq::empty()
    } else {
        enc_slot(ss[0]) + enc_slots(ss.drop_first())
    }
}

pub open spec fn enc_stats(st: BankHashStats) -> Seq<u8> {
    enc_u64(st.num_updated_accounts) + enc_u64(st.num_removed_accounts) + enc_u64(
        st.num_lamports_stored,
    ) + enc_u64(st.total_data_len) + enc_u64(st.num_executable_accounts)
}

/// What follows the storages: write version, snapshot slot and bank hash summary.
pub open spec fn enc_tail_of(write_version: u64, snapshot_slot: Slot, b: BankHashInfoView) -> Seq<u8> {
    enc_u64(write_version) + enc_u64(snapshot_slot) + b.hash + b.snapshot_hash + enc_stats(b.stats)
}

/// What follows the storages of `v`.
pub open spec fn enc_tail(v: AccountsDbFieldsView) -> Seq<u8> {
    enc_tail_of(v.write_version, v.snapshot_slot, v.bank_hash_info)
}

/// The encoding of a record.
pub open spec fn encode_fields(v: AccountsDbFieldsView) -> Seq<u8> {
    enc_u64(v.storages.len() as u64) + enc_slots(v.storages) + enc_tail(v)
}

/// Every length of `v` fits the wire's `u64` and both hashes have their width.
pub open spec fn encodable(v: AccountsDbFieldsView) -> bool {
    &&& v.bank_hash_info.wf()
    &&& v.storages.len() <= u64::MAX
    &&& forall|i: int| 0 <= i < v.storages.len() ==> #[trigger] v.storages[i].1.len() <= u64::MAX
}

/// `bytes` holds `s` from position `pos` on.
pub open spec fn holds_at(bytes: Seq<u8>, pos: int, s: Seq<u8>) -> bool {
    0 <= pos && pos + s.len() <= bytes.len() && bytes.subrange(pos, pos + s.len()) == s
}

/// `bytes` holds the encoding of `v` from `start` on, within the limit.
pub open spec fn encodes_at(bytes: Seq<u8>, start: int, v: AccountsDbFieldsView) -> bool {
    &&& encodable(v)
    &&& holds_at(bytes, start, encode_fields(v))
    &&& encode_fields(v).len() <= MAX_STREAM_SIZE
}

proof fn lemma_holds_split(bytes: Seq<u8>, pos: int, a: Seq<u8>, b: Seq<u8>)
    requires
        holds_at(bytes, pos, a + b),
    ensures
        holds_at(bytes, pos, a),
        holds_at(bytes, pos + a.len(), b),
{
    let whole = bytes.subrange(pos, pos + a.len() + b.len());
    assert(whole == a + b);
    assert(bytes.subrange(pos, pos + a.len()) =~= whole.subrange(0, a.len() as int));
    assert((a + b).subrange(0, a.len() as int) =~= a);
    assert((a + b).subrange(a.len() as int, (a + b).len() as int) =~= b);
    assert(bytes.subrange(pos + a.len(), pos + a.len() + b.len()) =~= whole.subrange(
        a.len() as int,
        whole.len() as int,
    ));
    assert(bytes.subrange(pos + a.len(), pos + a.len() + b.len()) =~= (a + b).subrange(
        a.len() as int,
        (a + b).len() as int,
    ));
}

proof fn lemma_holds_join(bytes: Seq<u8>, pos: int, a: Seq<u8>, b: Seq<u8>)
    requires
        holds_at(bytes, pos, a),
        holds_at(bytes, pos + a.len(), b),
    ensures
        holds_at(bytes, pos, a + b),
{
    assert(bytes.subrange(pos, pos + a.len() + b.len()) =~= a + b);
}

proof fn lemma_enc_u64_len(x: u64)
    ensures
        enc_u64(x).len() == 8,
{
    lemma_auto_spec_u64_to_from_le_bytes();
}

proof fn lemma_entries_len(es: Seq<StorageEntry>)
    ensures
        enc_entries(es).len() == 16 * es.len(),
    decreases es.len(),
{
    if es.len() > 0 {
        lemma_enc_u64_len(es[0].id);
        lemma_enc_u64_len(es[0].current_len);
        lemma_entries_len(es.drop_first());
    }
}

proof fn lemma_slots_len(ss: Seq<(Slot, Seq<StorageEntry>)>)
    ensures
        enc_slots(ss).len() >= 16 * ss.len(),
    decreases ss.len(),
{
    if ss.len() > 0 {
        lemma_enc_u64_len(ss[0].0);
        lemma_enc_u64_len(ss[0].1.len() as u64);
        lemma_slots_len(ss.drop_first());
    }
}

proof fn lemma_entries_push(es: Seq<StorageEntry>, e: StorageEntry)
    ensures
        enc_entries(es.push(e)) == enc_entries(es) + enc_entry(e),
    decreases es.len(),
{
    if es.len() == 0 {
        assert(es.push(e).drop_first() =~= es);
        assert(enc_entries(es.push(e)) =~= enc_entries(es) + enc_entry(e));
    } else {
        lemma_entries_push(es.drop_first(), e);
        assert(es.push(e).drop_first() =~= es.drop_first().push(e));
        assert(enc_entries(es.push(e)) =~= enc_entries(es) + enc_entry(e));
    }
}

proof fn lemma_slots_push(ss: Seq<(Slot, Seq<StorageEntry>)>, s: (Slot, Seq<StorageEntry>))
    ensures
        enc_slots(ss.push(s)) == enc_slots(ss) + enc_slot(s),
    decreases ss.len(),
{
    if ss.len() == 0 {
        assert(ss.push(s).drop_first() =~= ss);
        assert(enc_slots(ss.push(s)) =~= enc_slots(ss) + enc_slot(s));
    } else {
        lemma_slots_push(ss.drop_first(), s);
        assert(ss.push(s).drop_first() =~= ss.drop_first().push(s));
        assert(enc_slots(ss.push(s)) =~= enc_slots(ss) + enc_slot(s));
    }
}

/// The `u64` stored little-endian at `pos`.
fn read_u64(bytes: &Vec<u8>, pos: usize) -> (r: u64)
    requires
        pos + 8 <= bytes@.len(),
    ensures
        holds_at(bytes@, pos as int, enc_u64(r)),
        forall|x: u64| holds_at(bytes@, pos as int, enc_u64(x)) ==> x == r,
{
    // the length of a Vec bounds the addition below
    let _len = bytes.len();
    let s = slice_subrange(bytes.as_slice(), pos, pos + 8);
    let r = u64_from_le_bytes(s);
    proof {
        lemma_auto_spec_u64_to_from_le_bytes();
        assert(s@ == bytes@.subrange(pos as int, pos + 8));
        assert(enc_u64(r) == s@);
    }
    r
}

/// The `n` bytes at `pos`.
fn read_bytes(bytes: &Vec<u8>, pos: usize, n: usize) -> (r: Vec<u8>)
    requires
        pos + n <= bytes@.len(),
    ensures
        r@ == bytes@.subrange(pos as int, pos + n),
{
    // the length of a Vec bounds the additions below
    let _len = bytes.len();
    let mut r: Vec<u8> = Vec::new();
    let mut i: usize = 0;
    while i < n
        invariant
            i <= n,
            _len == bytes@.len(),
            pos + n <= bytes@.len(),
            r@ == bytes@.subrange(pos as int, pos + i),
        decreases n - i,
    {
        r.push(bytes[pos + i]);
        i = i + 1;
        assert(r@ =~= bytes@.subrange(pos as int, pos + i));
    }
    r
}

/// Whether `k` more bytes may be read at `pos` of a record that began at
/// `start`: first the limit, then the bytes at hand.
fn need(len: usize, start: usize, pos: usize, k: u64) -> (r: Result<(), DecodeError>)
    requires
        start <= pos <= len,
        pos - start <= MAX_STREAM_SIZE,
    ensures
        r is Ok <==> (pos - start + k <= MAX_STREAM_SIZE && pos + k <= len),
        r == Err::<(), DecodeError>(DecodeError::SizeLimit) <==> pos - start + k > MAX_STREAM_SIZE,
        r is Err ==> (r == Err::<(), DecodeError>(DecodeError::SizeLimit) || r == Err::<(), DecodeError>(DecodeError::UnexpectedEof)),
{
    let used = (pos - start) as u64;
    if k > MAX_STREAM_SIZE - used {
        return Err(DecodeError::SizeLimit);
    }
    if k > (len - pos) as u64 {
        return Err(DecodeError::UnexpectedEof);
    }
    Ok(())
}

proof fn lemma_read_entry(bytes: Seq<u8>, pos: int, es: Seq<StorageEntry>, tail: Seq<u8>)
    requires
        holds_at(bytes, pos, enc_entries(es) + tail),
        es.len() > 0,
    ensures
        holds_at(bytes, pos, enc_u64(es[0].id)),
        holds_at(bytes, pos + 8, enc_u64(es[0].current_len)),
        holds_at(bytes, pos + 16, enc_entries(es.drop_first()) + tail),
        (enc_entries(es) + tail).len() == 16 + (enc_entries(es.drop_first()) + tail).len(),
{
    let e = es[0];
    lemma_enc_u64_len(e.id);
    lemma_enc_u64_len(e.current_len);
    let rest = enc_entries(es.drop_first()) + tail;
    assert(enc_entries(es) + tail =~= enc_u64(e.id) + (enc_u64(e.current_len) + rest));
    lemma_holds_split(bytes, pos, enc_u64(e.id), enc_u64(e.current_len) + rest);
    lemma_holds_split(bytes, pos + 8, enc_u64(e.current_len), rest);
}

proof fn lemma_tail_parts(v: AccountsDbFieldsView)
    requires
        v.bank_hash_info.wf(),
    ensures
        enc_tail(v).len() == TAIL_BYTES,
        enc_tail(v).subrange(0, 8) == enc_u64(v.write_version),
        enc_tail(v).subrange(8, 16) == enc_u64(v.snapshot_slot),
        enc_tail(v).subrange(16, 48) == v.bank_hash_info.hash,
        enc_tail(v).subrange(48, 80) == v.bank_hash_info.snapshot_hash,
        enc_tail(v).subrange(80, 88) == enc_u64(v.bank_hash_info.stats.num_updated_accounts),
        enc_tail(v).subrange(88, 96) == enc_u64(v.bank_hash_info.stats.num_removed_accounts),
        enc_tail(v).subrange(96, 104) == enc_u64(v.bank_hash_info.stats.num_lamports_stored),
        enc_tail(v).subrange(104, 112) == enc_u64(v.bank_hash_info.stats.total_data_len),
        enc_tail(v).subrange(112, 120) == enc_u64(v.bank_hash_info.stats.num_executable_accounts),
{
    let b = v.bank_hash_info;
    lemma_enc_u64_len(v.write_version);
    lemma_enc_u64_len(v.snapshot_slot);
    lemma_enc_u64_len(b.stats.num_updated_accounts);
    lemma_enc_u64_len(b.stats.num_removed_accounts);
    lemma_enc_u64_len(b.stats.num_lamports_stored);
    lemma_enc_u64_len(b.stats.total_data_len);
    lemma_enc_u64_len(b.stats.num_executable_accounts);
    let t = enc_tail(v);
    assert(t.subrange(0, 8) =~= enc_u64(v.write_version));
    assert(t.subrange(8, 16) =~= enc_u64(v.snapshot_slot));
    assert(t.subrange(16, 48) =~= b.hash);
    assert(t.subrange(48, 80) =~= b.snapshot_hash);
    assert(t.subrange(80, 88) =~= enc_u64(b.stats.num_updated_accounts));
    assert(t.subrange(88, 96) =~= enc_u64(b.stats.num_removed_accounts));
    assert(t.subrange(96, 104) =~= enc_u64(b.stats.num_lamports_stored));
    assert(t.subrange(104, 112) =~= enc_u64(b.stats.total_data_len));
    assert(t.subrange(112, 120) =~= enc_u64(b.stats.num_executable_accounts));
}

proof fn lemma_tail_len(v: AccountsDbFieldsView)
    requires
        v.bank_hash_info.wf(),
    ensures
        enc_tail(v).len() == TAIL_BYTES,
{
    lemma_tail_parts(v);
}

proof fn lemma_enc_u64_injective(a: u64, b: u64)
    requires
        enc_u64(a) == enc_u64(b),
    ensures
        a == b,
{
    lemma_auto_spec_u64_to_from_le_bytes();
    assert(spec_u64_from_le_bytes(spec_u64_to_le_bytes(a)) == a);
    assert(spec_u64_from_le_bytes(spec_u64_to_le_bytes(b)) == b);
}

/// Two records whose tails stand at one place agree on everything the tail holds.
proof fn lemma_tail_read(bytes: Seq<u8>, pos: int, v: AccountsDbFieldsView, f: AccountsDbFieldsView)
    requires
        v.bank_hash_info.wf(),
        f.bank_hash_info.wf(),
        holds_at(bytes, pos, enc_tail(v)),
        holds_at(bytes, pos, enc_tail(f)),
    ensures
        v.write_version == f.write_version,
        v.snapshot_slot == f.snapshot_slot,
        v.bank_hash_info == f.bank_hash_info,
{
    lemma_tail_parts(v);
    lemma_tail_parts(f);
    let t = enc_tail(v);
    assert(t == enc_tail(f));
    lemma_enc_u64_injective(v.write_version, f.write_version);
    lemma_enc_u64_injective(v.snapshot_slot, f.snapshot_slot);
    lemma_enc_u64_injective(v.bank_hash_info.stats.num_updated_accounts, f.bank_hash_info.stats.num_updated_accounts);
    lemma_enc_u64_injective(v.bank_hash_info.stats.num_removed_accounts, f.bank_hash_info.stats.num_removed_accounts);
    lemma_enc_u64_injective(v.bank_hash_info.stats.num_lamports_stored, f.bank_hash_info.stats.num_lamports_stored);
    lemma_enc_u64_injective(v.bank_hash_info.stats.total_data_len, f.bank_hash_info.stats.total_data_len);
    lemma_enc_u64_injective(v.bank_hash_info.stats.num_executable_accounts, f.bank_hash_info.stats.num_executable_accounts);
}

proof fn lemma_tail_holds(bytes: Seq<u8>, pos: int, f: AccountsDbFieldsView)
    requires
        f.bank_hash_info.wf(),
        holds_at(bytes, pos, enc_u64(f.write_version)),
        holds_at(bytes, pos + 8, enc_u64(f.snapshot_slot)),
        holds_at(bytes, pos + 16, f.bank_hash_info.hash),
        holds_at(bytes, pos + 48, f.bank_hash_info.snapshot_hash),
        holds_at(bytes, pos + 80, enc_u64(f.bank_hash_info.stats.num_updated_accounts)),
        holds_at(bytes, pos + 88, enc_u64(f.bank_hash_info.stats.num_removed_accounts)),
        holds_at(bytes, pos + 96, enc_u64(f.bank_hash_info.stats.num_lamports_stored)),
        holds_at(bytes, pos + 104, enc_u64(f.bank_hash_info.stats.total_data_len)),
        holds_at(bytes, pos + 112, enc_u64(f.bank_hash_info.stats.num_executable_accounts)),
    ensures
        holds_at(bytes, pos, enc_tail(f)),
{
    lemma_tail_parts(f);
    let t = enc_tail(f);
    assert forall|i: int| 0 <= i < 120 implies bytes[pos + i] == t[i] by {
        if i < 8 {
            assert(bytes.subrange(pos, pos + 8)[i] == t.subrange(0, 8)[i]);
        } else if i < 16 {
            assert(bytes.subrange(pos + 8, pos + 16)[i - 8] == t.subrange(8, 16)[i - 8]);
        } else if i < 48 {
            assert(bytes.subrange(pos + 16, pos + 48)[i - 16] == t.subrange(16, 48)[i - 16]);
        } else if i < 80 {
            assert(bytes.subrange(pos + 48, pos + 80)[i - 48] == t.subrange(48, 80)[i - 48]);
        } else if i < 88 {
            assert(bytes.subrange(pos + 80, pos + 88)[i - 80] == t.subrange(80, 88)[i - 80]);
        } else if i < 96 {
            assert(bytes.subrange(pos + 88, pos + 96)[i - 88] == t.subrange(88, 96)[i - 88]);
        } else if i < 104 {
            assert(bytes.subrange(pos + 96, pos + 104)[i - 96] == t.subrange(96, 104)[i - 96]);
        } else if i < 112 {
            assert(bytes.subrange(pos + 104, pos + 112)[i - 104] == t.subrange(104, 112)[i - 104]);
        } else {
            assert(bytes.subrange(pos + 112, pos + 120)[i - 112] == t.subrange(112, 120)[i - 112]);
        }
    }
    assert(bytes.subrange(pos, pos + 120) =~= t);
}

proof fn lemma_slots_head(bytes: Seq<u8>, pos: int, ss: Seq<(Slot, Seq<StorageEntry>)>, tail: Seq<u8>)
    requires
        holds_at(bytes, pos, enc_slots(ss) + tail),
        ss.len() > 0,
    ensures
        holds_at(bytes, pos, enc_slot(ss[0])),
        holds_at(bytes, pos + enc_slot(ss[0]).len(), enc_slots(ss.drop_first()) + tail),
        (enc_slots(ss) + tail).len() == enc_slot(ss[0]).len() + (enc_slots(ss.drop_first()) + tail).len(),
{
    assert(enc_slots(ss) + tail =~= enc_slot(ss[0]) + (enc_slots(ss.drop_first()) + tail));
    lemma_holds_split(bytes, pos, enc_slot(ss[0]), enc_slots(ss.drop_first()) + tail);
}

/// No slot of `ss` holds more entries than a `u64` counts.
pub open spec fn lens_fit(ss: Seq<(Slot, Seq<StorageEntry>)>) -> bool {
    forall|i: int| 0 <= i < ss.len() ==> #[trigger] ss[i].1.len() <= u64::MAX
}

/// The record at `start` holds the slots `ss` after its slot count, declares
/// more slots than that, and the next slot's header declares more entries than
/// the limit leaves room for.
pub open spec fn entry_count_past_limit(bytes: Seq<u8>, start: int, ss: Seq<(Slot, Seq<StorageEntry>)>) -> bool {
    let pos = start + 8 + enc_slots(ss).len();
    &&& 0 <= start
    &&& start + 8 <= bytes.len()
    &&& ss.len() < spec_u64_from_le_bytes(bytes.subrange(start, start + 8))
    &&& holds_at(bytes, start + 8, enc_slots(ss))
    &&& lens_fit(ss)
    &&& pos + 16 <= bytes.len()
    &&& pos + 16 - start <= MAX_STREAM_SIZE
    &&& spec_u64_from_le_bytes(bytes.subrange(pos + 8, pos + 16)) > (MAX_STREAM_SIZE - (pos + 16 - start)) / 16
}

proof fn lemma_slots_append(a: Seq<(Slot, Seq<StorageEntry>)>, b: Seq<(Slot, Seq<StorageEntry>)>)
    ensures
        enc_slots(a + b) == enc_slots(a) + enc_slots(b),
    decreases a.len(),
{
    if a.len() == 0 {
        assert(a + b =~= b);
        assert(enc_slots(a) + enc_slots(b) =~= enc_slots(b));
    } else {
        lemma_slots_append(a.drop_first(), b);
        assert((a + b).drop_first() =~= a.drop_first() + b);
        assert(enc_slots(a + b) =~= enc_slots(a) + enc_slots(b));
    }
}

/// Where slot `k` of `ss` stands when `ss` is encoded at `base`.
proof fn lemma_slot_at(bytes: Seq<u8>, base: int, ss: Seq<(Slot, Seq<StorageEntry>)>, k: int)
    requires
        holds_at(bytes, base, enc_slots(ss)),
        0 <= k < ss.len(),
    ensures
        holds_at(bytes, base + enc_slots(ss.subrange(0, k)).len(), enc_slot(ss[k])),
        enc_slots(ss.subrange(0, k)).len() + enc_slot(ss[k]).len() <= enc_slots(ss).len(),
{
    let a = ss.subrange(0, k);
    let rest = ss.subrange(k, ss.len() as int);
    assert(ss =~= a + rest);
    lemma_slots_append(a, rest);
    assert(rest.drop_first() =~= ss.subrange(k + 1, ss.len() as int));
    assert(rest[0] == ss[k]);
    assert(enc_slots(rest) == enc_slot(ss[k]) + enc_slots(rest.drop_first()));
    assert(enc_slots(ss) =~= enc_slots(a) + (enc_slot(ss[k]) + enc_slots(rest.drop_first())));
    lemma_holds_split(bytes, base, enc_slots(a), enc_slot(ss[k]) + enc_slots(rest.drop_first()));
    lemma_holds_split(bytes, base + enc_slots(a).len(), enc_slot(ss[k]), enc_slots(rest.drop_first()));
}

/// Reads the storages of one slot that begin at `at` of a record that began at
/// `start`.
fn read_slot(bytes: &Vec<u8>, start: usize, at: usize) -> (r: Result<(SlotStorages, usize), DecodeError>)
    requires
        start <= at <= bytes@.len(),
        at - start <= MAX_STREAM_SIZE,
    ensures
        r is Ok ==> {
            &&& holds_at(bytes@, at as int, enc_slot(r->Ok_0.0@))
            &&& r->Ok_0.1 == at + enc_slot(r->Ok_0.0@).len()
            &&& r->Ok_0.1 - start <= MAX_STREAM_SIZE
            &&& r->Ok_0.0@.1.len() <= u64::MAX
        },
        forall|s: (Slot, Seq<StorageEntry>)|
            #[trigger] holds_at(bytes@, at as int, enc_slot(s)) && s.1.len() <= u64::MAX && at - start
                + enc_slot(s).len() <= MAX_STREAM_SIZE ==> r is Ok && r->Ok_0.0@ == s,
        at + 16 <= bytes@.len() && at + 16 - start <= MAX_STREAM_SIZE && spec_u64_from_le_bytes(
            bytes@.subrange(at + 8, at + 16),
        ) > (MAX_STREAM_SIZE - (at + 16 - start)) / 16 ==> r == Err::<(SlotStorages, usize), DecodeError>(
            DecodeError::SizeLimit,
        ),
{
    let len = bytes.len();
    match need(len, start, at, 16) {
        Ok(()) => {},
        Err(e) => {
            proof {
                assert forall|s: (Slot, Seq<StorageEntry>)| !(#[trigger] holds_at(bytes@, at as int, enc_slot(s))
                    && at - start + enc_slot(s).len() <= MAX_STREAM_SIZE) by {
                    lemma_enc_u64_len(s.0);
                    lemma_enc_u64_len(s.1.len() as u64);
                }
            }
            return Err(e);
        },
    }
    let slot = read_u64(bytes, at);
    let m = read_u64(bytes, at + 8);
    let mut pos: usize = at + 16;
    proof {
        lemma_auto_spec_u64_to_from_le_bytes();
        lemma_enc_u64_len(m);
        assert(spec_u64_from_le_bytes(bytes@.subrange(at + 8, at + 16)) == m);
    }
    proof {
        assert forall|s: (Slot, Seq<StorageEntry>)| #[trigger] holds_at(bytes@, at as int, enc_slot(s)) && s.1.len() <= u64::MAX implies {
            &&& slot == s.0
            &&& m == s.1.len()
            &&& holds_at(bytes@, pos as int, enc_entries(s.1))
            &&& enc_slot(s).len() == 16 + enc_entries(s.1).len()
        } by {
            let rest = enc_entries(s.1);
            lemma_enc_u64_len(s.0);
            lemma_enc_u64_len(s.1.len() as u64);
            assert(enc_slot(s) =~= enc_u64(s.0) + (enc_u64(s.1.len() as u64) + rest));
            lemma_holds_split(bytes@, at as int, enc_u64(s.0), enc_u64(s.1.len() as u64) + rest);
            lemma_holds_split(bytes@, at + 8, enc_u64(s.1.len() as u64), rest);
        }
    }
    if m > (MAX_STREAM_SIZE - (pos - start) as u64) / ENTRY_BYTES {
        proof {
            assert forall|s: (Slot, Seq<StorageEntry>)| !(#[trigger] holds_at(bytes@, at as int, enc_slot(s))
                && s.1.len() <= u64::MAX && at - start + enc_slot(s).len() <= MAX_STREAM_SIZE) by {
                lemma_entries_len(s.1);
            }
        }
        return Err(DecodeError::SizeLimit);
    }
    match need(len, start, pos, 16 * m) {
        Ok(()) => {},
        Err(e) => {
            proof {
                assert forall|s: (Slot, Seq<StorageEntry>)| !(#[trigger] holds_at(bytes@, at as int, enc_slot(s))
                    && s.1.len() <= u64::MAX && at - start + enc_slot(s).len() <= MAX_STREAM_SIZE) by {
                    lemma_entries_len(s.1);
                }
            }
            return Err(e);
        },
    }
    let mut entries: Vec<StorageEntry> = Vec::new();
    let mut j: u64 = 0;
    proof {
        lemma_enc_u64_len(slot);
        lemma_enc_u64_len(m);
        lemma_holds_join(bytes@, at as int, enc_u64(slot), enc_u64(m));
        assert(enc_u64(slot) + enc_u64(m) + enc_entries(entries@) =~= enc_u64(slot) + enc_u64(m));
        assert forall|s: (Slot, Seq<StorageEntry>)| #[trigger] holds_at(bytes@, at as int, enc_slot(s)) && s.1.len() <= u64::MAX implies
            entries@ == s.1.subrange(0, 0) && s.1.subrange(0, m as int) == s.1 by {
            assert(entries@ =~= s.1.subrange(0, 0));
            assert(s.1.subrange(0, m as int) =~= s.1);
        }
    }
    while j < m
        invariant
            len == bytes@.len(),
            start <= at,
            at - start <= MAX_STREAM_SIZE,
            pos == at + 16 + 16 * j,
            pos - start + 16 * (m - j) <= MAX_STREAM_SIZE,
            pos + 16 * (m - j) <= len,
            j <= m,
            entries@.len() == j,
            holds_at(bytes@, at as int, enc_u64(slot) + enc_u64(m) + enc_entries(entries@)),
            forall|s: (Slot, Seq<StorageEntry>)| #[trigger] holds_at(bytes@, at as int, enc_slot(s)) && s.1.len() <= u64::MAX ==> {
                &&& slot == s.0
                &&& m == s.1.len()
                &&& entries@ == s.1.subrange(0, j as int)
                &&& holds_at(bytes@, pos as int, enc_entries(s.1.subrange(j as int, m as int)))
            },
        decreases m - j,
    {
        let entry_start = pos;
        let id = read_u64(bytes, pos);
        let current_len = read_u64(bytes, pos + 8);
        let e = StorageEntry { id, current_len };
        let ghost before = entries@;
        entries.push(e);
        pos = pos + 16;
        j = j + 1;
        proof {
            lemma_entries_push(before, e);
            lemma_enc_u64_len(id);
            lemma_enc_u64_len(current_len);
            lemma_holds_join(bytes@, entry_start as int, enc_u64(id), enc_u64(current_len));
            lemma_enc_u64_len(slot);
            lemma_enc_u64_len(m);
            lemma_entries_len(before);
            assert(enc_u64(slot) + enc_u64(m) + enc_entries(entries@) =~= (enc_u64(slot) + enc_u64(m) + enc_entries(before)) + enc_entry(e));
            lemma_holds_join(bytes@, at as int, enc_u64(slot) + enc_u64(m) + enc_entries(before), enc_entry(e));
            assert forall|s: (Slot, Seq<StorageEntry>)| #[trigger] holds_at(bytes@, at as int, enc_slot(s)) && s.1.len() <= u64::MAX implies {
                &&& entries@ == s.1.subrange(0, j as int)
                &&& holds_at(bytes@, pos as int, enc_entries(s.1.subrange(j as int, m as int)))
            } by {
                let es = s.1.subrange(j - 1, m as int);
                assert(enc_entries(es) + Seq::<u8>::empty() =~= enc_entries(es));
                lemma_read_entry(bytes@, entry_start as int, es, Seq::<u8>::empty());
                assert(es.drop_first() =~= s.1.subrange(j as int, m as int));
                assert(enc_entries(es.drop_first()) + Seq::<u8>::empty() =~= enc_entries(es.drop_first()));
                assert(entries@ =~= s.1.subrange(0, j as int));
            }
        }
    }
    let r = SlotStorages { slot, entries };
    proof {
        lemma_entries_len(entries@);
        lemma_enc_u64_len(slot);
        lemma_enc_u64_len(m);
        assert(enc_slot(r@) =~= enc_u64(slot) + enc_u64(m) + enc_entries(entries@));
        assert forall|s: (Slot, Seq<StorageEntry>)| #[trigger] holds_at(bytes@, at as int, enc_slot(s)) && s.1.len() <= u64::MAX implies r@ == s by {
            assert(entries@ =~= s.1);
        }
    }
    Ok((r, pos))
}

/// The record at `start` decodes to `v`: it encodes `v`, whose slots are distinct.
pub open spec fn decodes_to(bytes: Seq<u8>, start: int, v: AccountsDbFieldsView) -> bool {
    encodes_at(bytes, start, v) && slot_keys_unique(v.storages)
}

/// Whether no slot occurs twice in `storages`.
pub fn slot_keys_distinct(storages: &Vec<SlotStorages>) -> (r: bool)
    ensures
        r == slot_keys_unique(slots_view(storages@)),
{
    let ghost sv = slots_view(storages@);
    let mut i: usize = 0;
    while i < storages.len()
        invariant
            i <= storages@.len(),
            sv == slots_view(storages@),
            forall|a: int, b: int| 0 <= a < b < i ==> sv[a].0 != sv[b].0,
        decreases storages@.len() - i,
    {
        let mut j: usize = 0;
        while j < i
            invariant
                j <= i < storages@.len(),
                sv == slots_view(storages@),
                forall|a: int| 0 <= a < j ==> sv[a].0 != sv[i as int].0,
            decreases i - j,
        {
            if storages[j].slot == storages[i].slot {
                assert(sv[j as int].0 == sv[i as int].0);
                return false;
            }
            j = j + 1;
        }
        i = i + 1;
    }
    true
}

/// Reads the write version, snapshot slot and bank hash summary that begin at
/// `at` of a record that began at `start`.
fn read_tail(bytes: &Vec<u8>, start: usize, at: usize) -> (r: Result<(u64, Slot, BankHashInfo), DecodeError>)
    requires
        start <= at <= bytes@.len(),
        at - start <= MAX_STREAM_SIZE,
    ensures
        r is Ok ==> {
            let (w, s, b) = r->Ok_0;
            &&& b@.wf()
            &&& holds_at(bytes@, at as int, enc_tail_of(w, s, b@))
            &&& at + TAIL_BYTES - start <= MAX_STREAM_SIZE
        },
        forall|v: AccountsDbFieldsView|
            v.bank_hash_info.wf() && #[trigger] holds_at(bytes@, at as int, enc_tail(v)) && at - start + TAIL_BYTES
                <= MAX_STREAM_SIZE ==> r is Ok && r->Ok_0.0 == v.write_version && r->Ok_0.1 == v.snapshot_slot
                && r->Ok_0.2@ == v.bank_hash_info,
{
    let len = bytes.len();
    match need(len, start, at, TAIL_BYTES) {
        Ok(()) => {},
        Err(e) => {
            proof {
                assert forall|v: AccountsDbFieldsView| !(v.bank_hash_info.wf() && #[trigger] holds_at(bytes@, at as int, enc_tail(v))
                    && at - start + TAIL_BYTES <= MAX_STREAM_SIZE) by {
                    if v.bank_hash_info.wf() {
                        lemma_tail_len(v);
                    }
                }
            }
            return Err(e);
        },
    }
    let write_version = read_u64(bytes, at);
    let snapshot_slot = read_u64(bytes, at + 8);
    let hash = read_bytes(bytes, at + 16, HASH_BYTES);
    let snapshot_hash = read_bytes(bytes, at + 48, HASH_BYTES);
    let s0 = read_u64(bytes, at + 80);
    let s1 = read_u64(bytes, at + 88);
    let s2 = read_u64(bytes, at + 96);
    let s3 = read_u64(bytes, at + 104);
    let s4 = read_u64(bytes, at + 112);
    let stats = BankHashStats {
        num_updated_accounts: s0,
        num_removed_accounts: s1,
        num_lamports_stored: s2,
        total_data_len: s3,
        num_executable_accounts: s4,
    };
    let b = BankHashInfo { hash, snapshot_hash, stats };
    proof {
        let f = AccountsDbFieldsView {
            storages: Seq::empty(),
            write_version,
            snapshot_slot,
            bank_hash_info: b@,
        };
        lemma_tail_holds(bytes@, at as int, f);
        assert forall|v: AccountsDbFieldsView|
            v.bank_hash_info.wf() && #[trigger] holds_at(bytes@, at as int, enc_tail(v)) implies
                write_version == v.write_version && snapshot_slot == v.snapshot_slot && b@ == v.bank_hash_info by {
            lemma_tail_read(bytes@, at as int, v, f);
        }
    }
    Ok((write_version, snapshot_slot, b))
}

/// Decodes the record that begins at `start` of `bytes`, returning it and the
/// position just after it. The record is all of: the number of slots; for each
/// slot its number, the number of its entries and each entry's identifier and
/// length; the write version; the snapshot slot; the bank hash and the snapshot
/// hash, 32 bytes each; five statistics counters. A read that would take the
/// record past `MAX_STREAM_SIZE` bytes fails with `SizeLimit`, as does a
/// declared count whose entries could not fit within it; a read past the end
/// of `bytes` fails with `UnexpectedEof`.
pub fn deserialize_accounts_db_fields(bytes: &Vec<u8>, start: usize) -> (r: Result<
    (AccountsDbFields, usize),
    DecodeError,
>)
    requires
        start <= bytes@.len(),
    ensures
        r is Ok ==> {
            &&& decodes_to(bytes@, start as int, r->Ok_0.0@)
            &&& r->Ok_0.1 == start + encode_fields(r->Ok_0.0@).len()
        },
        forall|v: AccountsDbFieldsView| #[trigger]
            decodes_to(bytes@, start as int, v) ==> r is Ok && r->Ok_0.0@ == v,
        forall|v: AccountsDbFieldsView|
            #[trigger] encodes_at(bytes@, start as int, v) && !slot_keys_unique(v.storages) ==> r == Err::<
                (AccountsDbFields, usize),
                DecodeError,
            >(DecodeError::DuplicateSlot),
        start + 8 <= bytes@.len() && spec_u64_from_le_bytes(bytes@.subrange(start as int, start + 8))
            > MAX_SLOT_COUNT ==> r == Err::<
            (AccountsDbFields, usize),
            DecodeError,
        >(DecodeError::SizeLimit),
        forall|ss: Seq<(Slot, Seq<StorageEntry>)>|
            #[trigger] entry_count_past_limit(bytes@, start as int, ss) ==> r == Err::<
                (AccountsDbFields, usize),
                DecodeError,
            >(DecodeError::SizeLimit),
{
    let len = bytes.len();
    match need(len, start, start, 8) {
        Ok(()) => {},
        Err(e) => {
            proof {
                assert forall|v: AccountsDbFieldsView| !#[trigger] encodes_at(bytes@, start as int, v) by {
                    if encodes_at(bytes@, start as int, v) {
                        lemma_enc_u64_len(v.storages.len() as u64);
                    }
                }
                assert forall|ss: Seq<(Slot, Seq<StorageEntry>)>| !#[trigger] entry_count_past_limit(bytes@, start as int, ss) by {}
            }
            return Err(e);
        },
    }
    let n = read_u64(bytes, start);
    proof {
        lemma_auto_spec_u64_to_from_le_bytes();
        assert(spec_u64_from_le_bytes(bytes@.subrange(start as int, start + 8)) == n);
    }
    if n > MAX_SLOT_COUNT {
        proof {
            assert forall|v: AccountsDbFieldsView| !#[trigger] encodes_at(bytes@, start as int, v) by {
                if encodes_at(bytes@, start as int, v) {
                    let x = v.storages.len() as u64;
                    lemma_enc_u64_len(x);
                    assert(encode_fields(v) =~= enc_u64(x) + (enc_slots(v.storages) + enc_tail(v)));
                    lemma_holds_split(bytes@, start as int, enc_u64(x), enc_slots(v.storages) + enc_tail(v));
                    lemma_slots_len(v.storages);
                    lemma_tail_len(v);
                }
            }
        }
        return Err(DecodeError::SizeLimit);
    }
    let mut pos: usize = start + 8;
    let mut storages: Vec<SlotStorages> = Vec::new();
    let mut k: u64 = 0;
    proof {
        assert forall|v: AccountsDbFieldsView| #[trigger] encodes_at(bytes@, start as int, v) implies {
            &&& n == v.storages.len()
            &&& slots_view(storages@) == v.storages.subrange(0, 0)
            &&& holds_at(bytes@, pos as int, enc_slots(v.storages.subrange(0, n as int)) + enc_tail(v))
            &&& pos - start + (enc_slots(v.storages.subrange(0, n as int)) + enc_tail(v)).len() == encode_fields(v).len()
        } by {
            let x = v.storages.len() as u64;
            lemma_enc_u64_len(x);
            assert(encode_fields(v) =~= enc_u64(x) + (enc_slots(v.storages) + enc_tail(v)));
            lemma_holds_split(bytes@, start as int, enc_u64(x), enc_slots(v.storages) + enc_tail(v));
            assert(x == n);
            assert(v.storages.subrange(0, n as int) =~= v.storages);
            assert(slots_view(storages@) =~= v.storages.subrange(0, 0));
        }
        assert(enc_slots(slots_view(storages@)) =~= Seq::<u8>::empty());
        assert(enc_u64(n) + enc_slots(slots_view(storages@)) =~= enc_u64(n));
        assert forall|ss: Seq<(Slot, Seq<StorageEntry>)>| #[trigger] holds_at(bytes@, start + 8, enc_slots(ss))
            implies slots_view(storages@) == ss.subrange(0, 0) by {
            assert(slots_view(storages@) =~= ss.subrange(0, 0));
        }
    }
    while k < n
        invariant
            len == bytes@.len(),
            start <= pos <= len,
            pos - start <= MAX_STREAM_SIZE,
            k <= n,
            n <= MAX_SLOT_COUNT,
            start + 8 <= len,
            forall|i: int| 0 <= i < k ==> #[trigger] slots_view(storages@)[i].1.len() <= u64::MAX,
            spec_u64_from_le_bytes(bytes@.subrange(start as int, start + 8)) == n,
            storages@.len() == k,
            holds_at(bytes@, start as int, enc_u64(n) + enc_slots(slots_view(storages@))),
            pos == start + 8 + enc_slots(slots_view(storages@)).len(),
            forall|ss: Seq<(Slot, Seq<StorageEntry>)>|
                #[trigger] holds_at(bytes@, start + 8, enc_slots(ss)) && k <= ss.len() && lens_fit(ss) && 8
                    + enc_slots(ss).len() <= MAX_STREAM_SIZE ==> slots_view(storages@) == ss.subrange(0, k as int),
            forall|ss: Seq<(Slot, Seq<StorageEntry>)>|
                #[trigger] entry_count_past_limit(bytes@, start as int, ss) ==> k <= ss.len(),
            forall|v: AccountsDbFieldsView| #[trigger] encodes_at(bytes@, start as int, v) ==> {
                &&& n == v.storages.len()
                &&& slots_view(storages@) == v.storages.subrange(0, k as int)
                &&& holds_at(bytes@, pos as int, enc_slots(v.storages.subrange(k as int, n as int)) + enc_tail(v))
                &&& pos - start + (enc_slots(v.storages.subrange(k as int, n as int)) + enc_tail(v)).len()
                    == encode_fields(v).len()
            },
        decreases n - k,
    {
        let ghost old_slots = slots_view(storages@);
        proof {
            assert forall|v: AccountsDbFieldsView| #[trigger] encodes_at(bytes@, start as int, v) implies {
                let s = v.storages[k as int];
                &&& holds_at(bytes@, pos as int, enc_slot(s))
                &&& s.1.len() <= u64::MAX
                &&& pos - start + enc_slot(s).len() <= MAX_STREAM_SIZE
                &&& holds_at(bytes@, pos + enc_slot(s).len(), enc_slots(v.storages.subrange(k + 1, n as int)) + enc_tail(v))
                &&& pos + enc_slot(s).len() - start + (enc_slots(v.storages.subrange(k + 1, n as int)) + enc_tail(v)).len()
                    == encode_fields(v).len()
            } by {
                let rest = v.storages.subrange(k as int, n as int);
                lemma_slots_head(bytes@, pos as int, rest, enc_tail(v));
                assert(rest.drop_first() =~= v.storages.subrange(k + 1, n as int));
                assert(rest[0] == v.storages[k as int]);
            }
        }
        proof {
            assert forall|ss: Seq<(Slot, Seq<StorageEntry>)>|
                #[trigger] holds_at(bytes@, start + 8, enc_slots(ss)) && k < ss.len() && lens_fit(ss) && 8
                    + enc_slots(ss).len() <= MAX_STREAM_SIZE implies {
                    &&& holds_at(bytes@, pos as int, enc_slot(ss[k as int]))
                    &&& ss[k as int].1.len() <= u64::MAX
                    &&& pos - start + enc_slot(ss[k as int]).len() <= MAX_STREAM_SIZE
                } by {
                lemma_slot_at(bytes@, start + 8, ss, k as int);
                assert(slots_view(storages@) == ss.subrange(0, k as int));
            }
            assert forall|ss: Seq<(Slot, Seq<StorageEntry>)>| #[trigger] entry_count_past_limit(bytes@, start as int, ss)
                implies holds_at(bytes@, start + 8, enc_slots(ss)) && lens_fit(ss) && 8 + enc_slots(ss).len() <= MAX_STREAM_SIZE
                && (ss.len() == k ==> pos == start + 8 + enc_slots(ss).len()) by {
                if ss.len() == k {
                    assert(slots_view(storages@) == ss.subrange(0, k as int));
                    assert(ss.subrange(0, k as int) =~= ss);
                }
            }
        }
        let (new_slot, next) = match read_slot(bytes, start, pos) {
            Ok(found) => found,
            Err(e) => {
                proof {
                    assert forall|ss: Seq<(Slot, Seq<StorageEntry>)>| #[trigger] entry_count_past_limit(bytes@, start as int, ss)
                        implies e == DecodeError::SizeLimit by {
                        if ss.len() > k {
                            assert(holds_at(bytes@, pos as int, enc_slot(ss[k as int])));
                        }
                    }
                    assert forall|v: AccountsDbFieldsView| !#[trigger] encodes_at(bytes@, start as int, v) by {
                        if encodes_at(bytes@, start as int, v) {
                            let s = v.storages[k as int];
                            assert(holds_at(bytes@, pos as int, enc_slot(s)));
                        }
                    }
                }
                return Err(e);
            },
        };
        let ghost slot_pos = pos;
        pos = next;
        let ghost sv = new_slot@;
        storages.push(new_slot);
        k = k + 1;
        proof {
            assert(slots_view(storages@) =~= old_slots.push(sv));
            assert forall|i: int| 0 <= i < k implies #[trigger] slots_view(storages@)[i].1.len() <= u64::MAX by {
                if i < k - 1 {
                    assert(slots_view(storages@)[i] == old_slots[i]);
                }
            }
            lemma_slots_push(old_slots, sv);
            lemma_enc_u64_len(n);
            lemma_holds_join(bytes@, start as int, enc_u64(n) + enc_slots(old_slots), enc_slot(sv));
            assert(enc_u64(n) + enc_slots(slots_view(storages@)) =~= enc_u64(n) + enc_slots(old_slots) + enc_slot(sv));
            assert forall|ss: Seq<(Slot, Seq<StorageEntry>)>|
                #[trigger] holds_at(bytes@, start + 8, enc_slots(ss)) && k <= ss.len() && lens_fit(ss) && 8
                    + enc_slots(ss).len() <= MAX_STREAM_SIZE implies slots_view(storages@) == ss.subrange(0, k as int) by {
                assert(holds_at(bytes@, slot_pos as int, enc_slot(ss[k - 1])));
                assert(old_slots == ss.subrange(0, k - 1));
                assert(sv == ss[k - 1]);
                assert(ss.subrange(0, k as int) =~= ss.subrange(0, k - 1).push(ss[k - 1]));
            }
            assert forall|ss: Seq<(Slot, Seq<StorageEntry>)>| #[trigger] entry_count_past_limit(bytes@, start as int, ss)
                implies k <= ss.len() by {
                if ss.len() == k - 1 {
                    assert(slot_pos == start + 8 + enc_slots(ss).len());
                }
            }
            assert forall|v: AccountsDbFieldsView| #[trigger] encodes_at(bytes@, start as int, v) implies {
                &&& slots_view(storages@) == v.storages.subrange(0, k as int)
            } by {
                let s = v.storages[k - 1];
                assert(holds_at(bytes@, slot_pos as int, enc_slot(s)));
                assert(sv == s);
                assert(v.storages.subrange(0, k as int) =~= v.storages.subrange(0, k - 1).push(s));
            }
        }
    }
    proof {
        assert forall|v: AccountsDbFieldsView| #[trigger] encodes_at(bytes@, start as int, v) implies {
            &&& holds_at(bytes@, pos as int, enc_tail(v))
            &&& pos - start + TAIL_BYTES <= MAX_STREAM_SIZE
        } by {
            assert(enc_slots(v.storages.subrange(n as int, n as int)) =~= Seq::<u8>::empty());
            assert(enc_slots(v.storages.subrange(n as int, n as int)) + enc_tail(v) =~= enc_tail(v));
            lemma_tail_len(v);
        }
    }
    let (write_version, snapshot_slot, bank_hash_info) = match read_tail(bytes, start, pos) {
        Ok(found) => found,
        Err(e) => {
            proof {
                assert forall|v: AccountsDbFieldsView| !#[trigger] encodes_at(bytes@, start as int, v) by {
                    if encodes_at(bytes@, start as int, v) {
                        assert(holds_at(bytes@, pos as int, enc_tail(v)));
                    }
                }
            }
            return Err(e);
        },
    };
    let fields = AccountsDbFields { storages, write_version, snapshot_slot, bank_hash_info };
    let end = pos + 120;
    proof {
        lemma_tail_len(fields@);
        assert(fields@.storages == slots_view(storages@));
        assert(encode_fields(fields@) =~= (enc_u64(n) + enc_slots(slots_view(storages@))) + enc_tail(fields@));
        lemma_holds_join(bytes@, start as int, enc_u64(n) + enc_slots(slots_view(storages@)), enc_tail(fields@));
        lemma_enc_u64_len(n);
        assert forall|v: AccountsDbFieldsView| #[trigger] encodes_at(bytes@, start as int, v) implies fields@ == v by {
            assert(holds_at(bytes@, pos as int, enc_tail(v)));
            assert(v.storages.subrange(0, n as int) =~= v.storages);
        }
    }
    if !slot_keys_distinct(&fields.storages) {
        return Err(DecodeError::DuplicateSlot);
    }
    Ok((fields, end))
}

fn push_u64(out: &mut Vec<u8>, x: u64)
    ensures
        final(out)@ == old(out)@ + enc_u64(x),
{
    let mut b = u64_to_le_bytes(x);
    out.append(&mut b);
}

fn push_bytes(out: &mut Vec<u8>, b: &Vec<u8>)
    ensures
        final(out)@ == old(out)@ + b@,
{
    let ghost start = out@;
    let mut i: usize = 0;
    while i < b.len()
        invariant
            i <= b@.len(),
            out@ == start + b@.subrange(0, i as int),
        decreases b@.len() - i,
    {
        out.push(b[i]);
        i = i + 1;
        assert(out@ =~= start + b@.subrange(0, i as int));
    }
    assert(b@.subrange(0, b@.len() as int) =~= b@);
}

/// Encodes `fields` in the form that `deserialize_accounts_db_fields` reads.
pub fn serialize_accounts_db_fields(fields: &AccountsDbFields) -> (r: Vec<u8>)
    ensures
        r@ == encode_fields(fields@),
{
    let mut out: Vec<u8> = Vec::new();
    let n = fields.storages.len();
    push_u64(&mut out, n as u64);
    let ghost head = out@;
    let ghost sv = slots_view(fields.storages@);
    let mut k: usize = 0;
    proof {
        assert(enc_slots(sv.subrange(0, 0)) =~= Seq::<u8>::empty());
        assert(out@ =~= head + enc_slots(sv.subrange(0, 0)));
    }
    while k < n
        invariant
            n == fields.storages@.len(),
            k <= n,
            sv == slots_view(fields.storages@),
            out@ == head + enc_slots(sv.subrange(0, k as int)),
        decreases n - k,
    {
        let slot = &fields.storages[k];
        let m = slot.entries.len();
        let ghost before = out@;
        push_u64(&mut out, slot.slot);
        push_u64(&mut out, m as u64);
        let ghost slot_head = out@;
        let mut j: usize = 0;
        proof {
            assert(enc_entries(slot.entries@.subrange(0, 0)) =~= Seq::<u8>::empty());
            assert(out@ =~= slot_head + enc_entries(slot.entries@.subrange(0, 0)));
        }
        while j < m
            invariant
                m == slot.entries@.len(),
                j <= m,
                out@ == slot_head + enc_entries(slot.entries@.subrange(0, j as int)),
            decreases m - j,
        {
            let e = slot.entries[j];
            push_u64(&mut out, e.id);
            push_u64(&mut out, e.current_len);
            proof {
                lemma_entries_push(slot.entries@.subrange(0, j as int), e);
                assert(slot.entries@.subrange(0, j + 1) =~= slot.entries@.subrange(0, j as int).push(e));
            }
            j = j + 1;
            assert(out@ =~= slot_head + enc_entries(slot.entries@.subrange(0, j as int)));
        }
        proof {
            assert(slot.entries@.subrange(0, m as int) =~= slot.entries@);
            assert(sv[k as int] == slot@);
            lemma_slots_push(sv.subrange(0, k as int), slot@);
            assert(sv.subrange(0, k + 1) =~= sv.subrange(0, k as int).push(slot@));
        }
        k = k + 1;
        assert(out@ =~= head + enc_slots(sv.subrange(0, k as int)));
    }
    assert(sv.subrange(0, n as int) =~= sv);
    push_u64(&mut out, fields.write_version);
    push_u64(&mut out, fields.snapshot_slot);
    push_bytes(&mut out, &fields.bank_hash_info.hash);
    push_bytes(&mut out, &fields.bank_hash_info.snapshot_hash);
    let st = fields.bank_hash_info.stats;
    push_u64(&mut out, st.num_updated_accounts);
    push_u64(&mut out, st.num_removed_accounts);
    push_u64(&mut out, st.num_lamports_stored);
    push_u64(&mut out, st.total_data_len);
    push_u64(&mut out, st.num_executable_accounts);
    assert(out@ =~= encode_fields(fields@));
    out
}

/// Decoding what encoding wrote gives back the record, whatever bytes follow,
/// as long as the record fits the limit: `encodes_at` is what the contract of
/// `deserialize_accounts_db_fields` turns into `Ok` of that very record, and
/// what the contract of `reconstruct_accountsdb_from_streams` reconstructs from.
pub proof fn lemma_round_trip(v: AccountsDbFieldsView, rest: Seq<u8>)
    requires
        encodable(v),
        encode_fields(v).len() <= MAX_STREAM_SIZE,
    ensures
        encodes_at(encode_fields(v) + rest, 0, v),
{
    assert((encode_fields(v) + rest).subrange(0, encode_fields(v).len() as int) =~= encode_fields(v));
}

} // verus!
