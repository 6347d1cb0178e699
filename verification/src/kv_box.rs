//! The key/value box: typed values under string keys, over a numbered entry box.
//!
//! Every key has one record in a key map file: the length of the key, its type code, the
//! id its value is stored under in the entry box, and the key's bytes. A record starts at
//! the position named in the entry, and its type code is rewritten in place when the value
//! changes type from "removed". Numeric keys are held in a dense array indexed by their
//! number when it lands near its end, and among the string keys otherwise.
use crate::basic_box::{slot_count, compact_effect, append_fits, BasicBox, BoxInfo, FileItem, Lookup, MAX_ENTRY_ID, MAX_STORE_POSITION};
use crate::byte_ops::{i32_to_bytes, spec_i32_to_bytes, spec_u64_to_bytes, u64_to_bytes};
use crate::error::{GuiXuError, Result};
use crate::file_access::{lemma_grown_fits, lemma_written_byte, lemma_written_read, AutoIncreaseFileAccess, MAX_INCREASE_SIZE};
use crate::fx_collections::{
    numeric_key_members, string_item_entries, NumericKeySet, StringItemMap,
};
use crate::key_map::{
    first_failure, item_reached, LoadFailure, distinct_keys, key_of, lemma_loaded_at, lemma_loaded_keys, lemma_parse_extend,
    lemma_parse_one, lemma_parse_retype, record_value, records_sound,
    chain, entry_in, kv_record, lemma_digits_utf8, loaded_entries, loaded_items, loaded_view,
    map_loadable, parse_records, record_at, record_item, record_loadable, stored_value, MapRecord,
    KV_ITEM_FIX_LENGTH,
};
use crate::kv_key::{
    lemma_numeric_key_injective, parse_dense_numeric_key, parse_dense_numeric_key_bytes,
    should_store_dense_numeric, spec_numeric_key_of, spec_should_store_dense_numeric,
};
use crate::kv_value::{
    byte_array_to_value, lemma_decode_encode, string_from_utf8, spec_encode_value, spec_kind, type_error, value_to_byte_array, KVItem,
    KVItemView, KVValue, ValueView, VALUE_TYPE_BOOLEAN, VALUE_TYPE_BYTE, VALUE_TYPE_BYTE_ARRAY,
    VALUE_TYPE_DELETE, VALUE_TYPE_DOUBLE, VALUE_TYPE_DOUBLE_ARRAY, VALUE_TYPE_FLOAT,
    VALUE_TYPE_FLOAT_ARRAY, VALUE_TYPE_INT, VALUE_TYPE_INT_ARRAY, VALUE_TYPE_LONG,
    VALUE_TYPE_LONG_ARRAY, VALUE_TYPE_STRING,
};
use vstd::prelude::*;

verus! {

/// The number of slots of `s` that hold an entry.
pub open spec fn count_some(s: Seq<Option<KVItem>>) -> nat
    decreases s.len(),
{
    if s.len() == 0 {
        0
    } else {
        count_some(s.drop_last()) + if s.last() is Some { 1nat } else { 0nat }
    }
}

/// What a read of a key finds.
pub enum GetOutcome {
    /// The key has no value, or it was removed.
    NotFound,
    /// The value has this other type code.
    WrongType(u8),
    /// The value.
    Found(ValueView),
}

/// Dropping the last slot of `s` drops its count by one when that slot holds an entry.
proof fn lemma_count_some_bound(s: Seq<Option<KVItem>>)
    ensures
        count_some(s) <= s.len(),
        (exists|i: int| 0 <= i < s.len() && s[i] is None) ==> count_some(s) < s.len(),
    decreases s.len(),
{
    if s.len() > 0 {
        lemma_count_some_bound(s.drop_last());
        if exists|i: int| 0 <= i < s.len() && s[i] is None {
            let i = choose|i: int| 0 <= i < s.len() && s[i] is None;
            if i < s.len() - 1 {
                assert(s.drop_last()[i] is None);
            }
        }
    }
}

/// Putting an entry in a slot adds one to the count when the slot was empty.
proof fn lemma_count_some_update(s: Seq<Option<KVItem>>, i: int, item: KVItem)
    requires
        0 <= i < s.len(),
    ensures
        count_some(s.update(i, Some(item))) == count_some(s) + if s[i] is None { 1int } else { 0int },
    decreases s.len(),
{
    let t = s.update(i, Some(item));
    if i == s.len() - 1 {
        assert(t.drop_last() =~= s.drop_last());
    } else {
        assert(t.drop_last() =~= s.drop_last().update(i, Some(item)));
        lemma_count_some_update(s.drop_last(), i, item);
    }
}

/// Appending empty slots keeps the count.
proof fn lemma_count_some_push_none(s: Seq<Option<KVItem>>)
    ensures
        count_some(s.push(None)) == count_some(s),
{
    assert(s.push(None).drop_last() =~= s);
}

/// Appending a full slot adds one to the count.
proof fn lemma_count_some_push_some(s: Seq<Option<KVItem>>, item: KVItem)
    ensures
        count_some(s.push(Some(item))) == count_some(s) + 1,
{
    assert(s.push(Some(item)).drop_last() =~= s);
}

/// What a write of `v` under `key` leaves, whatever it returns: a refused type leaves the
/// box as it was with a type error; a success puts `v` under `key` and moves the box on as
/// `put_reach` says; room for the write and no type conflict make it succeed; any other
/// failure is one of room.
///
/// A value whose encoding is empty (an empty string or array) is stored as an entry of
/// length zero, which the entry box reads as no entry. The open box still gives the value
/// back, from the entry it keeps in memory, but a box reopened over its files finds no
/// entry for the key and does not open; so the key map stays in step with the box only
/// through writes of values with a non-empty encoding.
pub open spec fn put_done(old: KVBox, new: KVBox, key: Seq<char>, v: ValueView, r: Result<()>) -> bool {
    let t = spec_kind(v);
    &&& old.conflicts(key, t) ==> r == Err::<(), GuiXuError>(
        GuiXuError::TypeError { stored: spec_kind(old@[key]), expected: t },
    ) && new == old
    &&& r is Ok ==> new@ == old@.insert(key, v)
    &&& r is Ok ==> put_reach(old, new, key, spec_encode_value(v).len())
    &&& !old.conflicts(key, t) && old.can_put(key, spec_encode_value(v).len()) ==> r is Ok
    &&& r is Err && !old.conflicts(key, t) ==> (r->Err_0 is Corrupt || r->Err_0 is FileTooLarge)
    &&& old.persisted() && r is Ok && spec_encode_value(v).len() > 0 && vstd::utf8::encode_utf8(key).len()
        <= i32::MAX ==> new.persisted()
    &&& old.map_file is None && !old.conflicts(key, t) && old.basic.next_id <= MAX_ENTRY_ID
        && old.map_file_append_position + KV_ITEM_FIX_LENGTH + vstd::utf8::encode_utf8(key).len()
        <= MAX_STORE_POSITION ==> (r matches Err(GuiXuError::Corrupt(_)))
}

/// Where a successful write of `len` value bytes under `key` leaves the box: a new key
/// takes the next id and appends its record to the key map file, a key with an entry keeps
/// its id; the bytes are appended to the working store; the generations stay as many, and
/// every other key keeps its entry.
pub open spec fn put_reach(old: KVBox, new: KVBox, key: Seq<char>, len: nat) -> bool {
    let fresh = old.item_of(key) is None;
    &&& new.basic.next_id == old.basic.next_id + if fresh { 1int } else { 0int }
    &&& new.basic.file_array@.len() == old.basic.file_array@.len()
    &&& new.basic.file_array@.len() > 0
    &&& new.basic.file_array@[0].store_append_position == old.basic.file_array@[0].store_append_position + len
    &&& new.map_file is Some
    &&& new.map_file_append_position == old.map_file_append_position + if fresh {
        KV_ITEM_FIX_LENGTH + vstd::utf8::encode_utf8(key).len()
    } else {
        0int
    }
    &&& new.item_of(key) matches Some(item) && item.id == match old.item_of(key) {
        Some(o) => o.id,
        None => old.basic.next_id,
    }
    &&& forall|k: Seq<char>| k != key ==> #[trigger] new.item_of(k) == old.item_of(k)
}

/// Where a successful removal leaves the box: the next id, the generations, the working
/// store's append position and the key map file's stay, and every key keeps the id of
/// its entry.
pub open spec fn remove_reach(old: KVBox, new: KVBox) -> bool {
    &&& new.basic.next_id == old.basic.next_id
    &&& new.basic.file_array@.len() == old.basic.file_array@.len()
    &&& old.basic.file_array@.len() > 0 ==> new.basic.file_array@[0].store_append_position
        == old.basic.file_array@[0].store_append_position
    &&& new.map_file is Some <==> old.map_file is Some
    &&& new.map_file_append_position == old.map_file_append_position
    &&& forall|k: Seq<char>| #[trigger] new.item_of(k) is Some <==> old.item_of(k) is Some
    &&& forall|k: Seq<char>| #[trigger] new.item_of(k) is Some ==> new.item_of(k)->Some_0.id == old.item_of(k)->Some_0.id
}

/// The word that records the number of keys at the start of the key map file: the count,
/// cut to 32 bits, doubled in 32-bit arithmetic.
pub open spec fn capacity_word(count: int) -> i32 {
    (((count % 0x1_0000_0000) as u32) << 1u32) as i32
}

/// The key/value box.
pub struct KVBox {
    pub basic: BasicBox,
    pub string_map: StringItemMap,
    pub numeric_items: Vec<Option<KVItem>>,
    pub sparse_numeric_keys: NumericKeySet,
    pub numeric_len: usize,
    pub map_file: Option<AutoIncreaseFileAccess>,
    pub map_file_append_position: u64,
    pub map_capacity_dirty: bool,
}

impl View for KVBox {
    type V = Map<Seq<char>, ValueView>;

    /// The value under every key that has one; a removed key holds `Deleted`.
    open spec fn view(&self) -> Map<Seq<char>, ValueView> {
        Map::new(|k: Seq<char>| self.item_of(k) is Some, |k: Seq<char>| self.item_of(k)->Some_0.value)
    }
}

impl KVBox {
    /// The entry in slot `n` of the dense array.
    pub open spec fn dense_item(&self, n: int) -> Option<KVItemView> {
        if 0 <= n < self.numeric_items@.len() {
            match self.numeric_items@[n] {
                Some(item) => Some(item@),
                None => None,
            }
        } else {
            None
        }
    }

    /// The entry under `key` among the string keys.
    pub open spec fn string_item(&self, key: Seq<char>) -> Option<KVItemView> {
        let m = string_item_entries(self.string_map);
        if m.contains_key(key) {
            Some(m[key])
        } else {
            None
        }
    }

    /// Whether the number `n` is kept among the string keys.
    pub open spec fn is_sparse(&self, n: u64) -> bool {
        numeric_key_members(self.sparse_numeric_keys).contains(n)
    }

    /// The entry of `key`: a numeric key is looked for in the dense array, then among the
    /// string keys when its number is kept there; any other key among the string keys.
    pub open spec fn item_of(&self, key: Seq<char>) -> Option<KVItemView> {
        match spec_numeric_key_of(key) {
            Some(n) => if self.dense_item(n as int) is Some {
                self.dense_item(n as int)
            } else if self.is_sparse(n) {
                self.string_item(key)
            } else {
                None
            },
            None => self.string_item(key),
        }
    }

    /// An entry is consistent: its type code is that of its value, and its record lies in
    /// the bytes in use of the key map file.
    pub open spec fn item_ok(&self, item: KVItemView) -> bool {
        &&& spec_kind(item.value) == item.value_type
        &&& self.map_file matches Some(f) ==> item.file_position + 5 <= f.actual_length
    }

    /// The box is consistent.
    pub open spec fn wf(&self) -> bool {
        &&& self.basic.wf()
        &&& self.numeric_len == count_some(self.numeric_items@)
        &&& self.map_file matches Some(f) ==> f.wf() && 4 <= f.actual_length <= self.map_file_append_position
        &&& self.map_file_append_position <= MAX_STORE_POSITION
        &&& forall|k: Seq<char>| #[trigger] self.item_of(k) is Some ==> self.item_ok(self.item_of(k)->Some_0)
    }

    /// The key map file is in step with the box: its records are sound, and every key's
    /// entry is the one its record loads as. Reopening the box then gives it back.
    pub open spec fn persisted(&self) -> bool {
        &&& self.map_file matches Some(f)
        &&& f.actual_length == self.map_file_append_position
        &&& parse_records(f.bytes(), 4, f.actual_length as int) matches Some(recs)
        &&& records_sound(recs, self.basic)
        &&& forall|k: Seq<char>| #[trigger] self.item_of(k) == entry_in(loaded_items(recs, self.basic), k)
    }

    /// Every key with a record has the entry that record loads as, and only those keys have one.
    pub open spec fn described_by(&self, recs: Seq<MapRecord>) -> bool {
        &&& forall|j: int|
            0 <= j < recs.len() ==> #[trigger] self.item_of(key_of(recs[j])) == Some(record_item(recs[j], self.basic))
        &&& forall|k: Seq<char>|
            #[trigger] self.item_of(k) is Some ==> exists|j: int| 0 <= j < recs.len() && #[trigger] key_of(recs[j]) == k
    }

    /// With records of distinct keys, the box is described by them exactly when its entries
    /// are the ones they load as.
    proof fn lemma_described_loaded(b: KVBox, recs: Seq<MapRecord>)
        requires
            distinct_keys(recs),
        ensures
            b.described_by(recs) <==> forall|k: Seq<char>| #[trigger] b.item_of(k) == entry_in(loaded_items(recs, b.basic), k),
    {
        lemma_loaded_keys(recs, b.basic);
        let loaded = loaded_items(recs, b.basic);
        if b.described_by(recs) {
            assert forall|k: Seq<char>| #[trigger] b.item_of(k) == entry_in(loaded, k) by {
                if loaded.contains_key(k) {
                    let j = choose|j: int| 0 <= j < recs.len() && #[trigger] key_of(recs[j]) == k;
                    lemma_loaded_at(recs, b.basic, j);
                    assert(b.item_of(key_of(recs[j])) == Some(record_item(recs[j], b.basic)));
                } else if b.item_of(k) is Some {
                    let j = choose|j: int| 0 <= j < recs.len() && #[trigger] key_of(recs[j]) == k;
                    assert(loaded.contains_key(key_of(recs[j])));
                }
            }
        }
        if forall|k: Seq<char>| #[trigger] b.item_of(k) == entry_in(loaded, k) {
            assert forall|j: int| 0 <= j < recs.len() implies #[trigger] b.item_of(key_of(recs[j])) == Some(
                record_item(recs[j], b.basic),
            ) by {
                lemma_loaded_at(recs, b.basic, j);
                assert(b.item_of(key_of(recs[j])) == entry_in(loaded, key_of(recs[j])));
            }
            assert forall|k: Seq<char>| #[trigger] b.item_of(k) is Some implies exists|j: int|
                0 <= j < recs.len() && #[trigger] key_of(recs[j]) == k by {
                assert(b.item_of(k) == entry_in(loaded, k));
                assert(loaded.contains_key(k));
            }
        }
    }

    /// Appending a record for a key without an entry, with the entry box holding the new
    /// value under a fresh id, keeps the key map in step with the box.
    proof fn lemma_persist_append(s0: KVBox, s: KVBox, key: Seq<char>, item: KVItemView)
        requires
            s0.wf(),
            s0.persisted(),
            s0.item_of(key) is None,
            vstd::utf8::encode_utf8(key).len() <= i32::MAX,
            s.map_file is Some,
            ({
                let f0 = s0.map_file->Some_0;
                let f = s.map_file->Some_0;
                let kb = vstd::utf8::encode_utf8(key);
                &&& f.bytes() == f0.written(
                    f0.actual_length as int,
                    kv_record(kb, item.value_type, item.id),
                )
                &&& f.actual_length == f0.actual_length + KV_ITEM_FIX_LENGTH + kb.len()
                &&& s.map_file_append_position == f.actual_length
                &&& item.file_position == f0.actual_length
            }),
            item.id == s0.basic.next_id,
            s.basic.next_id > item.id,
            item.value_type != VALUE_TYPE_DELETE,
            stored_value(item.value_type, item.id, s.basic) == Some(item.value),
            s.basic.file_array@.len() > 0,
            s0.basic.file_array@.len() > 0,
            s.basic.file_array@[0].index_file.actual_length == if item.id * 12 + 12
                > s0.basic.file_array@[0].index_file.actual_length {
                item.id * 12 + 12
            } else {
                s0.basic.file_array@[0].index_file.actual_length as int
            },
            s.basic.file_array@.len() == s0.basic.file_array@.len(),
            s.basic.file_array@.drop_first() == s0.basic.file_array@.drop_first(),
            forall|o: int|
                0 <= o && o != item.id && item_reached(s0.basic, o) && !(s0.basic.entry(o) is Unreadable)
                    ==> #[trigger] s.basic.entry(o) == s0.basic.entry(o),
            Self::only_changes(s0, s, key, Some(item)),
        ensures
            s.persisted(),
    {
        let f0 = s0.map_file->Some_0;
        let f = s.map_file->Some_0;
        let kb = vstd::utf8::encode_utf8(key);
        let p = f0.actual_length as int;
        let len = f.actual_length as int;
        let img0 = f0.bytes();
        let img = f.bytes();
        let recs0 = parse_records(img0, 4, p)->Some_0;
        let rec = kv_record(kb, item.value_type, item.id);
        crate::byte_ops::lemma_i32_bytes_roundtrip(kb.len() as i32);
        crate::byte_ops::lemma_u64_bytes_roundtrip(item.id);
        assert(rec.len() == 13 + kb.len());
        lemma_written_read(f0, p, rec);
        assert forall|i: int| 4 <= i < p implies img0[i] == img[i] by {
            assert(img.subrange(4, p) == img0.subrange(4, p));
            assert(img.subrange(4, p)[i - 4] == img[i]);
            assert(img0.subrange(4, p)[i - 4] == img0[i]);
        }
        lemma_parse_extend(img0, img, 4, p, len);
        lemma_parse_one(img, p, kb, item.value_type, item.id);
        let r = MapRecord { position: p as u64, key: kb, value_type: item.value_type, id: item.id };
        let recs = recs0.push(r);
        assert(recs0 + seq![r] =~= recs);
        assert(parse_records(img, 4, len) == Some(recs));
        vstd::utf8::encode_utf8_decode_utf8(key);
        vstd::utf8::encode_utf8_valid_utf8(key);
        assert(key_of(r) == key);
        Self::lemma_described_loaded(s0, recs0);
        assert forall|j: int| 0 <= j < recs0.len() implies #[trigger] record_value(recs0[j], s.basic) == record_value(
            recs0[j],
            s0.basic,
        ) by {
            assert(record_loadable(recs0[j], s0.basic));
            assert(recs0[j].id < s0.basic.next_id);
        }
        assert forall|j: int| 0 <= j < recs0.len() implies #[trigger] key_of(recs0[j]) != key by {
            assert(s0.item_of(key_of(recs0[j])) is Some);
        }
        assert(records_sound(recs, s.basic)) by {
            assert forall|j: int| 0 <= j < recs.len() implies #[trigger] record_loadable(recs[j], s.basic) by {
                if j < recs0.len() {
                    assert(recs[j] == recs0[j]);
                    assert(record_loadable(recs0[j], s0.basic));
                }
            }
            assert forall|a: int, b: int|
                #![trigger recs[a], recs[b]]
                0 <= a < recs.len() && 0 <= b < recs.len() && a != b implies key_of(recs[a]) != key_of(recs[b])
                    && recs[a].id != recs[b].id by {
                if a < recs0.len() && b < recs0.len() {
                    assert(recs[a] == recs0[a] && recs[b] == recs0[b]);
                } else if a < recs0.len() {
                    assert(recs[a] == recs0[a]);
                    assert(recs0[a].id < s0.basic.next_id);
                } else {
                    assert(recs[b] == recs0[b]);
                    assert(recs0[b].id < s0.basic.next_id);
                }
            }
            crate::basic_box::lemma_slot_count_grows(s0.basic.file_array@, s.basic.file_array@);
            assert(s.basic.file_array@[0].index_file.actual_length / 12 >= item.id + 1) by (nonlinear_arith)
                requires
                    s.basic.file_array@[0].index_file.actual_length >= item.id * 12 + 12,
            ;
            assert forall|j: int| #![trigger recs[j]] 0 <= j < recs.len() implies recs[j].id < s.basic.next_id
                && recs[j].id < slot_count(s.basic.file_array@) && s.basic.file_array@.len() > 0
                && s.basic.file_array@[0].has_slot(recs[j].id as int) by {
                if j < recs0.len() {
                    assert(recs[j] == recs0[j]);
                    assert(recs0[j].id < s0.basic.next_id);
                }
            }
        }
        assert(s.described_by(recs)) by {
            assert forall|j: int| 0 <= j < recs.len() implies #[trigger] s.item_of(key_of(recs[j])) == Some(
                record_item(recs[j], s.basic),
            ) by {
                if j < recs0.len() {
                    assert(recs[j] == recs0[j]);
                    assert(s0.item_of(key_of(recs0[j])) == Some(record_item(recs0[j], s0.basic)));
                }
            }
            assert forall|k: Seq<char>| #[trigger] s.item_of(k) is Some implies exists|j: int|
                0 <= j < recs.len() && #[trigger] key_of(recs[j]) == k by {
                if k == key {
                    assert(key_of(recs[recs0.len() as int]) == k);
                } else {
                    assert(s0.item_of(k) is Some);
                    let j = choose|j: int| 0 <= j < recs0.len() && #[trigger] key_of(recs0[j]) == k;
                    assert(recs[j] == recs0[j]);
                }
            }
        }
        Self::lemma_described_loaded(s, recs);
    }

    /// Rewriting the type code in the record of a key with an entry, with the entry box
    /// holding the new value under the key's id, keeps the key map in step with the box.
    proof fn lemma_persist_retype(s0: KVBox, s: KVBox, key: Seq<char>, item: KVItemView)
        requires
            s0.wf(),
            s0.persisted(),
            s0.item_of(key) matches Some(old_item) && old_item.file_position == item.file_position
                && old_item.id == item.id,
            s.map_file is Some,
            s.map_file->Some_0.bytes() == s0.map_file->Some_0.bytes().update(
                item.file_position + 4,
                item.value_type,
            ),
            s.map_file->Some_0.actual_length == s0.map_file->Some_0.actual_length,
            s.map_file_append_position == s0.map_file_append_position,
            s.basic.next_id >= s0.basic.next_id,
            stored_value(item.value_type, item.id, s.basic) == Some(item.value),
            s.basic.file_array@.len() > 0,
            s0.basic.file_array@.len() > 0,
            s.basic.file_array@[0].index_file.actual_length == if item.id * 12 + 12
                > s0.basic.file_array@[0].index_file.actual_length {
                item.id * 12 + 12
            } else {
                s0.basic.file_array@[0].index_file.actual_length as int
            },
            s.basic.file_array@.len() == s0.basic.file_array@.len(),
            s.basic.file_array@.drop_first() == s0.basic.file_array@.drop_first(),
            forall|o: int|
                0 <= o && o != item.id && item_reached(s0.basic, o) && !(s0.basic.entry(o) is Unreadable)
                    ==> #[trigger] s.basic.entry(o) == s0.basic.entry(o),
            Self::only_changes(s0, s, key, Some(item)),
        ensures
            s.persisted(),
    {
        let f0 = s0.map_file->Some_0;
        let img0 = f0.bytes();
        let len = f0.actual_length as int;
        let recs0 = parse_records(img0, 4, len)->Some_0;
        Self::lemma_described_loaded(s0, recs0);
        lemma_loaded_keys(recs0, s0.basic);
        assert(s0.item_of(key) == entry_in(loaded_items(recs0, s0.basic), key));
        assert(loaded_items(recs0, s0.basic).contains_key(key));
        let i = choose|i: int| 0 <= i < recs0.len() && #[trigger] key_of(recs0[i]) == key;
        lemma_loaded_at(recs0, s0.basic, i);
        assert(recs0[i].position == item.file_position && recs0[i].id == item.id);
        lemma_parse_retype(img0, 4, len, i, item.value_type);
        let r2 = MapRecord { value_type: item.value_type, ..recs0[i] };
        let recs = recs0.update(i, r2);
        assert(parse_records(s.map_file->Some_0.bytes(), 4, len) == Some(recs));
        assert forall|j: int| 0 <= j < recs0.len() && j != i implies #[trigger] record_value(recs0[j], s.basic)
            == record_value(recs0[j], s0.basic) by {
            assert(record_loadable(recs0[j], s0.basic));
            assert(recs0[j].id != recs0[i].id);
            assert(item_reached(s0.basic, recs0[j].id as int));
        }
        assert(records_sound(recs, s.basic)) by {
            assert forall|j: int| 0 <= j < recs.len() implies #[trigger] record_loadable(recs[j], s.basic) by {
                assert(record_loadable(recs0[j], s0.basic));
                if j != i {
                    assert(recs[j] == recs0[j]);
                }
            }
            assert forall|a: int, b: int|
                #![trigger recs[a], recs[b]]
                0 <= a < recs.len() && 0 <= b < recs.len() && a != b implies key_of(recs[a]) != key_of(recs[b])
                    && recs[a].id != recs[b].id by {
                assert(key_of(recs0[a]) != key_of(recs0[b]) && recs0[a].id != recs0[b].id);
                assert(key_of(recs[a]) == key_of(recs0[a]) && recs[a].id == recs0[a].id);
                assert(key_of(recs[b]) == key_of(recs0[b]) && recs[b].id == recs0[b].id);
            }
            crate::basic_box::lemma_slot_count_grows(s0.basic.file_array@, s.basic.file_array@);
            assert forall|j: int| #![trigger recs[j]] 0 <= j < recs.len() implies recs[j].id < s.basic.next_id
                && recs[j].id < slot_count(s.basic.file_array@) && item_reached(s.basic, recs[j].id as int) by {
                assert(recs0[j].id < s0.basic.next_id && recs0[j].id < slot_count(s0.basic.file_array@)
                    && item_reached(s0.basic, recs0[j].id as int));
                assert(recs[j].id == recs0[j].id);
            }
        }
        assert(s.described_by(recs)) by {
            assert forall|j: int| 0 <= j < recs.len() implies #[trigger] s.item_of(key_of(recs[j])) == Some(
                record_item(recs[j], s.basic),
            ) by {
                if j != i {
                    assert(recs[j] == recs0[j]);
                    assert(key_of(recs0[j]) != key_of(recs0[i]));
                    assert(s0.item_of(key_of(recs0[j])) == Some(record_item(recs0[j], s0.basic)));
                }
            }
            assert forall|k: Seq<char>| #[trigger] s.item_of(k) is Some implies exists|j: int|
                0 <= j < recs.len() && #[trigger] key_of(recs[j]) == k by {
                if k == key {
                    assert(key_of(recs[i]) == k);
                } else {
                    assert(s0.item_of(k) is Some);
                    let j = choose|j: int| 0 <= j < recs0.len() && #[trigger] key_of(recs0[j]) == k;
                    assert(key_of(recs[j]) == key_of(recs0[j]));
                }
            }
        }
        Self::lemma_described_loaded(s, recs);
    }

    /// What a read of `key` for type `expected` finds.
    pub open spec fn get_outcome(&self, key: Seq<char>, expected: u8) -> GetOutcome {
        if !self@.contains_key(key) || self@[key] is Deleted {
            GetOutcome::NotFound
        } else if spec_kind(self@[key]) != expected {
            GetOutcome::WrongType(spec_kind(self@[key]))
        } else {
            GetOutcome::Found(self@[key])
        }
    }

    /// Whether `key` holds a live value of another type than `t`, which a write of type `t` refuses.
    pub open spec fn conflicts(&self, key: Seq<char>, t: u8) -> bool {
        self@.contains_key(key) && !(self@[key] is Deleted) && spec_kind(self@[key]) != t
    }

    /// Whether a write of `len` value bytes under `key` finds room: the key map file is
    /// open; a key with an entry has an id within reach and room to append its bytes; a new
    /// key has an id to take, room for its record, and room to append its bytes.
    pub open spec fn can_put(&self, key: Seq<char>, len: nat) -> bool {
        &&& self.map_file is Some
        &&& match self.item_of(key) {
            Some(item) => item.id <= MAX_ENTRY_ID && append_fits(self.basic, item.id, len),
            None => {
                let klen = vstd::utf8::encode_utf8(key).len();
                &&& self.basic.next_id <= MAX_ENTRY_ID
                &&& self.map_file_append_position + KV_ITEM_FIX_LENGTH + klen <= MAX_STORE_POSITION
                &&& self.map_file->Some_0.write_fits(
                    self.map_file_append_position as int,
                    (KV_ITEM_FIX_LENGTH + klen) as int,
                )
                &&& append_fits(self.basic, self.basic.next_id, len)
            },
        }
    }

    /// Whether the positions of the box leave room for a write of `len` value bytes under
    /// `key`: the id it goes under is within reach, and the working store, its index and,
    /// for a new key, the key map file can grow to hold it by the largest step of growth.
    pub open spec fn put_room(&self, key: Seq<char>, len: nat) -> bool {
        let id = match self.item_of(key) {
            Some(item) => item.id as int,
            None => self.basic.next_id as int,
        };
        let store_end = self.basic.file_array@[0].store_append_position + len;
        let map_end = self.map_file_append_position + KV_ITEM_FIX_LENGTH + vstd::utf8::encode_utf8(key).len();
        &&& self.map_file is Some
        &&& self.basic.file_array@.len() > 0
        &&& len <= i32::MAX
        &&& id <= MAX_ENTRY_ID
        &&& id * 12 + 12 + MAX_INCREASE_SIZE + 8 <= usize::MAX
        &&& store_end <= MAX_STORE_POSITION
        &&& store_end + MAX_INCREASE_SIZE + 8 <= usize::MAX
        &&& self.item_of(key) is None ==> map_end <= MAX_STORE_POSITION && map_end + MAX_INCREASE_SIZE + 8
            <= usize::MAX
    }

    /// Whether a removal of `key` finds room: a key with an entry has an id within reach,
    /// a working generation whose index can take the removal mark, and an open key map file.
    pub open spec fn can_remove(&self, key: Seq<char>) -> bool {
        match self.item_of(key) {
            Some(item) => {
                &&& item.id <= MAX_ENTRY_ID
                &&& self.basic.file_array@.len() > 0
                &&& self.basic.file_array@[0].index_file.write_fits(item.id * 12, 12)
                &&& self.map_file is Some
            },
            None => true,
        }
    }

    /// Every key keeps its entry between `old` and `new` except `key`, whose entry becomes `item`.
    pub open spec fn only_changes(old: KVBox, new: KVBox, key: Seq<char>, item: Option<KVItemView>) -> bool {
        forall|k: Seq<char>| #[trigger] new.item_of(k) == if k == key { item } else { old.item_of(k) }
    }

    /// An entry put in the dense slot of `key`'s number is found under `key` and nowhere else.
    proof fn lemma_dense_set(old: KVBox, new: KVBox, key: Seq<char>, n: u64, item: KVItemView)
        requires
            spec_numeric_key_of(key) == Some(n),
            new.dense_item(n as int) == Some(item),
            forall|m: int| m != n ==> #[trigger] new.dense_item(m) == old.dense_item(m),
            string_item_entries(new.string_map) == string_item_entries(old.string_map),
            numeric_key_members(new.sparse_numeric_keys) == numeric_key_members(old.sparse_numeric_keys),
        ensures
            Self::only_changes(old, new, key, Some(item)),
    {
        assert forall|k: Seq<char>| #[trigger] new.item_of(k) == if k == key { Some(item) } else { old.item_of(k) } by {
            if k != key {
                if let Some(m) = spec_numeric_key_of(k) {
                    if m == n {
                        lemma_numeric_key_injective(k, key);
                    }
                    assert(new.dense_item(m as int) == old.dense_item(m as int));
                }
            }
        }
    }

    /// An entry put among the string keys under `key`, where a lookup of `key` goes, is
    /// found under `key` and nowhere else.
    proof fn lemma_string_set(old: KVBox, new: KVBox, key: Seq<char>, item: KVItemView)
        requires
            string_item_entries(new.string_map) == string_item_entries(old.string_map).insert(key, item),
            forall|m: int| #[trigger] new.dense_item(m) == old.dense_item(m),
            spec_numeric_key_of(key) matches Some(n) ==> new.dense_item(n as int) is None && new.is_sparse(n),
            forall|m: u64| spec_numeric_key_of(key) != Some(m) ==> #[trigger] new.is_sparse(m) == old.is_sparse(m),
        ensures
            Self::only_changes(old, new, key, Some(item)),
    {
        assert forall|k: Seq<char>| #[trigger] new.item_of(k) == if k == key { Some(item) } else { old.item_of(k) } by {
            if k != key {
                if let Some(m) = spec_numeric_key_of(k) {
                    if spec_numeric_key_of(key) == Some(m) {
                        lemma_numeric_key_injective(k, key);
                    }
                    assert(new.dense_item(m as int) == old.dense_item(m as int));
                    assert(new.is_sparse(m) == old.is_sparse(m));
                }
            }
        }
    }

    /// Forgetting that `key`'s number is kept among the string keys changes nothing when no
    /// entry is kept there under `key`.
    proof fn lemma_sparse_drop(old: KVBox, new: KVBox, key: Seq<char>, n: u64)
        requires
            spec_numeric_key_of(key) == Some(n),
            old.string_item(key) is None,
            string_item_entries(new.string_map) == string_item_entries(old.string_map),
            forall|m: int| #[trigger] new.dense_item(m) == old.dense_item(m),
            numeric_key_members(new.sparse_numeric_keys) == numeric_key_members(old.sparse_numeric_keys).remove(n),
        ensures
            forall|k: Seq<char>| #[trigger] new.item_of(k) == old.item_of(k),
    {
        assert forall|k: Seq<char>| #[trigger] new.item_of(k) == old.item_of(k) by {
            if let Some(m) = spec_numeric_key_of(k) {
                if m == n {
                    lemma_numeric_key_injective(k, key);
                }
                assert(new.dense_item(m as int) == old.dense_item(m as int));
            }
        }
    }

    /// Entries that stay the same stay consistent while the key map file only grows.
    proof fn lemma_items_ok_kept(start: KVBox, now: KVBox)
        requires
            start.wf(),
            forall|k: Seq<char>| #[trigger] now.item_of(k) == start.item_of(k),
            now.map_file is Some <==> start.map_file is Some,
            start.map_file matches Some(f) ==> now.map_file->Some_0.actual_length >= f.actual_length,
        ensures
            forall|k: Seq<char>| #[trigger] now.item_of(k) is Some ==> now.item_ok(now.item_of(k)->Some_0),
    {
        assert forall|k: Seq<char>| #[trigger] now.item_of(k) is Some implies now.item_ok(now.item_of(k)->Some_0) by {
            assert(now.item_of(k) == start.item_of(k));
            assert(start.item_ok(start.item_of(k)->Some_0));
        }
    }

    /// After a change to one key, the view is the old one with that key's new value, and the
    /// entries stay consistent.
    proof fn lemma_view_after_change(old: KVBox, new: KVBox, key: Seq<char>, item: KVItemView)
        requires
            Self::only_changes(old, new, key, Some(item)),
        ensures
            new@ == old@.insert(key, item.value),
    {
        assert(new@ =~= old@.insert(key, item.value));
    }

    /// The entry under `key`.
    fn lookup_item(&self, key: &str) -> (r: Option<&KVItem>)
        ensures
            match r {
                Some(item) => self.item_of(key@) == Some(item@),
                None => self.item_of(key@) is None,
            },
    {
        match parse_dense_numeric_key(key) {
            Some(numeric_key) => {
                match self.get_numeric_item(numeric_key) {
                    Some(item) => Some(item),
                    None => if self.sparse_numeric_keys.contains(numeric_key) {
                        self.string_map.get(key)
                    } else {
                        None
                    },
                }
            },
            None => self.string_map.get(key),
        }
    }

    /// The entry in slot `numeric_key` of the dense array.
    fn get_numeric_item(&self, numeric_key: u64) -> (r: Option<&KVItem>)
        ensures
            match r {
                Some(item) => self.dense_item(numeric_key as int) == Some(item@),
                None => self.dense_item(numeric_key as int) is None,
            },
    {
        if numeric_key >= self.numeric_items.len() as u64 {
            return None;
        }
        match &self.numeric_items[numeric_key as usize] {
            Some(item) => Some(item),
            None => None,
        }
    }

    /// The bytes of the key map record of a key.
    fn record_bytes(key_bytes: &[u8], value_type: u8, id: u64) -> (r: Vec<u8>)
        ensures
            r@ == kv_record(key_bytes@, value_type, id),
    {
        let mut buffer: Vec<u8> = Vec::new();
        let length = i32_to_bytes(key_bytes.len() as i32);
        buffer.push(length[0]);
        buffer.push(length[1]);
        buffer.push(length[2]);
        buffer.push(length[3]);
        buffer.push(value_type);
        let id_bytes = u64_to_bytes(id);
        let mut j: usize = 0;
        while j < 8
            invariant
                j <= 8,
                buffer@ =~= spec_i32_to_bytes(key_bytes@.len() as i32) + seq![value_type] + id_bytes@.subrange(0, j as int),
            decreases 8 - j,
        {
            buffer.push(id_bytes[j]);
            j = j + 1;
            assert(buffer@ =~= spec_i32_to_bytes(key_bytes@.len() as i32) + seq![value_type] + id_bytes@.subrange(0, j as int));
        }
        let n = key_bytes.len();
        let mut k: usize = 0;
        while k < n
            invariant
                n == key_bytes@.len(),
                k <= n,
                buffer@ =~= spec_i32_to_bytes(key_bytes@.len() as i32) + seq![value_type] + spec_u64_to_bytes(id) + key_bytes@.subrange(0, k as int),
            decreases n - k,
        {
            buffer.push(key_bytes[k]);
            k = k + 1;
            assert(buffer@ =~= spec_i32_to_bytes(key_bytes@.len() as i32) + seq![value_type] + spec_u64_to_bytes(id) + key_bytes@.subrange(0, k as int));
        }
        assert(key_bytes@.subrange(0, n as int) =~= key_bytes@);
        buffer
    }

    /// Appends the record of `key` to the key map file and gives its position.
    fn write_kv_item_record(&mut self, key: &str, id: u64, value_type: u8) -> (r: Result<u64>)
        requires
            old(self).wf(),
        ensures
            final(self).wf(),
            final(self).basic == old(self).basic,
            final(self).string_map == old(self).string_map,
            final(self).numeric_items == old(self).numeric_items,
            final(self).sparse_numeric_keys == old(self).sparse_numeric_keys,
            final(self).numeric_len == old(self).numeric_len,
            final(self).map_file is Some <==> old(self).map_file is Some,
            old(self).map_file matches Some(f) ==> final(self).map_file->Some_0.actual_length >= f.actual_length,
            match r {
                Ok(p) => {
                    let klen = vstd::utf8::encode_utf8(key@).len();
                    &&& p == old(self).map_file_append_position
                    &&& old(self).map_file is Some
                    &&& final(self).map_file->Some_0.bytes() == old(self).map_file->Some_0.written(
                        p as int,
                        kv_record(vstd::utf8::encode_utf8(key@), value_type, id),
                    )
                    &&& final(self).map_file->Some_0.actual_length == p + KV_ITEM_FIX_LENGTH + klen
                    &&& final(self).map_file_append_position == p + KV_ITEM_FIX_LENGTH + klen
                },
                Err(e) => e is Corrupt || e is FileTooLarge,
            },
            old(self).map_file is None && old(self).map_file_append_position + KV_ITEM_FIX_LENGTH
                + vstd::utf8::encode_utf8(key@).len() <= MAX_STORE_POSITION ==> (r matches Err(
                GuiXuError::Corrupt(_),
            )),
            ({
                let klen = vstd::utf8::encode_utf8(key@).len();
                old(self).map_file is Some && old(self).map_file_append_position + KV_ITEM_FIX_LENGTH
                    + klen <= MAX_STORE_POSITION && old(self).map_file->Some_0.write_fits(
                    old(self).map_file_append_position as int,
                    (KV_ITEM_FIX_LENGTH + klen) as int,
                ) ==> r is Ok
            }),
    {
        let key_bytes = key.as_bytes();
        let position = self.map_file_append_position;
        if key_bytes.len() as u64 > MAX_STORE_POSITION - position
            || KV_ITEM_FIX_LENGTH > MAX_STORE_POSITION - position - key_bytes.len() as u64 {
            return Err(GuiXuError::FileTooLarge(position));
        }
        self.map_file_append_position = position + KV_ITEM_FIX_LENGTH + key_bytes.len() as u64;
        let buffer = Self::record_bytes(key_bytes, value_type, id);
        let ghost before = *self;
        proof {
            assert forall|k: Seq<char>| #[trigger] self.item_of(k) is Some implies self.item_ok(self.item_of(k)->Some_0) by {
                assert(self.item_of(k) == old(self).item_of(k));
                assert(old(self).item_ok(old(self).item_of(k)->Some_0));
            }
        }
        match &mut self.map_file {
            Some(f) => {
                f.write_all_at(position, buffer.as_slice())?;
            },
            None => {
                return Err(GuiXuError::Corrupt("kv map file is closed".to_string()));
            },
        }
        self.map_capacity_dirty = true;
        proof {
            assert forall|k: Seq<char>| #[trigger] self.item_of(k) is Some implies self.item_ok(self.item_of(k)->Some_0) by {
                assert(self.item_of(k) == before.item_of(k));
                assert(old(self).item_ok(old(self).item_of(k)->Some_0));
            }
        }
        Ok(position)
    }

    /// Rewrites the type code in the record at `file_position`, when `value_type` may
    /// replace `old_value_type`, and gives the updated entry.
    fn update_kv_item(
        &mut self,
        file_position: u64,
        id: u64,
        old_value_type: u8,
        value_type: u8,
        value: KVValue,
    ) -> (r: Result<KVItem>)
        requires
            old(self).wf(),
            old(self).map_file matches Some(f) ==> file_position + 5 <= f.actual_length,
        ensures
            final(self).basic == old(self).basic,
            final(self).string_map == old(self).string_map,
            final(self).numeric_items == old(self).numeric_items,
            final(self).sparse_numeric_keys == old(self).sparse_numeric_keys,
            final(self).numeric_len == old(self).numeric_len,
            final(self).map_file_append_position == old(self).map_file_append_position,
            final(self).map_capacity_dirty == old(self).map_capacity_dirty,
            final(self).map_file is Some <==> old(self).map_file is Some,
            old(self).map_file matches Some(f) ==> final(self).map_file->Some_0.wf()
                && final(self).map_file->Some_0.actual_length == f.actual_length,
            old_value_type != VALUE_TYPE_DELETE && old_value_type != value_type ==> r
                == Err::<KVItem, GuiXuError>(
                GuiXuError::TypeError { stored: old_value_type, expected: value_type },
            ) && final(self).map_file == old(self).map_file,
            !(old_value_type != VALUE_TYPE_DELETE && old_value_type != value_type) ==> match r {
                Ok(item) => {
                    &&& old(self).map_file is Some
                    &&& item@ == (KVItemView { file_position, id, value_type, value: value@ })
                    &&& final(self).map_file->Some_0.bytes() == old(self).map_file->Some_0.bytes().update(
                        file_position + 4,
                        value_type,
                    )
                },
                Err(e) => old(self).map_file is None && e is Corrupt,
            },
    {
        if old_value_type != VALUE_TYPE_DELETE && old_value_type != value_type {
            return Err(GuiXuError::TypeError { stored: old_value_type, expected: value_type });
        }
        match &mut self.map_file {
            Some(f) => {
                proof {
                    lemma_written_byte(*f, file_position + 4, value_type);
                }
                f.write_u8(file_position + 4, value_type)?;
            },
            None => {
                return Err(GuiXuError::Corrupt("kv map file is closed".to_string()));
            },
        }
        Ok(KVItem { file_position, id, value_type, value })
    }

    /// Whether the number `numeric_key` may be stored in the dense array.
    fn can_set_numeric_item(&self, numeric_key: u64) -> (r: Result<bool>)
        ensures
            numeric_key <= usize::MAX ==> r == Ok::<bool, GuiXuError>(
                spec_should_store_dense_numeric(self.numeric_items@.len() as int, numeric_key as int),
            ),
            numeric_key > usize::MAX ==> r == Err::<bool, GuiXuError>(GuiXuError::FileTooLarge(numeric_key)),
    {
        let index = crate::file_access::to_usize(numeric_key)?;
        Ok(should_store_dense_numeric(self.numeric_items.len(), index))
    }

    /// Puts `item` in slot `numeric_key` of the dense array, growing it with empty slots.
    fn set_numeric_item(&mut self, numeric_key: u64, item: KVItem) -> (r: Result<()>)
        requires
            old(self).numeric_len == count_some(old(self).numeric_items@),
        ensures
            final(self).basic == old(self).basic,
            final(self).string_map == old(self).string_map,
            final(self).sparse_numeric_keys == old(self).sparse_numeric_keys,
            final(self).map_file == old(self).map_file,
            final(self).map_file_append_position == old(self).map_file_append_position,
            final(self).map_capacity_dirty == old(self).map_capacity_dirty,
            final(self).numeric_len == count_some(final(self).numeric_items@),
            numeric_key <= usize::MAX ==> r is Ok,
            r is Ok ==> {
                &&& final(self).dense_item(numeric_key as int) == Some(item@)
                &&& forall|m: int| m != numeric_key ==> #[trigger] final(self).dense_item(m) == old(self).dense_item(m)
            },
            r is Err ==> final(self).numeric_items == old(self).numeric_items && r->Err_0 is FileTooLarge,
    {
        let index = crate::file_access::to_usize(numeric_key)?;
        let ghost before = self.numeric_items@;
        if index == self.numeric_items.len() {
            self.numeric_items.push(Some(item));
            let _ = self.numeric_items.len();
            proof {
                lemma_count_some_push_some(before, item);
                lemma_count_some_bound(before);
            }
            self.numeric_len = self.numeric_len + 1;
            proof {
                assert forall|m: int| m != numeric_key implies #[trigger] self.dense_item(m) == old(self).dense_item(m) by {
                    if 0 <= m < before.len() {
                        assert(self.numeric_items@[m] == before[m]);
                    }
                }
            }
            return Ok(());
        }
        while self.numeric_items.len() <= index
            invariant
                self.numeric_len == count_some(self.numeric_items@),
                self.numeric_items@.len() >= before.len(),
                self.numeric_items@.subrange(0, before.len() as int) == before,
                forall|m: int| before.len() <= m < self.numeric_items@.len() ==> #[trigger] self.numeric_items@[m] is None,
                self.basic == old(self).basic,
                self.string_map == old(self).string_map,
                self.sparse_numeric_keys == old(self).sparse_numeric_keys,
                self.map_file == old(self).map_file,
                self.map_file_append_position == old(self).map_file_append_position,
                self.map_capacity_dirty == old(self).map_capacity_dirty,
            decreases index + 1 - self.numeric_items@.len(),
        {
            let ghost pre = self.numeric_items@;
            self.numeric_items.push(None);
            proof {
                lemma_count_some_push_none(pre);
                assert(self.numeric_items@.subrange(0, before.len() as int) =~= pre.subrange(0, before.len() as int));
            }
        }
        let ghost grown = self.numeric_items@;
        let was_empty = self.numeric_items[index].is_none();
        proof {
            lemma_count_some_update(grown, index as int, item);
            if was_empty {
                lemma_count_some_bound(grown);
            }
        }
        self.numeric_items.set(index, Some(item));
        if was_empty {
            self.numeric_len = self.numeric_len + 1;
        }
        proof {
            assert forall|m: int| m != numeric_key implies #[trigger] self.dense_item(m) == old(self).dense_item(m) by {
                if 0 <= m < before.len() {
                    assert(grown[m] == before[m]);
                }
            }
        }
        Ok(())
    }


    /// Reads the record at `cursor` of the key map file: its key's bytes, type code and id.
    fn read_record(map_file: &AutoIncreaseFileAccess, cursor: u64) -> (r: Result<(Vec<u8>, u8, u64)>)
        requires
            map_file.wf(),
            cursor < map_file.actual_length,
        ensures
            match r {
                Ok((key, value_type, id)) => record_at(map_file.bytes(), cursor as int, map_file.actual_length as int)
                    == Some(MapRecord { position: cursor, key: key@, value_type, id }),
                Err(e) => record_at(map_file.bytes(), cursor as int, map_file.actual_length as int) is None
                    && e is Corrupt,
            },
    {
        let length = map_file.length();
        if length - cursor < KV_ITEM_FIX_LENGTH {
            return Err(GuiXuError::Corrupt("kv map record is cut short".to_string()));
        }
        let key_length = map_file.read_i32(cursor)?;
        if key_length < 0 || key_length as u64 > length - cursor - KV_ITEM_FIX_LENGTH {
            return Err(GuiXuError::Corrupt("kv map record has a bad key length".to_string()));
        }
        let value_type = map_file.read_u8(cursor + 4)?;
        let id = map_file.read_u64(cursor + 5)?;
        let key = map_file.read_exact_at(cursor + KV_ITEM_FIX_LENGTH, key_length as usize)?;
        Ok((key, value_type, id))
    }

    /// The value that a record of type `value_type` and id `id` holds.
    fn load_value(basic: &BasicBox, value_type: u8, id: u64) -> (r: Result<KVValue>)
        requires
            basic.wf(),
        ensures
            match r {
                Ok(v) => stored_value(value_type, id, *basic) == Some(v@),
                Err(e) => stored_value(value_type, id, *basic) is None && (e is Corrupt || e is EntryNotFound
                    || e is TypeError || e is FileTooLarge),
            },
    {
        if value_type == VALUE_TYPE_DELETE {
            return Ok(KVValue::Deleted);
        }
        let bytes = basic.get_byte(id)?;
        byte_array_to_value(bytes.as_slice(), value_type)
    }


    /// Opens the key/value box over the entry box `basic` and the key map file `map_file`,
    /// loading every record of the key map: a numeric key goes to the dense array when its
    /// number lands near the end of it, any other key among the string keys. It fails when
    /// a record is cut short, its key is not UTF-8, or its value cannot be read.
    pub fn open(basic: BasicBox, map_file: AutoIncreaseFileAccess) -> (r: Result<KVBox>)
        requires
            basic.wf(),
            map_file.wf(),
        ensures
            match r {
                Ok(b) => {
                    &&& b.wf()
                    &&& b.basic == basic
                    &&& b.map_file == Some(map_file)
                    &&& b.map_file_append_position == map_file.actual_length
                    &&& !b.map_capacity_dirty
                    &&& map_loadable(map_file, basic)
                    &&& forall|k: Seq<char>| #[trigger] b.item_of(k) == entry_in(loaded_entries(map_file, basic), k)
                    &&& b@ == loaded_view(map_file, basic)
                    &&& records_sound(
                        parse_records(map_file.bytes(), 4, map_file.actual_length as int)->Some_0,
                        basic,
                    ) ==> b.persisted()
                },
                Err(e) => {
                    &&& !map_loadable(map_file, basic) || map_file.actual_length > MAX_STORE_POSITION
                    &&& e is Corrupt || e is EntryNotFound || e is TypeError || e is FileTooLarge
                },
            },
            map_loadable(map_file, basic) && map_file.actual_length <= MAX_STORE_POSITION ==> r is Ok,
            map_file.actual_length < 4 ==> r matches Err(GuiXuError::Corrupt(_)),
            4 <= map_file.actual_length <= MAX_STORE_POSITION && (first_failure(
                map_file.bytes(),
                4,
                map_file.actual_length as int,
                basic,
            ) is Some) ==> r is Err,
            4 <= map_file.actual_length <= MAX_STORE_POSITION && (first_failure(
                map_file.bytes(),
                4,
                map_file.actual_length as int,
                basic,
            ) matches Some(f) && !(f is Unreadable)) ==> (r matches Err(GuiXuError::Corrupt(_))),
    {
        let length = map_file.length();
        if length < 4 {
            return Err(GuiXuError::Corrupt("kv map file is shorter than 4 bytes".to_string()));
        }
        if length > MAX_STORE_POSITION {
            return Err(GuiXuError::FileTooLarge(length));
        }
        let capacity = map_file.read_i32(0)?;
        let mut string_map = StringItemMap::new();
        string_map.reserve(if capacity < 0 { 0 } else { capacity as usize });
        let ghost img = map_file.bytes();
        let ghost len = length as int;
        let ghost mf = map_file;
        let mut kv = KVBox {
            basic,
            string_map,
            numeric_items: Vec::new(),
            sparse_numeric_keys: NumericKeySet::new(),
            numeric_len: 0,
            map_file: Some(map_file),
            map_file_append_position: length,
            map_capacity_dirty: false,
        };
        let ghost mut done: Seq<MapRecord> = seq![];
        proof {
            assert forall|k: Seq<char>| #[trigger] kv.item_of(k) == entry_in(loaded_items(done, basic), k) by {
                if let Some(n) = spec_numeric_key_of(k) {
                    assert(kv.dense_item(n as int) is None);
                }
            }
            assert(parse_records(img, 4, len) == chain(done, parse_records(img, 4, len))) by {
                match parse_records(img, 4, len) {
                    Some(s) => assert(done + s =~= s),
                    None => {},
                }
            }
        }
        let mut cursor: u64 = 4;
        while cursor < length
            invariant
                4 <= cursor <= length,
                mf == map_file,
                length == mf.actual_length,
                length <= MAX_STORE_POSITION,
                mf.wf(),
                img == mf.bytes(),
                len == length,
                basic.wf(),
                kv.wf(),
                kv.basic == basic,
                kv.map_file == Some(mf),
                kv.map_file_append_position == length,
                !kv.map_capacity_dirty,
                parse_records(img, 4, len) == chain(done, parse_records(img, cursor as int, len)),
                first_failure(img, 4, len, basic) == first_failure(img, cursor as int, len, basic),
                forall|i: int| 0 <= i < done.len() ==> #[trigger] record_loadable(done[i], basic),
                forall|k: Seq<char>| #[trigger] kv.item_of(k) == entry_in(loaded_items(done, basic), k),
            decreases length - cursor,
        {
            let read = match &kv.map_file {
                Some(f) => Self::read_record(f, cursor),
                None => Err(GuiXuError::Corrupt("kv map file is closed".to_string())),
            };
            let (key_bytes, value_type, id) = match read {
                Ok(rec) => rec,
                Err(e) => {
                    proof {
                        assert(parse_records(img, cursor as int, len) is None);
                    }
                    return Err(e);
                },
            };
            let ghost r = MapRecord { position: cursor, key: key_bytes@, value_type, id };
            let next = cursor + KV_ITEM_FIX_LENGTH + key_bytes.len() as u64;
            proof {
                assert(parse_records(img, cursor as int, len) == chain(seq![r], parse_records(img, next as int, len)));
                match parse_records(img, next as int, len) {
                    Some(s) => {
                        assert(done + (seq![r] + s) =~= done.push(r) + s);
                        assert((done.push(r) + s)[done.len() as int] == r);
                    },
                    None => {},
                }
            }
            let value = match Self::load_value(&kv.basic, value_type, id) {
                Ok(v) => v,
                Err(e) => {
                    proof {
                        assert(!record_loadable(r, basic));
                    }
                    return Err(e);
                },
            };
            let item = KVItem { file_position: cursor, id, value_type, value };
            assert(item@ == record_item(r, basic));
            let numeric_key = parse_dense_numeric_key_bytes(key_bytes.as_slice());
            let dense = match numeric_key {
                Some(n) => should_store_dense_numeric(kv.numeric_items.len(), n as usize),
                None => false,
            };
            let ghost start = kv;
            let ghost key = vstd::utf8::decode_utf8(r.key);
            if dense {
                let n = numeric_key.unwrap();
                proof {
                    lemma_digits_utf8(key_bytes@);
                }
                match kv.set_numeric_item(n, item) {
                    Ok(()) => {},
                    Err(e) => {
                        return Err(e);
                    },
                }
                proof {
                    Self::lemma_dense_set(start, kv, key, n, item@);
                }
            } else {
                let key_string = match string_from_utf8(key_bytes) {
                    Ok(s) => s,
                    Err(message) => {
                        proof {
                            assert(!record_loadable(r, basic));
                        }
                        return Err(GuiXuError::Corrupt(message));
                    },
                };
                proof {
                    vstd::utf8::decode_utf8_encode_utf8(r.key);
                }
                match numeric_key {
                    Some(n) => {
                        kv.sparse_numeric_keys.insert(n);
                    },
                    None => {},
                }
                kv.string_map.insert(key_string, item);
                proof {
                    Self::lemma_string_set(start, kv, key, item@);
                }
            }
            proof {
                assert(done.push(r).drop_last() =~= done);
                assert forall|k: Seq<char>| #[trigger] kv.item_of(k) is Some implies kv.item_ok(kv.item_of(k)->Some_0) by {
                    if k != key {
                        assert(start.item_ok(start.item_of(k)->Some_0));
                    }
                }
                assert forall|i: int| 0 <= i < done.push(r).len() implies #[trigger] record_loadable(done.push(r)[i], basic) by {
                    if i < done.len() {
                        assert(done.push(r)[i] == done[i]);
                    }
                }
                done = done.push(r);
            }
            cursor = next;
        }
        proof {
            assert(parse_records(img, cursor as int, len) == Some(Seq::<MapRecord>::empty()));
            assert(done + Seq::<MapRecord>::empty() =~= done);
            assert(kv@ =~= loaded_view(mf, basic));
        }
        Ok(kv)
    }

    /// Appends the record of `key` and gives the new entry.
    fn add_kv_item(&mut self, key: &str, id: u64, value_type: u8, value: KVValue) -> (r: Result<KVItem>)
        requires
            old(self).wf(),
        ensures
            final(self).wf(),
            final(self).basic == old(self).basic,
            final(self).string_map == old(self).string_map,
            final(self).numeric_items == old(self).numeric_items,
            final(self).sparse_numeric_keys == old(self).sparse_numeric_keys,
            final(self).numeric_len == old(self).numeric_len,
            final(self).map_file is Some <==> old(self).map_file is Some,
            old(self).map_file matches Some(f) ==> final(self).map_file->Some_0.actual_length >= f.actual_length,
            match r {
                Ok(item) => {
                    &&& item@ == (KVItemView { file_position: old(self).map_file_append_position, id, value_type, value: value@ })
                    &&& final(self).map_file->Some_0.actual_length >= item.file_position + 5
                    &&& final(self).map_file->Some_0.actual_length == item.file_position + KV_ITEM_FIX_LENGTH
                        + vstd::utf8::encode_utf8(key@).len()
                    &&& final(self).map_file_append_position == final(self).map_file->Some_0.actual_length
                    &&& final(self).map_file->Some_0.bytes() == old(self).map_file->Some_0.written(
                        item.file_position as int,
                        kv_record(vstd::utf8::encode_utf8(key@), value_type, id),
                    )
                },
                Err(e) => e is Corrupt || e is FileTooLarge,
            },
            old(self).map_file is None && old(self).map_file_append_position + KV_ITEM_FIX_LENGTH
                + vstd::utf8::encode_utf8(key@).len() <= MAX_STORE_POSITION ==> (r matches Err(
                GuiXuError::Corrupt(_),
            )),
            ({
                let klen = vstd::utf8::encode_utf8(key@).len();
                old(self).map_file is Some && old(self).map_file_append_position + KV_ITEM_FIX_LENGTH
                    + klen <= MAX_STORE_POSITION && old(self).map_file->Some_0.write_fits(
                    old(self).map_file_append_position as int,
                    (KV_ITEM_FIX_LENGTH + klen) as int,
                ) ==> r is Ok
            }),
    {
        let position = self.write_kv_item_record(key, id, value_type)?;
        Ok(KVItem { file_position: position, id, value_type, value })
    }

    /// Writes `value` over the entry in the dense slot of `key`'s number.
    fn put_dense_existing(
        &mut self,
        numeric_key: u64,
        key: &str,
        value_type: u8,
        value: KVValue,
        bytes: &[u8],
    ) -> (r: Result<()>)
        requires
            old(self).wf(),
            spec_numeric_key_of(key@) == Some(numeric_key),
            old(self).dense_item(numeric_key as int) is Some,
            !(value@ is Deleted),
            spec_kind(value@) == value_type,
            bytes@ == spec_encode_value(value@),
        ensures
            final(self).wf(),
            put_done(*old(self), *final(self), key@, value@, r),
    {
        assert(old(self).item_of(key@) == old(self).dense_item(numeric_key as int));
        assert(old(self).item_ok(old(self).item_of(key@)->Some_0));
        let index = numeric_key as usize;
        let (file_position, id, old_value_type) = match &self.numeric_items[index] {
            Some(old) => (old.file_position, old.id, old.value_type),
            None => {
                assert(false);
                return Err(GuiXuError::Corrupt("kv entry is missing".to_string()));
            },
        };
        let ghost start = *self;
        let result = self.update_kv_item(file_position, id, old_value_type, value_type, value);
        proof {
            assert forall|k: Seq<char>| #[trigger] self.item_of(k) == start.item_of(k) by {}
            Self::lemma_items_ok_kept(start, *self);
            assert(self@ =~= start@);
        }
        let item = result?;
        if id > MAX_ENTRY_ID {
            return Err(GuiXuError::FileTooLarge(id));
        }
        let appended = self.basic.append_store(id, bytes);
        proof {
            assert forall|k: Seq<char>| #[trigger] self.item_of(k) == start.item_of(k) by {}
            Self::lemma_items_ok_kept(start, *self);
        }
        appended?;
        let ghost before_set = self.numeric_items@;
        proof {
            lemma_count_some_update(before_set, index as int, item);
        }
        self.numeric_items.set(index, Some(item));
        proof {
            assert forall|m: int| m != numeric_key implies #[trigger] self.dense_item(m) == start.dense_item(m) by {
                if 0 <= m < before_set.len() {
                    assert(self.numeric_items@[m] == before_set[m]);
                }
            }
            Self::lemma_dense_set(start, *self, key@, numeric_key, item@);
            Self::lemma_view_after_change(start, *self, key@, item@);
            if start.persisted() && bytes@.len() > 0 {
                lemma_decode_encode(value@);
                Self::lemma_persist_retype(start, *self, key@, item@);
            }
            assert forall|k: Seq<char>| #[trigger] self.item_of(k) is Some implies self.item_ok(self.item_of(k)->Some_0) by {
                if k != key@ {
                    assert(start.item_ok(start.item_of(k)->Some_0));
                }
            }
        }
        Ok(())
    }

    /// Writes `value` over the entry under `key` among the string keys, where a lookup of
    /// `key` goes.
    fn put_string_existing(&mut self, key: &str, value_type: u8, value: KVValue, bytes: &[u8]) -> (r: Result<()>)
        requires
            old(self).wf(),
            old(self).string_item(key@) is Some,
            old(self).item_of(key@) == old(self).string_item(key@),
            spec_numeric_key_of(key@) matches Some(n) ==> old(self).dense_item(n as int) is None
                && old(self).is_sparse(n),
            !(value@ is Deleted),
            spec_kind(value@) == value_type,
            bytes@ == spec_encode_value(value@),
        ensures
            final(self).wf(),
            put_done(*old(self), *final(self), key@, value@, r),
    {
        assert(old(self).item_ok(old(self).item_of(key@)->Some_0));
        let (file_position, id, old_value_type) = match self.string_map.get(key) {
            Some(old) => (old.file_position, old.id, old.value_type),
            None => {
                assert(false);
                return Err(GuiXuError::Corrupt("kv entry is missing".to_string()));
            },
        };
        let ghost start = *self;
        let result = self.update_kv_item(file_position, id, old_value_type, value_type, value);
        proof {
            assert forall|k: Seq<char>| #[trigger] self.item_of(k) == start.item_of(k) by {}
            Self::lemma_items_ok_kept(start, *self);
            assert(self@ =~= start@);
        }
        let item = result?;
        if id > MAX_ENTRY_ID {
            return Err(GuiXuError::FileTooLarge(id));
        }
        let appended = self.basic.append_store(id, bytes);
        proof {
            assert forall|k: Seq<char>| #[trigger] self.item_of(k) == start.item_of(k) by {}
            Self::lemma_items_ok_kept(start, *self);
        }
        appended?;
        let ghost item_view = item@;
        self.string_map.insert(key.to_owned(), item);
        proof {
            Self::lemma_string_set(start, *self, key@, item_view);
            Self::lemma_view_after_change(start, *self, key@, item_view);
            assert forall|k: Seq<char>| #[trigger] self.item_of(k) is Some implies self.item_ok(self.item_of(k)->Some_0) by {
                if k != key@ {
                    assert(start.item_ok(start.item_of(k)->Some_0));
                }
            }
            if start.persisted() && bytes@.len() > 0 {
                lemma_decode_encode(value@);
                Self::lemma_persist_retype(start, *self, key@, item_view);
            }
        }
        Ok(())
    }

    /// Stores `value` under `key`, which has no entry: a fresh id, a new record, and the
    /// entry in the dense array when `key`'s number may go there, else among the string keys.
    fn put_new(
        &mut self,
        numeric_key: Option<u64>,
        key: &str,
        value_type: u8,
        value: KVValue,
        bytes: &[u8],
    ) -> (r: Result<()>)
        requires
            old(self).wf(),
            old(self).item_of(key@) is None,
            numeric_key == spec_numeric_key_of(key@),
            numeric_key matches Some(n) ==> old(self).dense_item(n as int) is None && !old(self).is_sparse(n),
            !(value@ is Deleted),
            spec_kind(value@) == value_type,
            bytes@ == spec_encode_value(value@),
        ensures
            final(self).wf(),
            put_done(*old(self), *final(self), key@, value@, r),
    {
        let ghost start = *self;
        let id = self.basic.check_id_and_get(0)?;
        proof {
            assert forall|k: Seq<char>| #[trigger] self.item_of(k) is Some implies self.item_ok(self.item_of(k)->Some_0) by {
                assert(self.item_of(k) == start.item_of(k));
                assert(start.item_ok(start.item_of(k)->Some_0));
            }
        }
        let item = self.add_kv_item(key, id, value_type, value)?;
        let ghost recorded = *self;
        let appended = self.basic.append_store(id, bytes);
        proof {
            assert forall|k: Seq<char>| #[trigger] self.item_of(k) == recorded.item_of(k) by {}
            Self::lemma_items_ok_kept(recorded, *self);
        }
        appended?;
        let ghost appended = *self;
        let ghost item_view = item@;
        match numeric_key {
            Some(n) => {
                if self.can_set_numeric_item(n)? {
                    self.set_numeric_item(n, item)?;
                    proof {
                        Self::lemma_dense_set(appended, *self, key@, n, item_view);
                    }
                } else {
                    self.string_map.insert(key.to_owned(), item);
                    self.sparse_numeric_keys.insert(n);
                    proof {
                        Self::lemma_string_set(appended, *self, key@, item_view);
                    }
                }
            },
            None => {
                self.string_map.insert(key.to_owned(), item);
                proof {
                    Self::lemma_string_set(appended, *self, key@, item_view);
                }
            },
        }
        proof {
            assert forall|k: Seq<char>| #[trigger] appended.item_of(k) == start.item_of(k) by {}
            Self::lemma_view_after_change(start, *self, key@, item_view);
            if start.persisted() && bytes@.len() > 0 && vstd::utf8::encode_utf8(key@).len() <= i32::MAX {
                lemma_decode_encode(value@);
                assert(Self::only_changes(start, *self, key@, Some(item_view)));
                Self::lemma_persist_append(start, *self, key@, item_view);
            }
            assert forall|k: Seq<char>| #[trigger] self.item_of(k) is Some implies self.item_ok(self.item_of(k)->Some_0) by {
                if k != key@ {
                    assert(appended.item_ok(appended.item_of(k)->Some_0));
                }
            }
        }
        Ok(())
    }

    /// Stores `value` under the numeric key `key`, whose number is `numeric_key`.
    fn put_numeric_data(
        &mut self,
        numeric_key: u64,
        key: &str,
        value_type: u8,
        value: KVValue,
        bytes: &[u8],
    ) -> (r: Result<()>)
        requires
            old(self).wf(),
            spec_numeric_key_of(key@) == Some(numeric_key),
            !(value@ is Deleted),
            spec_kind(value@) == value_type,
            bytes@ == spec_encode_value(value@),
        ensures
            final(self).wf(),
            put_done(*old(self), *final(self), key@, value@, r),
    {
        if self.get_numeric_item(numeric_key).is_some() {
            return self.put_dense_existing(numeric_key, key, value_type, value, bytes);
        }
        if self.sparse_numeric_keys.contains(numeric_key) {
            if self.string_map.get(key).is_some() {
                return self.put_string_existing(key, value_type, value, bytes);
            }
            let ghost start = *self;
            self.sparse_numeric_keys.remove(numeric_key);
            proof {
                Self::lemma_sparse_drop(start, *self, key@, numeric_key);
                assert(self@ =~= start@);
                assert forall|k: Seq<char>| #[trigger] self.item_of(k) is Some implies self.item_ok(self.item_of(k)->Some_0) by {
                    assert(start.item_ok(start.item_of(k)->Some_0));
                }
            }
        }
        self.put_new(Some(numeric_key), key, value_type, value, bytes)
    }

    /// Stores `value` under `key`, which is not numeric.
    fn put_string_key_data(&mut self, key: &str, value_type: u8, value: KVValue, bytes: &[u8]) -> (r: Result<()>)
        requires
            old(self).wf(),
            spec_numeric_key_of(key@) is None,
            !(value@ is Deleted),
            spec_kind(value@) == value_type,
            bytes@ == spec_encode_value(value@),
        ensures
            final(self).wf(),
            put_done(*old(self), *final(self), key@, value@, r),
    {
        if self.string_map.get(key).is_some() {
            self.put_string_existing(key, value_type, value, bytes)
        } else {
            self.put_new(None, key, value_type, value, bytes)
        }
    }

    /// Stores `value`, of type `value_type`, under `key`.
    fn put_data(&mut self, key: &str, value_type: u8, value: KVValue) -> (r: Result<()>)
        requires
            old(self).wf(),
            !(value@ is Deleted),
            spec_kind(value@) == value_type,
        ensures
            final(self).wf(),
            put_done(*old(self), *final(self), key@, value@, r),
    {
        let bytes = value_to_byte_array(&value, value_type)?;
        match parse_dense_numeric_key(key) {
            Some(numeric_key) => self.put_numeric_data(numeric_key, key, value_type, value, bytes.as_slice()),
            None => self.put_string_key_data(key, value_type, value, bytes.as_slice()),
        }
    }

    /// The error for a key without a live value.
    fn key_not_found(key: &str) -> (r: GuiXuError)
        ensures
            r matches GuiXuError::KeyNotFound(k) && k@ == key@,
    {
        GuiXuError::KeyNotFound(key.to_owned())
    }

    /// The value under `key`, if it is live and of type `expected_type`.
    fn get_data(&self, key: &str, expected_type: u8) -> (r: Result<KVValue>)
        requires
            self.wf(),
        ensures
            match self.get_outcome(key@, expected_type) {
                GetOutcome::NotFound => r matches Err(GuiXuError::KeyNotFound(k)) && k@ == key@,
                GetOutcome::WrongType(s) => r == Err::<KVValue, GuiXuError>(
                    GuiXuError::TypeError { stored: s, expected: expected_type },
                ),
                GetOutcome::Found(v) => r is Ok && r->Ok_0@ == v,
            },
    {
        let item = match self.lookup_item(key) {
            Some(item) => item,
            None => {
                return Err(Self::key_not_found(key));
            },
        };
        assert(self.item_ok(self.item_of(key@)->Some_0));
        if item.value_type == VALUE_TYPE_DELETE {
            return Err(Self::key_not_found(key));
        }
        if item.value_type != expected_type {
            return Err(GuiXuError::TypeError { stored: item.value_type, expected: expected_type });
        }
        Ok(item.value.clone_value())
    }

    /// Stores a `bool` under `key`.
    pub fn put_bool(&mut self, key: &str, data: bool) -> (r: Result<()>)
        requires
            old(self).wf(),
        ensures
            final(self).wf(),
            put_done(*old(self), *final(self), key@, ValueView::Bool(data), r),
    {
        self.put_data(key, VALUE_TYPE_BOOLEAN, KVValue::Bool(data))
    }

    /// Stores a byte under `key`.
    pub fn put_byte(&mut self, key: &str, data: u8) -> (r: Result<()>)
        requires
            old(self).wf(),
        ensures
            final(self).wf(),
            put_done(*old(self), *final(self), key@, ValueView::Byte(data), r),
    {
        self.put_data(key, VALUE_TYPE_BYTE, KVValue::Byte(data))
    }

    /// Stores an `i32` under `key`.
    pub fn put_int(&mut self, key: &str, data: i32) -> (r: Result<()>)
        requires
            old(self).wf(),
        ensures
            final(self).wf(),
            put_done(*old(self), *final(self), key@, ValueView::Int(data), r),
    {
        self.put_data(key, VALUE_TYPE_INT, KVValue::Int(data))
    }

    /// Stores a `u64` under `key`.
    pub fn put_long(&mut self, key: &str, data: u64) -> (r: Result<()>)
        requires
            old(self).wf(),
        ensures
            final(self).wf(),
            put_done(*old(self), *final(self), key@, ValueView::Long(data), r),
    {
        self.put_data(key, VALUE_TYPE_LONG, KVValue::Long(data))
    }

    /// Stores the bits of an `f32` under `key`.
    pub fn put_float_bits(&mut self, key: &str, data: u32) -> (r: Result<()>)
        requires
            old(self).wf(),
        ensures
            final(self).wf(),
            put_done(*old(self), *final(self), key@, ValueView::Float(data), r),
    {
        self.put_data(key, VALUE_TYPE_FLOAT, KVValue::Float(data))
    }

    /// Stores the bits of an `f64` under `key`.
    pub fn put_double_bits(&mut self, key: &str, data: u64) -> (r: Result<()>)
        requires
            old(self).wf(),
        ensures
            final(self).wf(),
            put_done(*old(self), *final(self), key@, ValueView::Double(data), r),
    {
        self.put_data(key, VALUE_TYPE_DOUBLE, KVValue::Double(data))
    }

    /// Stores the string `data` under `key`.
    pub fn put_string(&mut self, key: &str, data: &str) -> (r: Result<()>)
        requires
            old(self).wf(),
        ensures
            final(self).wf(),
            put_done(*old(self), *final(self), key@, ValueView::String(data@), r),
    {
        self.put_data(key, VALUE_TYPE_STRING, KVValue::String(data.to_owned()))
    }

    /// Stores bytes under `key`.
    pub fn put_byte_array(&mut self, key: &str, data: Vec<u8>) -> (r: Result<()>)
        requires
            old(self).wf(),
        ensures
            final(self).wf(),
            put_done(*old(self), *final(self), key@, ValueView::ByteArray(data@), r),
    {
        self.put_data(key, VALUE_TYPE_BYTE_ARRAY, KVValue::ByteArray(data))
    }

    /// Stores `i32`s under `key`.
    pub fn put_int_array(&mut self, key: &str, data: Vec<i32>) -> (r: Result<()>)
        requires
            old(self).wf(),
        ensures
            final(self).wf(),
            put_done(*old(self), *final(self), key@, ValueView::IntArray(data@), r),
    {
        self.put_data(key, VALUE_TYPE_INT_ARRAY, KVValue::IntArray(data))
    }

    /// Stores `u64`s under `key`.
    pub fn put_long_array(&mut self, key: &str, data: Vec<u64>) -> (r: Result<()>)
        requires
            old(self).wf(),
        ensures
            final(self).wf(),
            put_done(*old(self), *final(self), key@, ValueView::LongArray(data@), r),
    {
        self.put_data(key, VALUE_TYPE_LONG_ARRAY, KVValue::LongArray(data))
    }

    /// Stores the bits of `f32`s under `key`.
    pub fn put_float_array_bits(&mut self, key: &str, data: Vec<u32>) -> (r: Result<()>)
        requires
            old(self).wf(),
        ensures
            final(self).wf(),
            put_done(*old(self), *final(self), key@, ValueView::FloatArray(data@), r),
    {
        self.put_data(key, VALUE_TYPE_FLOAT_ARRAY, KVValue::FloatArray(data))
    }

    /// Stores the bits of `f64`s under `key`.
    pub fn put_double_array_bits(&mut self, key: &str, data: Vec<u64>) -> (r: Result<()>)
        requires
            old(self).wf(),
        ensures
            final(self).wf(),
            put_done(*old(self), *final(self), key@, ValueView::DoubleArray(data@), r),
    {
        self.put_data(key, VALUE_TYPE_DOUBLE_ARRAY, KVValue::DoubleArray(data))
    }

    /// Marks the entry under `key` as removed, in the entry box and in its record; a key
    /// without an entry is left alone.
    pub fn remove(&mut self, key: &str) -> (r: Result<()>)
        requires
            old(self).wf(),
        ensures
            final(self).wf(),
            match r {
                Ok(()) => if old(self).item_of(key@) is Some {
                    final(self)@ == old(self)@.insert(key@, ValueView::Deleted)
                } else {
                    final(self)@ == old(self)@
                },
                Err(e) => e is Corrupt || e is FileTooLarge,
            },
            old(self).can_remove(key@) ==> r is Ok,
            r is Ok && old(self).item_of(key@) is Some ==> final(self).basic.entry(
                old(self).item_of(key@)->Some_0.id as int,
            ) == Lookup::Missing,
            old(self).persisted() && r is Ok ==> final(self).persisted(),
            r is Ok ==> forall|t: u8| #[trigger] final(self).get_outcome(key@, t) == GetOutcome::NotFound,
            r is Ok && !(old(self)@.contains_key(key@) && !(old(self)@[key@] is Deleted)) ==> final(self)@
                == old(self)@,
            r is Ok ==> remove_reach(*old(self), *final(self)),
    {
        let numeric_key = parse_dense_numeric_key(key);
        let found: Option<(u64, u64, bool)> = match numeric_key {
            Some(n) => match self.get_numeric_item(n) {
                Some(item) => Some((item.file_position, item.id, true)),
                None => if self.sparse_numeric_keys.contains(n) {
                    match self.string_map.get(key) {
                        Some(item) => Some((item.file_position, item.id, false)),
                        None => None,
                    }
                } else {
                    None
                },
            },
            None => match self.string_map.get(key) {
                Some(item) => Some((item.file_position, item.id, false)),
                None => None,
            },
        };
        let (file_position, id, is_dense_numeric) = match found {
            Some(t) => t,
            None => {
                return Ok(());
            },
        };
        assert(self.item_ok(self.item_of(key@)->Some_0));
        if id > MAX_ENTRY_ID {
            return Err(GuiXuError::FileTooLarge(id));
        }
        let ghost start = *self;
        let removed = self.basic.remove_entry(id);
        proof {
            assert forall|k: Seq<char>| #[trigger] self.item_of(k) == start.item_of(k) by {}
            Self::lemma_items_ok_kept(start, *self);
        }
        removed?;
        let ghost mid = *self;
        match &mut self.map_file {
            Some(f) => {
                proof {
                    lemma_written_byte(*f, file_position + 4, VALUE_TYPE_DELETE);
                }
                let written = f.write_u8(file_position + 4, VALUE_TYPE_DELETE);
                proof {
                    assert forall|k: Seq<char>| #[trigger] self.item_of(k) == mid.item_of(k) by {}
                    Self::lemma_items_ok_kept(mid, *self);
                }
                written?;
            },
            None => {
                return Err(GuiXuError::Corrupt("kv map file is closed".to_string()));
            },
        }
        let ghost marked = *self;
        let item = KVItem { file_position, id, value_type: VALUE_TYPE_DELETE, value: KVValue::Deleted };
        let ghost item_view = item@;
        if is_dense_numeric {
            let index = numeric_key.unwrap() as usize;
            let ghost before_set = self.numeric_items@;
            proof {
                lemma_count_some_update(before_set, index as int, item);
            }
            self.numeric_items.set(index, Some(item));
            proof {
                assert forall|m: int| m != index implies #[trigger] self.dense_item(m) == marked.dense_item(m) by {
                    if 0 <= m < before_set.len() {
                        assert(self.numeric_items@[m] == before_set[m]);
                    }
                }
                Self::lemma_dense_set(marked, *self, key@, index as u64, item_view);
            }
        } else {
            self.string_map.insert(key.to_owned(), item);
            proof {
                Self::lemma_string_set(marked, *self, key@, item_view);
            }
        }
        proof {
            assert forall|k: Seq<char>| #[trigger] marked.item_of(k) == start.item_of(k) by {}
            Self::lemma_view_after_change(start, *self, key@, item_view);
            assert forall|k: Seq<char>| #[trigger] self.item_of(k) is Some implies self.item_ok(self.item_of(k)->Some_0) by {
                if k != key@ {
                    assert(marked.item_ok(marked.item_of(k)->Some_0));
                }
            }
            if start.persisted() {
                assert(self.basic.file_array@.drop_first() =~= start.basic.file_array@.drop_first());
                Self::lemma_persist_retype(start, *self, key@, item_view);
            }
        }
        Ok(())
    }

    /// Records the number of keys at the start of the key map file, when keys were added
    /// since it was last recorded.
    pub fn close(&mut self) -> (r: Result<()>)
        requires
            old(self).wf(),
        ensures
            final(self).wf(),
            final(self)@ == old(self)@,
            final(self).basic == old(self).basic,
            r is Ok,
            !final(self).map_capacity_dirty,
            old(self).persisted() ==> final(self).persisted(),
            ({
                    &&& old(self).map_capacity_dirty && old(self).map_file is Some ==> final(self).map_file->Some_0.bytes()
                        == old(self).map_file->Some_0.written(
                        0,
                        spec_i32_to_bytes(
                            capacity_word(string_item_entries(old(self).string_map).len() + old(self).numeric_len),
                        ),
                    )
                    &&& !(old(self).map_capacity_dirty && old(self).map_file is Some) ==> final(self).map_file == old(self).map_file
            }),
    {
        if self.map_capacity_dirty {
            let a: u64 = self.string_map.len() as u64 % 4294967296;
            let b: u64 = self.numeric_len as u64 % 4294967296;
            let count: u64 = (a + b) % 4294967296;
            let word = #[verifier::truncate] (((count as u32) << 1u32) as i32);
            proof {
                let x = string_item_entries(self.string_map).len() as int;
                let y = self.numeric_len as int;
                vstd::arithmetic::div_mod::lemma_add_mod_noop(x, y, 0x1_0000_0000);
                assert(count == (x + y) % 0x1_0000_0000);
            }
            let ghost start = *self;
            match &mut self.map_file {
                Some(f) => {
                    let ghost before = *f;
                    proof {
                        crate::byte_ops::lemma_i32_bytes_roundtrip(word);
                        lemma_written_read(before, 0, spec_i32_to_bytes(word));
                    }
                    let written = f.write_i32(0, word);
                    proof {
                        if written is Ok {
                            let len = before.actual_length as int;
                            assert forall|i: int| 4 <= i < len implies before.bytes()[i] == f.bytes()[i] by {
                                assert(f.bytes().subrange(4, len) == before.bytes().subrange(4, len));
                                assert(f.bytes().subrange(4, len)[i - 4] == f.bytes()[i]);
                                assert(before.bytes().subrange(4, len)[i - 4] == before.bytes()[i]);
                            }
                            crate::key_map::lemma_parse_frame(before.bytes(), f.bytes(), 4, len);
                        }
                        assert forall|k: Seq<char>| #[trigger] self.item_of(k) == start.item_of(k) by {}
                        Self::lemma_items_ok_kept(start, *self);
                        assert(self@ =~= start@);
                    }
                    written?;
                },
                None => {},
            }
            self.map_capacity_dirty = false;
            proof {
                assert forall|k: Seq<char>| #[trigger] self.item_of(k) == start.item_of(k) by {}
                Self::lemma_items_ok_kept(start, *self);
                assert(self@ =~= start@);
            }
        }
        Ok(())
    }

    /// The sizes of the files of the box; the key map file counts with the indexes.
    pub fn get_info(&self) -> (r: BoxInfo)
        requires
            self.wf(),
        ensures
            r.data_size == crate::basic_box::saturate(crate::basic_box::store_size_sum(self.basic.file_array@)),
            r.index_size == match self.map_file {
                Some(f) => crate::basic_box::saturate(
                    crate::basic_box::saturate(crate::basic_box::index_size_sum(self.basic.file_array@)) + f.file_size,
                ),
                None => crate::basic_box::saturate(crate::basic_box::index_size_sum(self.basic.file_array@)),
            },
            ({
                let files = self.basic.file_array@;
                let (data, index) = if files.len() == 0 {
                    (0int, 0int)
                } else if files.len() == 1 {
                    (files[0].store_file.file_size as int, files[0].index_file.file_size as int)
                } else {
                    (
                        files[0].store_file.file_size + files[1].store_file.file_size,
                        files[0].index_file.file_size + files[1].index_file.file_size,
                    )
                };
                &&& r.data_size == crate::basic_box::saturate(data)
                &&& r.index_size == match self.map_file {
                    Some(f) => crate::basic_box::saturate(crate::basic_box::saturate(index) + f.file_size),
                    None => crate::basic_box::saturate(index),
                }
            }),
    {
        let mut info = self.basic.get_info();
        match &self.map_file {
            Some(f) => {
                info.index_size = info.index_size.saturating_add(f.file_size());
            },
            None => {},
        }
        info
    }

    /// Lets go of every file and entry; the box then holds nothing until it is opened again.
    pub fn clear(&mut self)
        requires
            old(self).wf(),
        ensures
            final(self).wf(),
            final(self).map_file is None,
            final(self).basic.file_array@.len() == 0,
            final(self).basic.next_id == old(self).basic.next_id,
            final(self).map_file_append_position == 0,
            final(self)@ == Map::<Seq<char>, ValueView>::empty(),
    {
        self.map_file = None;
        self.basic.clear();
        self.string_map.clear();
        self.numeric_items = Vec::new();
        self.sparse_numeric_keys.clear();
        self.numeric_len = 0;
        self.map_file_append_position = 0;
        self.map_capacity_dirty = false;
        proof {
            assert forall|k: Seq<char>| #[trigger] self.item_of(k) is None by {}
            assert(self@ =~= Map::<Seq<char>, ValueView>::empty());
        }
    }

    /// Compacts the entry box: see `BasicBox::compact`. The keys keep their values.
    pub fn compact(
        &mut self,
        output_store: AutoIncreaseFileAccess,
        output_index: AutoIncreaseFileAccess,
        working: FileItem,
    ) -> (r: Result<()>)
        requires
            old(self).wf(),
            output_store.wf(),
            output_index.wf(),
            working.wf(),
            working.store_append_position == working.store_file.actual_length,
            working.store_file.actual_length <= MAX_STORE_POSITION,
        ensures
            final(self).wf(),
            compact_effect(old(self).basic, final(self).basic, output_index, working, r),
            final(self).map_file == old(self).map_file,
            final(self).string_map == old(self).string_map,
            final(self).numeric_items == old(self).numeric_items,
            final(self).sparse_numeric_keys == old(self).sparse_numeric_keys,
            final(self).numeric_len == old(self).numeric_len,
            final(self).map_file_append_position == old(self).map_file_append_position,
            final(self).map_capacity_dirty == old(self).map_capacity_dirty,
            final(self)@ == old(self)@,
            r is Ok && old(self).basic.file_array@.len() > 0 && working.holds_no_entries() ==> forall|id: int|
                0 <= id < old(self).basic.file_array@[0].index_file.actual_length / 12
                    ==> #[trigger] final(self).basic.entry(id) == old(self).basic.entry(id),
            r is Ok && working.holds_no_entries() && old(self).persisted() ==> {
                &&& map_loadable(final(self).map_file->Some_0, final(self).basic)
                &&& loaded_view(final(self).map_file->Some_0, final(self).basic) == final(self)@
            },
            r is Ok && working.holds_no_entries() && working.index_file.actual_length % 12 == 0
                && output_index.actual_length / 12 <= slot_count(old(self).basic.file_array@)
                && old(self).persisted() ==> final(self).persisted(),
    {
        let ghost start = *self;
        let ghost w0 = working;
        let ghost oi0 = output_index;
        let r = self.basic.compact(output_store, output_index, working);
        proof {
            assert forall|k: Seq<char>| #[trigger] self.item_of(k) == start.item_of(k) by {}
            Self::lemma_items_ok_kept(start, *self);
            assert(self@ =~= start@);
            if r is Ok && w0.holds_no_entries() && start.persisted() {
                let recs = map_records(start);
                assert forall|i: int| 0 <= i < recs.len() implies #[trigger] crate::key_map::record_value(
                    recs[i],
                    self.basic,
                ) == crate::key_map::record_value(recs[i], start.basic) by {
                    assert(record_loadable(recs[i], start.basic));
                    if recs[i].value_type != VALUE_TYPE_DELETE {
                        crate::basic_box::lemma_slot_count(start.basic.file_array@, recs[i].id as int);
                        assert(start.basic.entry(recs[i].id as int) is Found);
                        assert(self.basic.entry(recs[i].id as int) == start.basic.entry(recs[i].id as int));
                    }
                }
                lemma_record_entries_reload(start, self.map_file->Some_0, self.basic);
                if w0.index_file.actual_length % 12 == 0 && oi0.actual_length / 12 <= slot_count(
                    start.basic.file_array@,
                ) && start.basic.file_array@.len() > 0 {
                    crate::key_map::lemma_loaded_same(recs, self.basic, start.basic);
                    let files = self.basic.file_array@;
                    let n = slot_count(start.basic.file_array@);
                    assert(files[1].wf());
                    crate::basic_box::lemma_slot_count(files.drop_first(), 0);
                    assert(files.drop_first()[0] == files[1]);
                    assert(files[1].index_file.actual_length / 12 >= n) by (nonlinear_arith)
                        requires
                            files[1].index_file.actual_length >= n * 12,
                    ;
                    assert(slot_count(files) >= n);
                    assert forall|i: int| #![trigger recs[i]] 0 <= i < recs.len() implies recs[i].id
                        < self.basic.next_id && recs[i].id < slot_count(self.basic.file_array@) && item_reached(
                        self.basic,
                        recs[i].id as int,
                    ) by {
                        assert(recs[i].id < slot_count(start.basic.file_array@));
                        let w = w0.index_file.actual_length as int;
                        let id = recs[i].id as int;
                        assert(id * 12 + 12 <= w || id * 12 >= w) by (nonlinear_arith)
                            requires
                                w % 12 == 0,
                                w >= 0,
                                id >= 0,
                        ;
                    }
                    assert(records_sound(recs, self.basic)) by {
                        assert forall|i: int| 0 <= i < recs.len() implies #[trigger] record_loadable(recs[i], self.basic) by {
                            assert(record_loadable(recs[i], start.basic));
                        }
                    }
                    assert forall|k: Seq<char>| #[trigger] self.item_of(k) == entry_in(loaded_items(recs, self.basic), k) by {
                        assert(start.item_of(k) == entry_in(loaded_items(recs, start.basic), k));
                    }
                }
            }
        }
        r
    }

    /// The `bool` under `key`.
    pub fn get_bool(&self, key: &str) -> (r: Result<bool>)
        requires
            self.wf(),
        ensures
            match self.get_outcome(key@, VALUE_TYPE_BOOLEAN) {
                GetOutcome::NotFound => r matches Err(GuiXuError::KeyNotFound(k)) && k@ == key@,
                GetOutcome::WrongType(s) => r == Err::<bool, GuiXuError>(
                    GuiXuError::TypeError { stored: s, expected: VALUE_TYPE_BOOLEAN },
                ),
                GetOutcome::Found(v) => v == ValueView::Bool(r->Ok_0) && r is Ok,
            },
    {
        match self.get_data(key, VALUE_TYPE_BOOLEAN)? {
            KVValue::Bool(value) => Ok(value),
            value => Err(type_error(value, VALUE_TYPE_BOOLEAN)),
        }
    }

    /// The byte under `key`.
    pub fn get_byte(&self, key: &str) -> (r: Result<u8>)
        requires
            self.wf(),
        ensures
            match self.get_outcome(key@, VALUE_TYPE_BYTE) {
                GetOutcome::NotFound => r matches Err(GuiXuError::KeyNotFound(k)) && k@ == key@,
                GetOutcome::WrongType(s) => r == Err::<u8, GuiXuError>(
                    GuiXuError::TypeError { stored: s, expected: VALUE_TYPE_BYTE },
                ),
                GetOutcome::Found(v) => v == ValueView::Byte(r->Ok_0) && r is Ok,
            },
    {
        match self.get_data(key, VALUE_TYPE_BYTE)? {
            KVValue::Byte(value) => Ok(value),
            value => Err(type_error(value, VALUE_TYPE_BYTE)),
        }
    }

    /// The `i32` under `key`.
    pub fn get_int(&self, key: &str) -> (r: Result<i32>)
        requires
            self.wf(),
        ensures
            match self.get_outcome(key@, VALUE_TYPE_INT) {
                GetOutcome::NotFound => r matches Err(GuiXuError::KeyNotFound(k)) && k@ == key@,
                GetOutcome::WrongType(s) => r == Err::<i32, GuiXuError>(
                    GuiXuError::TypeError { stored: s, expected: VALUE_TYPE_INT },
                ),
                GetOutcome::Found(v) => v == ValueView::Int(r->Ok_0) && r is Ok,
            },
    {
        match self.get_data(key, VALUE_TYPE_INT)? {
            KVValue::Int(value) => Ok(value),
            value => Err(type_error(value, VALUE_TYPE_INT)),
        }
    }

    /// The `u64` under `key`.
    pub fn get_long(&self, key: &str) -> (r: Result<u64>)
        requires
            self.wf(),
        ensures
            match self.get_outcome(key@, VALUE_TYPE_LONG) {
                GetOutcome::NotFound => r matches Err(GuiXuError::KeyNotFound(k)) && k@ == key@,
                GetOutcome::WrongType(s) => r == Err::<u64, GuiXuError>(
                    GuiXuError::TypeError { stored: s, expected: VALUE_TYPE_LONG },
                ),
                GetOutcome::Found(v) => v == ValueView::Long(r->Ok_0) && r is Ok,
            },
    {
        match self.get_data(key, VALUE_TYPE_LONG)? {
            KVValue::Long(value) => Ok(value),
            value => Err(type_error(value, VALUE_TYPE_LONG)),
        }
    }

    /// The bits of the `f32` under `key`.
    pub fn get_float_bits(&self, key: &str) -> (r: Result<u32>)
        requires
            self.wf(),
        ensures
            match self.get_outcome(key@, VALUE_TYPE_FLOAT) {
                GetOutcome::NotFound => r matches Err(GuiXuError::KeyNotFound(k)) && k@ == key@,
                GetOutcome::WrongType(s) => r == Err::<u32, GuiXuError>(
                    GuiXuError::TypeError { stored: s, expected: VALUE_TYPE_FLOAT },
                ),
                GetOutcome::Found(v) => v == ValueView::Float(r->Ok_0) && r is Ok,
            },
    {
        match self.get_data(key, VALUE_TYPE_FLOAT)? {
            KVValue::Float(value) => Ok(value),
            value => Err(type_error(value, VALUE_TYPE_FLOAT)),
        }
    }

    /// The bits of the `f64` under `key`.
    pub fn get_double_bits(&self, key: &str) -> (r: Result<u64>)
        requires
            self.wf(),
        ensures
            match self.get_outcome(key@, VALUE_TYPE_DOUBLE) {
                GetOutcome::NotFound => r matches Err(GuiXuError::KeyNotFound(k)) && k@ == key@,
                GetOutcome::WrongType(s) => r == Err::<u64, GuiXuError>(
                    GuiXuError::TypeError { stored: s, expected: VALUE_TYPE_DOUBLE },
                ),
                GetOutcome::Found(v) => v == ValueView::Double(r->Ok_0) && r is Ok,
            },
    {
        match self.get_data(key, VALUE_TYPE_DOUBLE)? {
            KVValue::Double(value) => Ok(value),
            value => Err(type_error(value, VALUE_TYPE_DOUBLE)),
        }
    }

    /// The string under `key`.
    pub fn get_string(&self, key: &str) -> (r: Result<&str>)
        requires
            self.wf(),
        ensures
            match self.get_outcome(key@, VALUE_TYPE_STRING) {
                GetOutcome::NotFound => r matches Err(GuiXuError::KeyNotFound(k)) && k@ == key@,
                GetOutcome::WrongType(s) => r == Err::<&str, GuiXuError>(
                    GuiXuError::TypeError { stored: s, expected: VALUE_TYPE_STRING },
                ),
                GetOutcome::Found(v) => r is Ok && v == ValueView::String(r->Ok_0@),
            },
    {
        let item = match self.lookup_item(key) {
            Some(item) => item,
            None => {
                return Err(Self::key_not_found(key));
            },
        };
        assert(self.item_ok(self.item_of(key@)->Some_0));
        if item.value_type == VALUE_TYPE_DELETE {
            return Err(Self::key_not_found(key));
        }
        if item.value_type != VALUE_TYPE_STRING {
            return Err(GuiXuError::TypeError { stored: item.value_type, expected: VALUE_TYPE_STRING });
        }
        match &item.value {
            KVValue::String(value) => Ok(value.as_str()),
            value => Err(type_error(value.clone_value(), VALUE_TYPE_STRING)),
        }
    }

    /// The bytes under `key`.
    pub fn get_byte_array(&self, key: &str) -> (r: Result<Vec<u8>>)
        requires
            self.wf(),
        ensures
            match self.get_outcome(key@, VALUE_TYPE_BYTE_ARRAY) {
                GetOutcome::NotFound => r matches Err(GuiXuError::KeyNotFound(k)) && k@ == key@,
                GetOutcome::WrongType(s) => r == Err::<Vec<u8>, GuiXuError>(
                    GuiXuError::TypeError { stored: s, expected: VALUE_TYPE_BYTE_ARRAY },
                ),
                GetOutcome::Found(v) => r is Ok && v == ValueView::ByteArray(r->Ok_0@),
            },
    {
        match self.get_data(key, VALUE_TYPE_BYTE_ARRAY)? {
            KVValue::ByteArray(value) => Ok(value),
            value => Err(type_error(value, VALUE_TYPE_BYTE_ARRAY)),
        }
    }

    /// The `i32`s under `key`.
    pub fn get_int_array(&self, key: &str) -> (r: Result<Vec<i32>>)
        requires
            self.wf(),
        ensures
            match self.get_outcome(key@, VALUE_TYPE_INT_ARRAY) {
                GetOutcome::NotFound => r matches Err(GuiXuError::KeyNotFound(k)) && k@ == key@,
                GetOutcome::WrongType(s) => r == Err::<Vec<i32>, GuiXuError>(
                    GuiXuError::TypeError { stored: s, expected: VALUE_TYPE_INT_ARRAY },
                ),
                GetOutcome::Found(v) => r is Ok && v == ValueView::IntArray(r->Ok_0@),
            },
    {
        match self.get_data(key, VALUE_TYPE_INT_ARRAY)? {
            KVValue::IntArray(value) => Ok(value),
            value => Err(type_error(value, VALUE_TYPE_INT_ARRAY)),
        }
    }

    /// The `u64`s under `key`.
    pub fn get_long_array(&self, key: &str) -> (r: Result<Vec<u64>>)
        requires
            self.wf(),
        ensures
            match self.get_outcome(key@, VALUE_TYPE_LONG_ARRAY) {
                GetOutcome::NotFound => r matches Err(GuiXuError::KeyNotFound(k)) && k@ == key@,
                GetOutcome::WrongType(s) => r == Err::<Vec<u64>, GuiXuError>(
                    GuiXuError::TypeError { stored: s, expected: VALUE_TYPE_LONG_ARRAY },
                ),
                GetOutcome::Found(v) => r is Ok && v == ValueView::LongArray(r->Ok_0@),
            },
    {
        match self.get_data(key, VALUE_TYPE_LONG_ARRAY)? {
            KVValue::LongArray(value) => Ok(value),
            value => Err(type_error(value, VALUE_TYPE_LONG_ARRAY)),
        }
    }

    /// The bits of the `f32`s under `key`.
    pub fn get_float_array_bits(&self, key: &str) -> (r: Result<Vec<u32>>)
        requires
            self.wf(),
        ensures
            match self.get_outcome(key@, VALUE_TYPE_FLOAT_ARRAY) {
                GetOutcome::NotFound => r matches Err(GuiXuError::KeyNotFound(k)) && k@ == key@,
                GetOutcome::WrongType(s) => r == Err::<Vec<u32>, GuiXuError>(
                    GuiXuError::TypeError { stored: s, expected: VALUE_TYPE_FLOAT_ARRAY },
                ),
                GetOutcome::Found(v) => r is Ok && v == ValueView::FloatArray(r->Ok_0@),
            },
    {
        match self.get_data(key, VALUE_TYPE_FLOAT_ARRAY)? {
            KVValue::FloatArray(value) => Ok(value),
            value => Err(type_error(value, VALUE_TYPE_FLOAT_ARRAY)),
        }
    }

    /// The bits of the `f64`s under `key`.
    pub fn get_double_array_bits(&self, key: &str) -> (r: Result<Vec<u64>>)
        requires
            self.wf(),
        ensures
            match self.get_outcome(key@, VALUE_TYPE_DOUBLE_ARRAY) {
                GetOutcome::NotFound => r matches Err(GuiXuError::KeyNotFound(k)) && k@ == key@,
                GetOutcome::WrongType(s) => r == Err::<Vec<u64>, GuiXuError>(
                    GuiXuError::TypeError { stored: s, expected: VALUE_TYPE_DOUBLE_ARRAY },
                ),
                GetOutcome::Found(v) => r is Ok && v == ValueView::DoubleArray(r->Ok_0@),
            },
    {
        match self.get_data(key, VALUE_TYPE_DOUBLE_ARRAY)? {
            KVValue::DoubleArray(value) => Ok(value),
            value => Err(type_error(value, VALUE_TYPE_DOUBLE_ARRAY)),
        }
    }
}


/// A value written under a key is what a read of that key for the value's type finds; a
/// read for another type finds the value's type; every other key reads as before.
pub proof fn lemma_put_then_get(old: KVBox, new: KVBox, key: Seq<char>, v: ValueView)
    requires
        put_done(old, new, key, v, Ok::<(), GuiXuError>(())),
        !(v is Deleted),
    ensures
        new.get_outcome(key, spec_kind(v)) == GetOutcome::Found(v),
        forall|t: u8| t != spec_kind(v) ==> #[trigger] new.get_outcome(key, t) == GetOutcome::WrongType(spec_kind(v)),
        forall|k: Seq<char>, t: u8| k != key ==> #[trigger] new.get_outcome(k, t) == old.get_outcome(k, t),
{
    assert(new@ == old@.insert(key, v));
}

/// A box whose positions leave room for a write has room for it: the write succeeds
/// unless the value's type conflicts.
pub proof fn lemma_room_for_put(b: KVBox, key: Seq<char>, len: nat)
    requires
        b.wf(),
        b.put_room(key, len),
    ensures
        b.can_put(key, len),
{
    let w = b.basic.file_array@[0];
    let id: int = match b.item_of(key) {
        Some(item) => item.id as int,
        None => b.basic.next_id as int,
    };
    let p = w.store_append_position as int;
    lemma_grown_fits(w.index_file, id * 12, 12, id * 12 + 12);
    lemma_grown_fits(w.store_file, p, len as int, p + len);
    if b.item_of(key) is None {
        let klen = vstd::utf8::encode_utf8(key).len();
        let m = b.map_file_append_position as int;
        lemma_grown_fits(b.map_file->Some_0, m, (KV_ITEM_FIX_LENGTH + klen) as int, m + KV_ITEM_FIX_LENGTH + klen);
    }
}

/// A removal keeps the room that later writes find: a write that the positions left room
/// for before the removal finds room after it, the removed key's own write among them.
pub proof fn lemma_room_after_remove(old: KVBox, new: KVBox, key: Seq<char>, len: nat)
    requires
        new.wf(),
        remove_reach(old, new),
        old.put_room(key, len),
    ensures
        new.put_room(key, len),
        new.can_put(key, len),
{
    assert(new.item_of(key) is Some <==> old.item_of(key) is Some);
    lemma_room_for_put(new, key, len);
}

/// The records of the key map file that a box writes to.
pub open spec fn map_records(b: KVBox) -> Seq<MapRecord> {
    parse_records(b.map_file->Some_0.bytes(), 4, b.map_file->Some_0.actual_length as int)->Some_0
}

/// A box in step with its key map file loads, over a key map file with the same bytes in
/// use and an entry box that holds the same under every record's id, as its own view.
proof fn lemma_record_entries_reload(b: KVBox, map_file: AutoIncreaseFileAccess, basic: BasicBox)
    requires
        b.wf(),
        b.persisted(),
        map_file.bytes() == b.map_file->Some_0.bytes(),
        map_file.actual_length == b.map_file->Some_0.actual_length,
        forall|i: int|
            0 <= i < map_records(b).len() ==> #[trigger] crate::key_map::record_value(map_records(b)[i], basic)
                == crate::key_map::record_value(map_records(b)[i], b.basic),
    ensures
        map_loadable(map_file, basic),
        map_file.actual_length <= MAX_STORE_POSITION,
        loaded_view(map_file, basic) == b@,
{
    let recs = map_records(b);
    crate::key_map::lemma_loaded_same(recs, basic, b.basic);
    assert forall|i: int| 0 <= i < recs.len() implies #[trigger] record_loadable(recs[i], basic) by {
        assert(record_loadable(recs[i], b.basic));
        assert(crate::key_map::record_value(recs[i], basic) == crate::key_map::record_value(recs[i], b.basic));
    }
    assert forall|k: Seq<char>| #![trigger loaded_entries(map_file, basic).contains_key(k)] #![trigger b.item_of(k)]
        loaded_entries(map_file, basic).contains_key(k) <==> b.item_of(k) is Some by {
        assert(b.item_of(k) == entry_in(loaded_items(recs, b.basic), k));
    }
    assert(loaded_view(map_file, basic) =~= b@) by {
        assert forall|k: Seq<char>| #[trigger] loaded_view(map_file, basic).contains_key(k) implies loaded_view(
            map_file,
            basic,
        )[k] == b@[k] by {
            assert(b.item_of(k) == entry_in(loaded_items(recs, b.basic), k));
        }
    }
}

/// Reopening a box over an entry box with the same entries and a key map file with the same
/// bytes in use, while the key map is in step with the box, gives back the value under every
/// key: the key map file loads, and it loads as the box's view. When the reopened entry box
/// has a working index as long as the box's and hands out ids past its items, its records
/// are sound again, so the reopened box is in step with its key map in turn.
pub proof fn lemma_reopen_gives_view(b: KVBox, map_file: AutoIncreaseFileAccess, basic: BasicBox)
    requires
        b.wf(),
        b.persisted(),
        map_file.bytes() == b.map_file->Some_0.bytes(),
        map_file.actual_length == b.map_file->Some_0.actual_length,
        forall|id: int| #[trigger] basic.entry(id) == b.basic.entry(id),
    ensures
        map_loadable(map_file, basic),
        map_file.actual_length <= MAX_STORE_POSITION,
        loaded_view(map_file, basic) == b@,
        basic.file_array@.len() > 0 && basic.file_array@[0].index_file.actual_length
            == b.basic.file_array@[0].index_file.actual_length && slot_count(basic.file_array@) >= slot_count(
            b.basic.file_array@,
        ) && basic.next_id >= slot_count(basic.file_array@) ==> records_sound(
            parse_records(map_file.bytes(), 4, map_file.actual_length as int)->Some_0,
            basic,
        ),
{
    let recs = map_records(b);
    if basic.file_array@.len() > 0 && basic.file_array@[0].index_file.actual_length
        == b.basic.file_array@[0].index_file.actual_length && slot_count(basic.file_array@) >= slot_count(
        b.basic.file_array@,
    ) && basic.next_id >= slot_count(basic.file_array@) {
        assert forall|i: int| #![trigger recs[i]] 0 <= i < recs.len() implies recs[i].id < basic.next_id
            && recs[i].id < slot_count(basic.file_array@) && item_reached(basic, recs[i].id as int) by {
            assert(item_reached(b.basic, recs[i].id as int));
            assert(recs[i].id < slot_count(b.basic.file_array@));
        }
        assert forall|i: int| 0 <= i < recs.len() implies #[trigger] record_loadable(recs[i], basic) by {
            assert(record_loadable(recs[i], b.basic));
            assert(basic.entry(recs[i].id as int) == b.basic.entry(recs[i].id as int));
        }
    }
    assert forall|i: int| 0 <= i < map_records(b).len() implies #[trigger] crate::key_map::record_value(
        map_records(b)[i],
        basic,
    ) == crate::key_map::record_value(map_records(b)[i], b.basic) by {
        assert(basic.entry(map_records(b)[i].id as int) == b.basic.entry(map_records(b)[i].id as int));
    }
    lemma_record_entries_reload(b, map_file, basic);
}

} // verus!
