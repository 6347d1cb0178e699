//! The key map file of the key/value box, and what it loads as.
//!
//! The file starts with a four-byte word and then holds one record per key, one after the
//! other: the key's length as a big-endian `i32`, the value's type code, the id of the
//! value's entry as a big-endian `u64`, and the key's UTF-8 bytes.
use crate::basic_box::{slot_count, BasicBox, Lookup};
use crate::byte_ops::{
    lemma_i32_bytes_roundtrip, lemma_u64_bytes_roundtrip, spec_bytes_to_i32, spec_bytes_to_u64,
    spec_i32_to_bytes, spec_u64_to_bytes,
};
use crate::file_access::AutoIncreaseFileAccess;
use crate::kv_key::is_digit;
use crate::kv_value::{is_value_type, spec_decode_value, KVItemView, ValueView, VALUE_TYPE_DELETE};
use vstd::prelude::*;
use vstd::utf8::decode_utf8;

verus! {

/// The size of a key map record without its key.
pub const KV_ITEM_FIX_LENGTH: u64 = 13;

/// The bytes of the key map record of a key.
pub open spec fn kv_record(key_bytes: Seq<u8>, value_type: u8, id: u64) -> Seq<u8> {
    spec_i32_to_bytes(key_bytes.len() as i32) + seq![value_type] + spec_u64_to_bytes(id)
        + key_bytes
}

/// A record of the key map file: where it starts, the key's bytes, the type code, and the id.
pub struct MapRecord {
    pub position: u64,
    pub key: Seq<u8>,
    pub value_type: u8,
    pub id: u64,
}

/// The key length written at the start of the record at `cursor`.
pub open spec fn key_length_at(img: Seq<u8>, cursor: int) -> int {
    spec_bytes_to_i32(img.subrange(cursor, cursor + 4)) as int
}

/// The record that starts at `cursor`, if one fits in the first `length` bytes of `img`.
pub open spec fn record_at(img: Seq<u8>, cursor: int, length: int) -> Option<MapRecord> {
    if cursor + KV_ITEM_FIX_LENGTH > length {
        None
    } else {
        let klen = key_length_at(img, cursor);
        if klen < 0 || cursor + KV_ITEM_FIX_LENGTH + klen > length {
            None
        } else {
            Some(
                MapRecord {
                    position: cursor as u64,
                    key: img.subrange(cursor + 13, cursor + 13 + klen),
                    value_type: img[cursor + 4],
                    id: spec_bytes_to_u64(img.subrange(cursor + 5, cursor + 13)),
                },
            )
        }
    }
}

/// The records from `cursor` up to `length`, one after the other, if they all fit.
pub open spec fn parse_records(img: Seq<u8>, cursor: int, length: int) -> Option<Seq<MapRecord>>
    decreases length - cursor,
{
    if cursor >= length {
        Some(seq![])
    } else {
        match record_at(img, cursor, length) {
            None => None,
            Some(r) => match parse_records(img, cursor + KV_ITEM_FIX_LENGTH + key_length_at(img, cursor), length) {
                Some(rest) => Some(seq![r] + rest),
                None => None,
            },
        }
    }
}

/// The value that a record of type `value_type` and id `id` holds: removed, or the stored
/// bytes of its id decoded by its type.
pub open spec fn stored_value(value_type: u8, id: u64, basic: BasicBox) -> Option<ValueView> {
    if value_type == VALUE_TYPE_DELETE {
        Some(ValueView::Deleted)
    } else {
        match basic.entry(id as int) {
            Lookup::Found(b) => if is_value_type(value_type) {
                spec_decode_value(b, value_type)
            } else {
                None
            },
            _ => None,
        }
    }
}

/// The value a record holds.
pub open spec fn record_value(r: MapRecord, basic: BasicBox) -> Option<ValueView> {
    stored_value(r.value_type, r.id, basic)
}

/// A record can be loaded: its key is UTF-8 and its value can be read.
pub open spec fn record_loadable(r: MapRecord, basic: BasicBox) -> bool {
    vstd::utf8::valid_utf8(r.key) && record_value(r, basic) is Some
}

/// The entry that a record loads as.
pub open spec fn record_item(r: MapRecord, basic: BasicBox) -> KVItemView {
    KVItemView {
        file_position: r.position,
        id: r.id,
        value_type: r.value_type,
        value: record_value(r, basic)->Some_0,
    }
}

/// The entries that the records load as, a later record of a key replacing an earlier one.
pub open spec fn loaded_items(recs: Seq<MapRecord>, basic: BasicBox) -> Map<Seq<char>, KVItemView>
    decreases recs.len(),
{
    if recs.len() == 0 {
        Map::empty()
    } else {
        loaded_items(recs.drop_last(), basic).insert(
            vstd::utf8::decode_utf8(recs.last().key),
            record_item(recs.last(), basic),
        )
    }
}

/// The entry of `k` in `m`, if any.
pub open spec fn entry_in(m: Map<Seq<char>, KVItemView>, k: Seq<char>) -> Option<KVItemView> {
    if m.contains_key(k) {
        Some(m[k])
    } else {
        None
    }
}

/// What first stops a key map from loading.
pub enum LoadFailure {
    /// A record runs past the bytes in use.
    CutShort,
    /// A record's value cannot be read from the entry box.
    Unreadable,
    /// A record's key is not UTF-8.
    BadKey,
}

/// What first stops the records from `cursor` up to `length` from loading, record by
/// record: the record cut short, then its value, then its key; none when they all load.
pub open spec fn first_failure(img: Seq<u8>, cursor: int, length: int, basic: BasicBox) -> Option<LoadFailure>
    decreases length - cursor,
{
    if cursor >= length {
        None
    } else {
        match record_at(img, cursor, length) {
            None => Some(LoadFailure::CutShort),
            Some(r) => if stored_value(r.value_type, r.id, basic) is None {
                Some(LoadFailure::Unreadable)
            } else if !vstd::utf8::valid_utf8(r.key) {
                Some(LoadFailure::BadKey)
            } else {
                first_failure(img, cursor + KV_ITEM_FIX_LENGTH + key_length_at(img, cursor), length, basic)
            },
        }
    }
}

/// The entries that the key map file `map_file` loads as.
pub open spec fn loaded_entries(map_file: AutoIncreaseFileAccess, basic: BasicBox) -> Map<Seq<char>, KVItemView> {
    loaded_items(parse_records(map_file.bytes(), 4, map_file.actual_length as int)->Some_0, basic)
}

/// The value under each key that the key map file `map_file` loads.
pub open spec fn loaded_view(map_file: AutoIncreaseFileAccess, basic: BasicBox) -> Map<Seq<char>, ValueView> {
    Map::new(
        |k: Seq<char>| loaded_entries(map_file, basic).contains_key(k),
        |k: Seq<char>| loaded_entries(map_file, basic)[k].value,
    )
}

/// The records parsed before `cursor` followed by those parsed from it, if these parse.
pub open spec fn chain(done: Seq<MapRecord>, rest: Option<Seq<MapRecord>>) -> Option<Seq<MapRecord>> {
    match rest {
        Some(s) => Some(done + s),
        None => None,
    }
}

/// What opening a key/value box over `basic` and a key map file `map_file` can load: the
/// file holds its count word and then records up to its bytes in use, and every record
/// can be loaded.
pub open spec fn map_loadable(map_file: AutoIncreaseFileAccess, basic: BasicBox) -> bool {
    &&& map_file.actual_length >= 4
    &&& parse_records(map_file.bytes(), 4, map_file.actual_length as int) matches Some(recs)
    &&& forall|i: int| 0 <= i < recs.len() ==> #[trigger] record_loadable(recs[i], basic)
}

/// Digits are valid UTF-8, and decoding and encoding them gives them back.
pub proof fn lemma_digits_utf8(bytes: Seq<u8>)
    requires
        forall|i: int| 0 <= i < bytes.len() ==> #[trigger] is_digit(bytes[i]),
    ensures
        vstd::utf8::valid_utf8(bytes),
        vstd::utf8::encode_utf8(vstd::utf8::decode_utf8(bytes)) == bytes,
{
    assert forall|i: int| 0 <= 0 <= i < bytes.len() <= bytes.len() implies #[trigger] vstd::utf8::is_leading_byte_width_1(bytes[i]) by {
        assert(is_digit(bytes[i]));
    }
    assert(vstd::utf8::valid_utf8(bytes.subrange(0, 0))) by {
        assert(bytes.subrange(0, 0).len() == 0);
    }
    vstd::utf8::partial_valid_utf8_extend_ascii_block(bytes, 0, bytes.len() as int);
    assert(bytes.subrange(0, bytes.len() as int) =~= bytes);
    vstd::utf8::decode_utf8_encode_utf8(bytes);
}


/// The key that a record names.
pub open spec fn key_of(r: MapRecord) -> Seq<char> {
    decode_utf8(r.key)
}

/// No two records name the same key.
pub open spec fn distinct_keys(recs: Seq<MapRecord>) -> bool {
    forall|i: int, j: int|
        #![trigger recs[i], recs[j]]
        0 <= i < recs.len() && 0 <= j < recs.len() && i != j ==> key_of(recs[i]) != key_of(recs[j])
}

/// The records can all be loaded, name different keys and different ids, and every id
/// has been handed out by `basic`, has an item in some generation, and is reached by the
/// working index.
pub open spec fn records_sound(recs: Seq<MapRecord>, basic: BasicBox) -> bool {
    &&& forall|i: int| 0 <= i < recs.len() ==> #[trigger] record_loadable(recs[i], basic)
    &&& distinct_keys(recs)
    &&& forall|i: int, j: int|
        #![trigger recs[i], recs[j]]
        0 <= i < recs.len() && 0 <= j < recs.len() && i != j ==> recs[i].id != recs[j].id
    &&& forall|i: int|
        #![trigger recs[i]]
        0 <= i < recs.len() ==> recs[i].id < basic.next_id && recs[i].id < slot_count(basic.file_array@)
            && item_reached(basic, recs[i].id as int)
}

/// The working index of `basic` either has the item of `id` in use or ends at or before it,
/// so that a write elsewhere leaves what `id` holds alone.
pub open spec fn item_reached(basic: BasicBox, id: int) -> bool {
    &&& basic.file_array@.len() > 0
    &&& basic.file_array@[0].has_slot(id) || id * 12 >= basic.file_array@[0].index_file.actual_length
}

/// Two images that agree from `c` up to `len` parse the same records there.
pub proof fn lemma_parse_frame(img1: Seq<u8>, img2: Seq<u8>, c: int, len: int)
    requires
        0 <= c,
        len <= img1.len(),
        len <= img2.len(),
        forall|i: int| c <= i < len ==> img1[i] == img2[i],
    ensures
        parse_records(img1, c, len) == parse_records(img2, c, len),
    decreases len - c,
{
    if c < len && c + 13 <= len {
        assert(img1.subrange(c, c + 4) =~= img2.subrange(c, c + 4));
        let klen = key_length_at(img1, c);
        if klen >= 0 && c + 13 + klen <= len {
            assert(img1.subrange(c + 5, c + 13) =~= img2.subrange(c + 5, c + 13));
            assert(img1.subrange(c + 13, c + 13 + klen) =~= img2.subrange(c + 13, c + 13 + klen));
            lemma_parse_frame(img1, img2, c + 13 + klen, len);
        }
    }
}

/// The records parsed from `c` up to `len1` stay when the bytes in use grow past `len1`
/// with the same bytes before it, and parsing goes on from `len1`.
pub proof fn lemma_parse_extend(img1: Seq<u8>, img2: Seq<u8>, c: int, len1: int, len2: int)
    requires
        parse_records(img1, c, len1) is Some,
        0 <= c <= len1 <= len2,
        len1 <= img1.len(),
        len2 <= img2.len(),
        forall|i: int| c <= i < len1 ==> img1[i] == img2[i],
    ensures
        parse_records(img2, c, len2) == chain(
            parse_records(img1, c, len1)->Some_0,
            parse_records(img2, len1, len2),
        ),
    decreases len1 - c,
{
    if c >= len1 {
        match parse_records(img2, len1, len2) {
            Some(s) => assert(Seq::<MapRecord>::empty() + s =~= s),
            None => {},
        }
    } else {
        let r = record_at(img1, c, len1)->Some_0;
        assert(img1.subrange(c, c + 4) =~= img2.subrange(c, c + 4));
        let klen = key_length_at(img1, c);
        let next = c + 13 + klen;
        assert(img1.subrange(c + 5, c + 13) =~= img2.subrange(c + 5, c + 13));
        assert(img1.subrange(c + 13, next) =~= img2.subrange(c + 13, next));
        assert(record_at(img2, c, len2) == Some(r));
        lemma_parse_extend(img1, img2, next, len1, len2);
        let rest = parse_records(img1, next, len1)->Some_0;
        match parse_records(img2, len1, len2) {
            Some(s) => assert(seq![r] + (rest + s) =~= (seq![r] + rest) + s),
            None => {},
        }
    }
}

/// A record written whole at `c` parses as the one record from `c` to its end.
pub proof fn lemma_parse_one(img: Seq<u8>, c: int, key: Seq<u8>, value_type: u8, id: u64)
    requires
        0 <= c <= u64::MAX,
        key.len() <= i32::MAX,
        c + 13 + key.len() <= img.len(),
        img.subrange(c, c + 13 + key.len()) == kv_record(key, value_type, id),
    ensures
        parse_records(img, c, c + 13 + key.len()) == Some(
            seq![MapRecord { position: c as u64, key, value_type, id }],
        ),
{
    let rec = kv_record(key, value_type, id);
    let end = c + 13 + key.len();
    lemma_i32_bytes_roundtrip(key.len() as i32);
    lemma_u64_bytes_roundtrip(id);
    assert(img.subrange(c, c + 4) =~= rec.subrange(0, 4));
    assert(rec.subrange(0, 4) =~= spec_i32_to_bytes(key.len() as i32));
    assert(img[c + 4] == rec[4]);
    assert(img.subrange(c + 5, c + 13) =~= rec.subrange(5, 13));
    assert(rec.subrange(5, 13) =~= spec_u64_to_bytes(id));
    assert(rec.len() == 13 + key.len());
    assert(img.subrange(c + 13, end) =~= rec.subrange(13, 13 + key.len() as int));
    assert(rec.subrange(13, 13 + key.len() as int) =~= key);
    assert(key_length_at(img, c) == key.len());
    assert(parse_records(img, end, end) == Some(Seq::<MapRecord>::empty()));
    let r = MapRecord { position: c as u64, key, value_type, id };
    assert(record_at(img, c, end) == Some(r));
    assert(seq![r] + Seq::<MapRecord>::empty() =~= seq![r]);
}

/// Every record parsed from `c` up to `len` lies within it, its key as long as its length says.
pub proof fn lemma_parse_bounds(img: Seq<u8>, c: int, len: int)
    requires
        parse_records(img, c, len) is Some,
        0 <= c,
        len <= img.len(),
        len <= u64::MAX,
    ensures
        forall|j: int|
            #![trigger parse_records(img, c, len)->Some_0[j]]
            0 <= j < parse_records(img, c, len)->Some_0.len() ==> {
                let r = parse_records(img, c, len)->Some_0[j];
                &&& c <= r.position
                &&& r.position + 13 + r.key.len() <= len
                &&& r.key.len() == key_length_at(img, r.position as int)
            },
    decreases len - c,
{
    if c < len {
        let klen = key_length_at(img, c);
        let next = c + 13 + klen;
        let r = record_at(img, c, len)->Some_0;
        lemma_parse_bounds(img, next, len);
        let s = parse_records(img, c, len)->Some_0;
        let rest = parse_records(img, next, len)->Some_0;
        assert(s == seq![r] + rest);
        assert forall|j: int| 0 <= j < s.len() implies {
            let q = #[trigger] s[j];
            &&& c <= q.position
            &&& q.position + 13 + q.key.len() <= len
            &&& q.key.len() == key_length_at(img, q.position as int)
        } by {
            if j > 0 {
                assert(s[j] == rest[j - 1]);
            } else {
                assert(s[0] == r);
                assert(r.position == c);
            }
        }
    }
}

/// Rewriting the type code of a parsed record rewrites it in the parse, and nothing else.
pub proof fn lemma_parse_retype(img: Seq<u8>, c: int, len: int, i: int, t: u8)
    requires
        parse_records(img, c, len) is Some,
        0 <= c,
        len <= img.len(),
        len <= u64::MAX,
        0 <= i < parse_records(img, c, len)->Some_0.len(),
    ensures
        ({
            let s = parse_records(img, c, len)->Some_0;
            parse_records(img.update(s[i].position + 4, t), c, len) == Some(
                s.update(i, MapRecord { value_type: t, ..s[i] }),
            )
        }),
    decreases len - c,
{
    let s = parse_records(img, c, len)->Some_0;
    let r = record_at(img, c, len)->Some_0;
    let klen = key_length_at(img, c);
    let next = c + 13 + klen;
    let rest = parse_records(img, next, len)->Some_0;
    assert(s == seq![r] + rest);
    lemma_parse_bounds(img, c, len);
    let p = s[i].position as int;
    let img2 = img.update(p + 4, t);
    let r2 = MapRecord { value_type: t, ..s[i] };
    if i == 0 {
        assert(p == c);
        assert(img2.subrange(c, c + 4) =~= img.subrange(c, c + 4));
        assert(img2.subrange(c + 5, c + 13) =~= img.subrange(c + 5, c + 13));
        assert(img2.subrange(c + 13, next) =~= img.subrange(c + 13, next));
        assert(record_at(img2, c, len) == Some(r2));
        lemma_parse_frame(img, img2, next, len);
        assert(s.update(0, r2) =~= seq![r2] + rest);
    } else {
        lemma_parse_bounds(img, next, len);
        assert(s[i] == rest[i - 1]);
        assert(p >= next);
        assert(img2.subrange(c, c + 4) =~= img.subrange(c, c + 4));
        assert(img2.subrange(c + 5, c + 13) =~= img.subrange(c + 5, c + 13));
        assert(img2.subrange(c + 13, next) =~= img.subrange(c + 13, next));
        assert(record_at(img2, c, len) == Some(r));
        lemma_parse_retype(img, next, len, i - 1, t);
        assert(s.update(i, r2) =~= seq![r] + rest.update(i - 1, r2));
    }
}

/// Every record's key is loaded, and no other key is.
pub proof fn lemma_loaded_keys(recs: Seq<MapRecord>, basic: BasicBox)
    ensures
        forall|i: int| 0 <= i < recs.len() ==> #[trigger] loaded_items(recs, basic).contains_key(key_of(recs[i])),
        forall|k: Seq<char>|
            #[trigger] loaded_items(recs, basic).contains_key(k) ==> exists|i: int|
                0 <= i < recs.len() && #[trigger] key_of(recs[i]) == k,
    decreases recs.len(),
{
    if recs.len() > 0 {
        let d = recs.drop_last();
        lemma_loaded_keys(d, basic);
        assert(loaded_items(recs, basic) == loaded_items(d, basic).insert(
            key_of(recs.last()),
            record_item(recs.last(), basic),
        ));
        assert forall|i: int| 0 <= i < recs.len() implies #[trigger] loaded_items(recs, basic).contains_key(
            key_of(recs[i]),
        ) by {
            if i < recs.len() - 1 {
                assert(d[i] == recs[i]);
                assert(loaded_items(d, basic).contains_key(key_of(d[i])));
            }
        }
        assert forall|k: Seq<char>| #[trigger] loaded_items(recs, basic).contains_key(k) implies exists|i: int|
            0 <= i < recs.len() && #[trigger] key_of(recs[i]) == k by {
            if k == key_of(recs.last()) {
                assert(key_of(recs[recs.len() - 1]) == k);
            } else {
                assert(loaded_items(d, basic).contains_key(k));
                let i = choose|i: int| 0 <= i < d.len() && #[trigger] key_of(d[i]) == k;
                assert(recs[i] == d[i]);
            }
        }
    }
}

/// With distinct keys, the entry loaded under a record's key is the one that record loads as.
pub proof fn lemma_loaded_at(recs: Seq<MapRecord>, basic: BasicBox, i: int)
    requires
        distinct_keys(recs),
        0 <= i < recs.len(),
    ensures
        loaded_items(recs, basic).contains_key(key_of(recs[i])),
        loaded_items(recs, basic)[key_of(recs[i])] == record_item(recs[i], basic),
    decreases recs.len(),
{
    let d = recs.drop_last();
    if i < recs.len() - 1 {
        assert(d[i] == recs[i]);
        assert(key_of(recs[i]) != key_of(recs[recs.len() - 1]));
        assert(distinct_keys(d)) by {
            assert forall|a: int, b: int| #![trigger d[a], d[b]]
                0 <= a < d.len() && 0 <= b < d.len() && a != b implies key_of(d[a]) != key_of(d[b]) by {
                assert(d[a] == recs[a] && d[b] == recs[b]);
            }
        }
        lemma_loaded_at(d, basic, i);
    }
}

/// Records whose values read the same from two entry boxes load the same from both.
pub proof fn lemma_loaded_same(recs: Seq<MapRecord>, b1: BasicBox, b2: BasicBox)
    requires
        forall|i: int| 0 <= i < recs.len() ==> #[trigger] record_value(recs[i], b1) == record_value(recs[i], b2),
    ensures
        loaded_items(recs, b1) == loaded_items(recs, b2),
    decreases recs.len(),
{
    if recs.len() > 0 {
        let d = recs.drop_last();
        assert forall|i: int| 0 <= i < d.len() implies #[trigger] record_value(d[i], b1) == record_value(d[i], b2) by {
            assert(d[i] == recs[i]);
        }
        lemma_loaded_same(d, b1, b2);
        assert(record_value(recs[recs.len() - 1], b1) == record_value(recs[recs.len() - 1], b2));
    }
}

} // verus!
