//! The values of the key/value box, their type codes, and the bytes they are stored as.
//!
//! Floating-point values are held by their IEEE-754 bit patterns: a `float` as the `u32`
//! bits, a `double` as the `u64` bits.
use crate::byte_ops::{
    bytes_to_i32, bytes_to_i32_vec, bytes_to_u32, bytes_to_u32_vec, bytes_to_u64,
    bytes_to_u64_vec, i32_slice_to_bytes, i32_to_bytes, lemma_i32_bytes_roundtrip,
    lemma_i32s_roundtrip, lemma_u32_bytes_roundtrip, lemma_u32s_roundtrip,
    lemma_u64_bytes_roundtrip, lemma_u64s_roundtrip, spec_bytes_to_i32, spec_bytes_to_i32s,
    spec_bytes_to_u32, spec_bytes_to_u32s, spec_bytes_to_u64, spec_bytes_to_u64s,
    spec_i32_to_bytes, spec_i32s_to_bytes, spec_u32_to_bytes, spec_u32s_to_bytes,
    spec_u64_to_bytes, spec_u64s_to_bytes, u32_slice_to_bytes, u32_to_bytes, u64_slice_to_bytes,
    u64_to_bytes,
};
use crate::error::{GuiXuError, Result};
use vstd::prelude::*;
use vstd::utf8::{decode_utf8, encode_utf8, valid_utf8};

verus! {

/// The byte a stored `true` is written as.
pub const BOOLEAN_TRUE: u8 = 1;

/// The type code of a removed key.
pub const VALUE_TYPE_DELETE: u8 = 0;

pub const VALUE_TYPE_BOOLEAN: u8 = 1;

pub const VALUE_TYPE_BYTE: u8 = 2;

pub const VALUE_TYPE_INT: u8 = 3;

pub const VALUE_TYPE_LONG: u8 = 4;

pub const VALUE_TYPE_FLOAT: u8 = 5;

pub const VALUE_TYPE_DOUBLE: u8 = 6;

pub const VALUE_TYPE_STRING: u8 = 7;

pub const VALUE_TYPE_BYTE_ARRAY: u8 = 8;

pub const VALUE_TYPE_INT_ARRAY: u8 = 9;

pub const VALUE_TYPE_LONG_ARRAY: u8 = 10;

pub const VALUE_TYPE_FLOAT_ARRAY: u8 = 11;

pub const VALUE_TYPE_DOUBLE_ARRAY: u8 = 12;

/// A value of the key/value box.
pub enum KVValue {
    Deleted,
    Bool(bool),
    Byte(u8),
    Int(i32),
    Long(u64),
    Float(u32),
    Double(u64),
    String(String),
    ByteArray(Vec<u8>),
    IntArray(Vec<i32>),
    LongArray(Vec<u64>),
    FloatArray(Vec<u32>),
    DoubleArray(Vec<u64>),
}

/// The contents of a value.
pub enum ValueView {
    Deleted,
    Bool(bool),
    Byte(u8),
    Int(i32),
    Long(u64),
    Float(u32),
    Double(u64),
    String(Seq<char>),
    ByteArray(Seq<u8>),
    IntArray(Seq<i32>),
    LongArray(Seq<u64>),
    FloatArray(Seq<u32>),
    DoubleArray(Seq<u64>),
}

impl View for KVValue {
    type V = ValueView;

    open spec fn view(&self) -> ValueView {
        match self {
            KVValue::Deleted => ValueView::Deleted,
            KVValue::Bool(v) => ValueView::Bool(*v),
            KVValue::Byte(v) => ValueView::Byte(*v),
            KVValue::Int(v) => ValueView::Int(*v),
            KVValue::Long(v) => ValueView::Long(*v),
            KVValue::Float(v) => ValueView::Float(*v),
            KVValue::Double(v) => ValueView::Double(*v),
            KVValue::String(v) => ValueView::String(v@),
            KVValue::ByteArray(v) => ValueView::ByteArray(v@),
            KVValue::IntArray(v) => ValueView::IntArray(v@),
            KVValue::LongArray(v) => ValueView::LongArray(v@),
            KVValue::FloatArray(v) => ValueView::FloatArray(v@),
            KVValue::DoubleArray(v) => ValueView::DoubleArray(v@),
        }
    }
}

/// An entry of the key/value box: where its record lies in the key map file, the id its
/// bytes are stored under, its type code, and its value.
pub struct KVItem {
    pub file_position: u64,
    pub id: u64,
    pub value_type: u8,
    pub value: KVValue,
}

/// The contents of an entry.
pub struct KVItemView {
    pub file_position: u64,
    pub id: u64,
    pub value_type: u8,
    pub value: ValueView,
}

impl View for KVItem {
    type V = KVItemView;

    open spec fn view(&self) -> KVItemView {
        KVItemView {
            file_position: self.file_position,
            id: self.id,
            value_type: self.value_type,
            value: self.value@,
        }
    }
}

/// The type code of a value.
pub open spec fn spec_kind(v: ValueView) -> u8 {
    match v {
        ValueView::Deleted => VALUE_TYPE_DELETE,
        ValueView::Bool(_) => VALUE_TYPE_BOOLEAN,
        ValueView::Byte(_) => VALUE_TYPE_BYTE,
        ValueView::Int(_) => VALUE_TYPE_INT,
        ValueView::Long(_) => VALUE_TYPE_LONG,
        ValueView::Float(_) => VALUE_TYPE_FLOAT,
        ValueView::Double(_) => VALUE_TYPE_DOUBLE,
        ValueView::String(_) => VALUE_TYPE_STRING,
        ValueView::ByteArray(_) => VALUE_TYPE_BYTE_ARRAY,
        ValueView::IntArray(_) => VALUE_TYPE_INT_ARRAY,
        ValueView::LongArray(_) => VALUE_TYPE_LONG_ARRAY,
        ValueView::FloatArray(_) => VALUE_TYPE_FLOAT_ARRAY,
        ValueView::DoubleArray(_) => VALUE_TYPE_DOUBLE_ARRAY,
    }
}

/// The bytes a value is stored as.
pub open spec fn spec_encode_value(v: ValueView) -> Seq<u8> {
    match v {
        ValueView::Deleted => seq![],
        ValueView::Bool(b) => seq![if b { BOOLEAN_TRUE } else { 0u8 }],
        ValueView::Byte(b) => seq![b],
        ValueView::Int(i) => spec_i32_to_bytes(i),
        ValueView::Long(l) => spec_u64_to_bytes(l),
        ValueView::Float(bits) => spec_u32_to_bytes(bits),
        ValueView::Double(bits) => spec_u64_to_bytes(bits),
        ValueView::String(s) => encode_utf8(s),
        ValueView::ByteArray(b) => b,
        ValueView::IntArray(a) => spec_i32s_to_bytes(a),
        ValueView::LongArray(a) => spec_u64s_to_bytes(a),
        ValueView::FloatArray(a) => spec_u32s_to_bytes(a),
        ValueView::DoubleArray(a) => spec_u64s_to_bytes(a),
    }
}

/// Whether `t` is the type code of some kind of value.
pub open spec fn is_value_type(t: u8) -> bool {
    VALUE_TYPE_BOOLEAN <= t <= VALUE_TYPE_DOUBLE_ARRAY
}

/// The value that the stored bytes `b` of type `t` hold, or none when they cannot hold one:
/// a number needs all of its bytes, and a string valid UTF-8.
pub open spec fn spec_decode_value(b: Seq<u8>, t: u8) -> Option<ValueView> {
    if t == VALUE_TYPE_BOOLEAN {
        Some(ValueView::Bool(b.len() > 0 && b[0] == BOOLEAN_TRUE))
    } else if t == VALUE_TYPE_BYTE {
        Some(ValueView::Byte(if b.len() > 0 { b[0] } else { 0 }))
    } else if t == VALUE_TYPE_INT {
        if b.len() >= 4 { Some(ValueView::Int(spec_bytes_to_i32(b))) } else { None }
    } else if t == VALUE_TYPE_LONG {
        if b.len() >= 8 { Some(ValueView::Long(spec_bytes_to_u64(b))) } else { None }
    } else if t == VALUE_TYPE_FLOAT {
        if b.len() >= 4 { Some(ValueView::Float(spec_bytes_to_u32(b))) } else { None }
    } else if t == VALUE_TYPE_DOUBLE {
        if b.len() >= 8 { Some(ValueView::Double(spec_bytes_to_u64(b))) } else { None }
    } else if t == VALUE_TYPE_STRING {
        if valid_utf8(b) { Some(ValueView::String(decode_utf8(b))) } else { None }
    } else if t == VALUE_TYPE_BYTE_ARRAY {
        Some(ValueView::ByteArray(b))
    } else if t == VALUE_TYPE_INT_ARRAY {
        Some(ValueView::IntArray(spec_bytes_to_i32s(b)))
    } else if t == VALUE_TYPE_LONG_ARRAY {
        Some(ValueView::LongArray(spec_bytes_to_u64s(b)))
    } else if t == VALUE_TYPE_FLOAT_ARRAY {
        Some(ValueView::FloatArray(spec_bytes_to_u32s(b)))
    } else {
        Some(ValueView::DoubleArray(spec_bytes_to_u64s(b)))
    }
}

/// Decoding the stored bytes of a value, by its own type code, gives the value back.
pub proof fn lemma_decode_encode(v: ValueView)
    requires
        !(v is Deleted),
    ensures
        spec_decode_value(spec_encode_value(v), spec_kind(v)) == Some(v),
{
    match v {
        ValueView::Int(i) => lemma_i32_bytes_roundtrip(i),
        ValueView::Long(l) => lemma_u64_bytes_roundtrip(l),
        ValueView::Float(bits) => lemma_u32_bytes_roundtrip(bits),
        ValueView::Double(bits) => lemma_u64_bytes_roundtrip(bits),
        ValueView::String(s) => {
            vstd::utf8::encode_utf8_valid_utf8(s);
            vstd::utf8::encode_utf8_decode_utf8(s);
        },
        ValueView::IntArray(a) => lemma_i32s_roundtrip(a),
        ValueView::LongArray(a) => lemma_u64s_roundtrip(a),
        ValueView::FloatArray(a) => lemma_u32s_roundtrip(a),
        ValueView::DoubleArray(a) => lemma_u64s_roundtrip(a),
        _ => {},
    }
}

/// A copy of `v`.
pub fn copy_vec<T: Copy>(v: &Vec<T>) -> (r: Vec<T>)
    ensures
        r@ == v@,
{
    let n = v.len();
    let mut out: Vec<T> = Vec::new();
    let mut i: usize = 0;
    while i < n
        invariant
            n == v@.len(),
            i <= n,
            out@ =~= v@.subrange(0, i as int),
        decreases n - i,
    {
        out.push(v[i]);
        i = i + 1;
        assert(out@ =~= v@.subrange(0, i as int));
    }
    assert(v@.subrange(0, n as int) =~= v@);
    out
}

/// A copy of the bytes `b`.
fn copy_slice(b: &[u8]) -> (r: Vec<u8>)
    ensures
        r@ == b@,
{
    let n = b.len();
    let mut out: Vec<u8> = Vec::new();
    let mut i: usize = 0;
    while i < n
        invariant
            n == b@.len(),
            i <= n,
            out@ =~= b@.subrange(0, i as int),
        decreases n - i,
    {
        out.push(b[i]);
        i = i + 1;
        assert(out@ =~= b@.subrange(0, i as int));
    }
    assert(b@.subrange(0, n as int) =~= b@);
    out
}

/// Calls `String::from_utf8`. The contract claims what its documentation states: it
/// succeeds exactly on valid UTF-8, with the characters that the bytes encode; a failure
/// carries the error's message.
#[verifier::external_body]
pub(crate) fn string_from_utf8(bytes: Vec<u8>) -> (r: core::result::Result<String, String>)
    ensures
        match r {
            Ok(s) => valid_utf8(bytes@) && s@ == decode_utf8(bytes@),
            Err(_) => !valid_utf8(bytes@),
        },
{
    match String::from_utf8(bytes) {
        Ok(s) => Ok(s),
        Err(error) => Err(error.to_string()),
    }
}

impl KVValue {
    /// The type code of this value.
    pub fn kind(&self) -> (r: u8)
        ensures
            r == spec_kind(self@),
    {
        match self {
            KVValue::Deleted => VALUE_TYPE_DELETE,
            KVValue::Bool(_) => VALUE_TYPE_BOOLEAN,
            KVValue::Byte(_) => VALUE_TYPE_BYTE,
            KVValue::Int(_) => VALUE_TYPE_INT,
            KVValue::Long(_) => VALUE_TYPE_LONG,
            KVValue::Float(_) => VALUE_TYPE_FLOAT,
            KVValue::Double(_) => VALUE_TYPE_DOUBLE,
            KVValue::String(_) => VALUE_TYPE_STRING,
            KVValue::ByteArray(_) => VALUE_TYPE_BYTE_ARRAY,
            KVValue::IntArray(_) => VALUE_TYPE_INT_ARRAY,
            KVValue::LongArray(_) => VALUE_TYPE_LONG_ARRAY,
            KVValue::FloatArray(_) => VALUE_TYPE_FLOAT_ARRAY,
            KVValue::DoubleArray(_) => VALUE_TYPE_DOUBLE_ARRAY,
        }
    }

    /// A copy of this value.
    pub fn clone_value(&self) -> (r: KVValue)
        ensures
            r@ == self@,
    {
        match self {
            KVValue::Deleted => KVValue::Deleted,
            KVValue::Bool(v) => KVValue::Bool(*v),
            KVValue::Byte(v) => KVValue::Byte(*v),
            KVValue::Int(v) => KVValue::Int(*v),
            KVValue::Long(v) => KVValue::Long(*v),
            KVValue::Float(v) => KVValue::Float(*v),
            KVValue::Double(v) => KVValue::Double(*v),
            KVValue::String(v) => KVValue::String(v.clone()),
            KVValue::ByteArray(v) => KVValue::ByteArray(copy_vec(v)),
            KVValue::IntArray(v) => KVValue::IntArray(copy_vec(v)),
            KVValue::LongArray(v) => KVValue::LongArray(copy_vec(v)),
            KVValue::FloatArray(v) => KVValue::FloatArray(copy_vec(v)),
            KVValue::DoubleArray(v) => KVValue::DoubleArray(copy_vec(v)),
        }
    }
}

/// The bytes that `value` is stored as, when `value_type` is its type code.
pub fn value_to_byte_array(value: &KVValue, value_type: u8) -> (r: Result<Vec<u8>>)
    ensures
        match r {
            Ok(b) => !(value@ is Deleted) && spec_kind(value@) == value_type && b@
                == spec_encode_value(value@),
            Err(e) => (value@ is Deleted || spec_kind(value@) != value_type) && e
                == GuiXuError::TypeError { stored: spec_kind(value@), expected: value_type },
        },
{
    match value {
        KVValue::Bool(v) => if value_type == VALUE_TYPE_BOOLEAN {
            let mut out: Vec<u8> = Vec::new();
            out.push(if *v { BOOLEAN_TRUE } else { 0u8 });
            assert(out@ =~= spec_encode_value(value@));
            return Ok(out);
        },
        KVValue::Byte(v) => if value_type == VALUE_TYPE_BYTE {
            let mut out: Vec<u8> = Vec::new();
            out.push(*v);
            assert(out@ =~= spec_encode_value(value@));
            return Ok(out);
        },
        KVValue::Int(v) => if value_type == VALUE_TYPE_INT {
            let b = i32_to_bytes(*v);
            return Ok(copy_slice(&b));
        },
        KVValue::Long(v) => if value_type == VALUE_TYPE_LONG {
            let b = u64_to_bytes(*v);
            return Ok(copy_slice(&b));
        },
        KVValue::Float(v) => if value_type == VALUE_TYPE_FLOAT {
            let b = u32_to_bytes(*v);
            return Ok(copy_slice(&b));
        },
        KVValue::Double(v) => if value_type == VALUE_TYPE_DOUBLE {
            let b = u64_to_bytes(*v);
            return Ok(copy_slice(&b));
        },
        KVValue::String(v) => if value_type == VALUE_TYPE_STRING {
            return Ok(copy_slice(v.as_str().as_bytes()));
        },
        KVValue::ByteArray(v) => if value_type == VALUE_TYPE_BYTE_ARRAY {
            return Ok(copy_vec(v));
        },
        KVValue::IntArray(v) => if value_type == VALUE_TYPE_INT_ARRAY {
            return Ok(i32_slice_to_bytes(v.as_slice()));
        },
        KVValue::LongArray(v) => if value_type == VALUE_TYPE_LONG_ARRAY {
            return Ok(u64_slice_to_bytes(v.as_slice()));
        },
        KVValue::FloatArray(v) => if value_type == VALUE_TYPE_FLOAT_ARRAY {
            return Ok(u32_slice_to_bytes(v.as_slice()));
        },
        KVValue::DoubleArray(v) => if value_type == VALUE_TYPE_DOUBLE_ARRAY {
            return Ok(u64_slice_to_bytes(v.as_slice()));
        },
        KVValue::Deleted => {},
    }
    Err(GuiXuError::TypeError { stored: value.kind(), expected: value_type })
}

/// The value that the stored bytes `bytes` of type `value_type` hold.
pub fn byte_array_to_value(bytes: &[u8], value_type: u8) -> (r: Result<KVValue>)
    ensures
        is_value_type(value_type) ==> match spec_decode_value(bytes@, value_type) {
            Some(v) => r is Ok && r->Ok_0@ == v,
            None => r is Err && r->Err_0 is Corrupt,
        },
        !is_value_type(value_type) ==> r == Err::<KVValue, GuiXuError>(
            GuiXuError::TypeError { stored: value_type, expected: value_type },
        ),
{
    let n = bytes.len();
    if value_type == VALUE_TYPE_BOOLEAN {
        Ok(KVValue::Bool(n > 0 && bytes[0] == BOOLEAN_TRUE))
    } else if value_type == VALUE_TYPE_BYTE {
        Ok(KVValue::Byte(if n > 0 { bytes[0] } else { 0 }))
    } else if value_type == VALUE_TYPE_INT {
        if n < 4 {
            return Err(GuiXuError::Corrupt("stored int is shorter than 4 bytes".to_string()));
        }
        Ok(KVValue::Int(bytes_to_i32(bytes)))
    } else if value_type == VALUE_TYPE_LONG {
        if n < 8 {
            return Err(GuiXuError::Corrupt("stored long is shorter than 8 bytes".to_string()));
        }
        Ok(KVValue::Long(bytes_to_u64(bytes)))
    } else if value_type == VALUE_TYPE_FLOAT {
        if n < 4 {
            return Err(GuiXuError::Corrupt("stored float is shorter than 4 bytes".to_string()));
        }
        Ok(KVValue::Float(bytes_to_u32(bytes)))
    } else if value_type == VALUE_TYPE_DOUBLE {
        if n < 8 {
            return Err(GuiXuError::Corrupt("stored double is shorter than 8 bytes".to_string()));
        }
        Ok(KVValue::Double(bytes_to_u64(bytes)))
    } else if value_type == VALUE_TYPE_STRING {
        match string_from_utf8(copy_slice(bytes)) {
            Ok(s) => Ok(KVValue::String(s)),
            Err(message) => Err(GuiXuError::Corrupt(message)),
        }
    } else if value_type == VALUE_TYPE_BYTE_ARRAY {
        Ok(KVValue::ByteArray(copy_slice(bytes)))
    } else if value_type == VALUE_TYPE_INT_ARRAY {
        Ok(KVValue::IntArray(bytes_to_i32_vec(bytes)))
    } else if value_type == VALUE_TYPE_LONG_ARRAY {
        Ok(KVValue::LongArray(bytes_to_u64_vec(bytes)))
    } else if value_type == VALUE_TYPE_FLOAT_ARRAY {
        Ok(KVValue::FloatArray(bytes_to_u32_vec(bytes)))
    } else if value_type == VALUE_TYPE_DOUBLE_ARRAY {
        Ok(KVValue::DoubleArray(bytes_to_u64_vec(bytes)))
    } else {
        Err(GuiXuError::TypeError { stored: value_type, expected: value_type })
    }
}

/// The error for a value found with another type than `expected`.
pub fn type_error(value: KVValue, expected: u8) -> (r: GuiXuError)
    ensures
        r == (GuiXuError::TypeError { stored: spec_kind(value@), expected }),
{
    GuiXuError::TypeError { stored: value.kind(), expected }
}

} // verus!
