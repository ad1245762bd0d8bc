//! Decodes bytes that the encoder wrote, under the same schema.

use vstd::prelude::*;
use crate::value::{
    Number, Value, ValueView, entry_views_of, lemma_entry_views_of, lemma_views_of,
    make_int_number, views_of,
};
use crate::number::decode_number;
use crate::types::{InstanceType, Schema, SingleOrVec, contains_type};
use crate::varint::{read_byte, read_bytes, read_uvarint, read_uvarint128};
use crate::text::{bytes_less, string_from_utf8_lossy, lossy_chars};
use crate::format::{decode_formatted, format_tag_of, TAG_PATTERN_COMPRESSED};
use crate::encoder::{find_prop, item_schema_at};
use crate::spec_enc::{
    TAG_ARRAY, TAG_BOOL_FALSE, TAG_BOOL_TRUE, TAG_NUMBER, TAG_OBJECT, TAG_OPTIMIZED_NUMBER,
    TAG_STRING, lemma_item_schema_decreases,
    lemma_prop_schema_decreases, required_of,
};
use crate::spec_dec::{
    affix_bytes, count_plus, dec_compact_number, dec_extras, dec_items, dec_required, dec_schema, dec_string_bytes, dec_typed, dec_untyped, dec_untyped_entries, dec_untyped_items, key_lt, obj_insert, opt_decode,
    take_bytes,
};

verus! {

/// Decodes the value that `buf` holds under `schema`.
pub fn decode(buf: &[u8], schema: &Schema) -> (v: Value)
    ensures
        v@ == dec_schema(buf@, 0, *schema).0,
{
    let mut pos: usize = 0;
    decode_schema(buf, &mut pos, schema)
}

/// `obj_insert` skips the entries before the first one whose key equals `k`
/// or sorts after it.
proof fn lemma_obj_insert_skip(m: Seq<(Seq<char>, ValueView)>, k: Seq<char>, v: ValueView, j: int)
    requires
        0 <= j <= m.len(),
        forall|i: int| 0 <= i < j ==> m[i].0 != k && !key_lt(k, #[trigger] m[i].0),
    ensures
        obj_insert(m, k, v) == m.subrange(0, j) + obj_insert(m.subrange(j, m.len() as int), k, v),
    decreases j,
{
    if j > 0 {
        let t = m.subrange(1, m.len() as int);
        lemma_obj_insert_skip(t, k, v, j - 1);
        assert(t.subrange(0, j - 1) =~= m.subrange(1, j));
        assert(t.subrange(j - 1, t.len() as int) =~= m.subrange(j, m.len() as int));
        assert(m.subrange(0, j) =~= seq![m[0]] + m.subrange(1, j));
    } else {
        assert(m.subrange(0, 0) + obj_insert(m.subrange(0, m.len() as int), k, v) =~= obj_insert(m, k, v)) by {
            assert(m.subrange(0, m.len() as int) =~= m);
        }
    }
}

/// Puts `(k, v)` into the sorted entries `m`: replaces the entry keyed `k`,
/// or inserts where the key order places it.
pub fn insert_entry(m: &mut Vec<(String, Value)>, k: String, v: Value)
    ensures
        entry_views_of(final(m)@) == obj_insert(entry_views_of(old(m)@), k@, v@),
{
    proof { lemma_entry_views_of(m@); }
    let ghost mv = entry_views_of(m@);
    let mut j: usize = 0;
    while j < m.len()
        invariant
            j <= m@.len(),
            m@ == old(m)@,
            mv == entry_views_of(m@),
            mv.len() == m@.len(),
            forall|i: int| 0 <= i < m@.len() ==> #[trigger] mv[i] == (m@[i].0@, m@[i].1@),
            forall|i: int| 0 <= i < j ==> mv[i].0 != k@ && !key_lt(k@, #[trigger] mv[i].0),
        ensures
            j <= m@.len(),
            m@ == old(m)@,
            forall|i: int| 0 <= i < j ==> mv[i].0 != k@ && !key_lt(k@, #[trigger] mv[i].0),
            j < m@.len() ==> (mv[j as int].0 == k@ || key_lt(k@, mv[j as int].0)),
        decreases m.len() - j,
    {
        if m[j].0 == k || bytes_less(k.as_str().as_bytes(), m[j].0.as_str().as_bytes()) {
            break;
        }
        j += 1;
    }
    proof { lemma_obj_insert_skip(mv, k@, v@, j as int); }
    let ghost tail = mv.subrange(j as int, mv.len() as int);
    if j < m.len() && m[j].0 == k {
        m.remove(j);
        m.insert(j, (k, v));
        proof {
            lemma_entry_views_of(m@);
            assert(tail[0].0 == k@);
            assert(entry_views_of(m@) =~= mv.subrange(0, j as int) + (seq![(k@, v@)] + tail.subrange(1, tail.len() as int)));
        }
    } else {
        let ghost kv = k@;
        let ghost vv = v@;
        m.insert(j, (k, v));
        proof {
            lemma_entry_views_of(m@);
            if j < mv.len() {
                assert(key_lt(kv, tail[0].0));
                assert(entry_views_of(m@) =~= mv.subrange(0, j as int) + (seq![(kv, vv)] + tail));
            } else {
                assert(entry_views_of(m@) =~= mv.subrange(0, j as int) + seq![(kv, vv)]);
            }
        }
    }
}

/// Reads `len` bytes at `*pos` as a string (invalid UTF-8 replaced).
pub(crate) fn read_string(buf: &[u8], pos: &mut usize, len: u64) -> (s: String)
    requires
        *old(pos) <= buf@.len(),
    ensures
        (s@, *final(pos) as int) == ({
            let (sb, p) = take_bytes(buf@, *old(pos) as int, len as int);
            (crate::text::lossy_chars(sb), p)
        }),
        *old(pos) <= *final(pos) <= buf@.len(),
{
    let (start, end) = read_bytes(buf, pos, len);
    let sl = &buf[start..end];
    assert(sl@ =~= take_bytes(buf@, *old(pos) as int, len as int).0);
    string_from_utf8_lossy(sl)
}

/// Reads a length-prefixed compact number; unreadable bytes give 0.
fn read_compact_number(buf: &[u8], pos: &mut usize) -> (n: Number)
    requires
        *old(pos) <= buf@.len(),
    ensures
        (n, *final(pos) as int) == dec_compact_number(buf@, *old(pos) as int),
        *old(pos) <= *final(pos) <= buf@.len(),
{
    let len = read_uvarint(buf, pos);
    let ghost p1 = *pos as int;
    let (start, end) = read_bytes(buf, pos, len);
    let sl = &buf[start..end];
    assert(sl@ =~= take_bytes(buf@, p1, len as int).0);
    match decode_number(sl) {
        Some(n) => n,
        None => Number::Int64(0),
    }
}

/// The integer that an optimized payload stands for.
fn optimized_value(d: u128, schema: &Schema) -> (r: i128)
    ensures
        r == opt_decode(d, *schema),
{
    let x = d as i128;
    match (schema.multiple_of, schema.minimum) {
        (Some(mul), Some(min)) => {
            let rem_zero = match min.checked_rem(mul) {
                Some(r) => r == 0,
                None => false,
            };
            if rem_zero {
                min.wrapping_add(x.wrapping_mul(mul))
            } else {
                x.wrapping_mul(mul)
            }
        },
        (Some(mul), None) => x.wrapping_mul(mul),
        (None, Some(min)) => min.wrapping_add(x),
        (None, None) => x,
    }
}

/// Decodes the value at `*pos` under `schema`.
pub(crate) fn decode_schema(buf: &[u8], pos: &mut usize, schema: &Schema) -> (v: Value)
    requires
        *old(pos) <= buf@.len(),
    ensures
        (v@, *final(pos) as int) == dec_schema(buf@, *old(pos) as int, *schema),
        *old(pos) <= *final(pos) <= buf@.len(),
    decreases *schema, 4nat, 0nat,
{
    if let Some(c) = &schema.const_value {
        return c.duplicate();
    }
    if let Some(enums) = &schema.enum_values {
        let idx = read_uvarint(buf, pos);
        if idx < enums.len() as u64 {
            return enums[idx as usize].duplicate();
        }
        return Value::Null;
    }
    match &schema.instance_type {
        Some(SingleOrVec::Single(instance_type)) => {
            decode_typed_value(buf, pos, *instance_type, schema)
        },
        Some(SingleOrVec::Vec(types)) => {
            let start = *pos;
            let tag = read_byte(buf, pos);
            if tag == TAG_NUMBER && (contains_type(types, InstanceType::Integer) || contains_type(
                types,
                InstanceType::Number,
            )) {
                let inner = read_byte(buf, pos);
                if inner == TAG_OPTIMIZED_NUMBER {
                    let d = read_uvarint128(buf, pos);
                    return Value::Number(make_int_number(optimized_value(d, schema)));
                }
            }
            *pos = start;
            decode_untyped_value(buf, pos)
        },
        None => decode_untyped_value(buf, pos),
    }
}

/// The count of a `min*`-shortened length.
pub(crate) fn count_with_min(len: u64, min: Option<u64>) -> (n: u64)
    ensures
        n as nat == count_plus(len, min),
{
    match min {
        Some(m) => if len > u64::MAX - m {
            u64::MAX
        } else {
            len + m
        },
        None => len,
    }
}

/// Decodes the value at `*pos` under `schema`, whose type is the single
/// `instance_type`.
fn decode_typed_value(buf: &[u8], pos: &mut usize, instance_type: InstanceType, schema: &Schema) -> (v: Value)
    requires
        *old(pos) <= buf@.len(),
    ensures
        (v@, *final(pos) as int) == dec_typed(buf@, *old(pos) as int, instance_type, *schema),
        *old(pos) <= *final(pos) <= buf@.len(),
    decreases *schema, 3nat, 0nat,
{
    match instance_type {
        InstanceType::Null => Value::Null,
        InstanceType::Boolean => {
            let b = read_byte(buf, pos);
            Value::Bool(b != 0)
        },
        InstanceType::Number | InstanceType::Integer => {
            let start = *pos;
            let tag = read_byte(buf, pos);
            if tag == TAG_OPTIMIZED_NUMBER {
                let d = read_uvarint128(buf, pos);
                Value::Number(make_int_number(optimized_value(d, schema)))
            } else {
                *pos = start;
                Value::Number(read_compact_number(buf, pos))
            }
        },
        InstanceType::String => {
            let b = decode_string_bytes(buf, pos, schema);
            Value::String(string_from_utf8_lossy(b.as_slice()))
        },
        InstanceType::Object => decode_object(buf, pos, schema),
        InstanceType::Array => {
            let len = read_uvarint(buf, pos);
            let n = count_with_min(len, schema.min_items);
            let ghost p1 = *pos as int;
            let mut arr: Vec<Value> = Vec::new();
            let mut i: u64 = 0;
            proof { lemma_views_of(arr@); }
            while i < n
                invariant
                    p1 <= *pos <= buf@.len(),
                    i <= n,
                    dec_items(buf@, p1, *schema, 0, n as nat) == (views_of(arr@) + dec_items(buf@, *pos as int, *schema, i as nat, n as nat).0,
                        dec_items(buf@, *pos as int, *schema, i as nat, n as nat).1),
                decreases n - i,
            {
                proof { lemma_item_schema_decreases(*schema, i as int); }
                let ghost before = *pos as int;
                let ghost prev = views_of(arr@);
                let ghost old_arr = arr@;
                let v = match item_schema_at(schema, i) {
                    Some(ss) => decode_schema(buf, pos, ss),
                    None => decode_untyped_value(buf, pos),
                };
                let ghost vv = v@;
                arr.push(v);
                proof {
                    assert(arr@.subrange(0, arr@.len() - 1) =~= old_arr);
                    assert(views_of(arr@) == views_of(arr@.subrange(0, arr@.len() - 1)).push(arr@[arr@.len() - 1]@));
                    assert(views_of(arr@) == prev.push(vv));
                    let r = dec_items(buf@, *pos as int, *schema, (i + 1) as nat, n as nat);
                    assert(dec_items(buf@, before, *schema, i as nat, n as nat) == (seq![vv] + r.0, r.1));
                    assert(prev + (seq![vv] + r.0) =~= prev.push(vv) + r.0);
                }
                i += 1;
            }
            proof {
                assert(views_of(arr@) + Seq::<ValueView>::empty() =~= views_of(arr@));
            }
            Value::Array(arr)
        },
    }
}

/// Decodes the bytes of a string under a string schema at `*pos`.
fn decode_string_bytes(buf: &[u8], pos: &mut usize, schema: &Schema) -> (b: Vec<u8>)
    requires
        *old(pos) <= buf@.len(),
    ensures
        (b@, *final(pos) as int) == dec_string_bytes(buf@, *old(pos) as int, *schema),
        *old(pos) <= *final(pos) <= buf@.len(),
{
    if let Some(format) = &schema.format {
        if let Some(expected) = format_tag_of(format.as_str()) {
            let tag = read_byte(buf, pos);
            if tag == expected {
                return decode_formatted(format.as_str(), buf, pos);
            }
        }
    } else if schema.pattern_prefix.is_some() || schema.pattern_suffix.is_some() {
        let tag = read_byte(buf, pos);
        if tag == TAG_PATTERN_COMPRESSED {
            let len = read_uvarint(buf, pos);
            let (start, end) = read_bytes(buf, pos, len);
            let mut out: Vec<u8> = Vec::new();
            if let Some(p) = &schema.pattern_prefix {
                let pb = p.as_str().as_bytes();
                crate::format::push_range(&mut out, pb, 0, pb.len());
                assert(pb@.subrange(0, pb@.len() as int) =~= pb@);
            }
            let ghost mid = out@;
            crate::format::push_range(&mut out, buf, start, end);
            if let Some(q) = &schema.pattern_suffix {
                let qb = q.as_str().as_bytes();
                crate::format::push_range(&mut out, qb, 0, qb.len());
                assert(qb@.subrange(0, qb@.len() as int) =~= qb@);
            }
            assert(out@ =~= affix_bytes(schema.pattern_prefix) + take_bytes(buf@, (*pos - (end - start)) as int, len as int).0 + affix_bytes(schema.pattern_suffix));
            return out;
        }
    }
    let len = read_uvarint(buf, pos);
    let n = count_with_min(len, schema.min_length);
    let (start, end) = read_bytes(buf, pos, n);
    let mut out: Vec<u8> = Vec::new();
    crate::format::push_range(&mut out, buf, start, end);
    assert(out@ =~= buf@.subrange(start as int, end as int));
    out
}

/// Decodes a typed object at `*pos`: required properties by position, then
/// the keyed others.
fn decode_object(buf: &[u8], pos: &mut usize, schema: &Schema) -> (v: Value)
    requires
        *old(pos) <= buf@.len(),
    ensures
        (v@, *final(pos) as int) == ({
            let (m, p1) = dec_required(buf@, *old(pos) as int, *schema, 0, Seq::empty());
            let (count, p2) = crate::varint::read_uvarint_spec(buf@, p1);
            let (m2, p3) = dec_extras(buf@, p2, *schema, count as nat, m);
            (ValueView::Object(m2), p3)
        }),
        *old(pos) <= *final(pos) <= buf@.len(),
    decreases *schema, 2nat, 0nat,
{
    let mut obj: Vec<(String, Value)> = Vec::new();
    let ghost p0 = *pos as int;
    proof { lemma_entry_views_of(obj@); }
    if let Some(required) = &schema.required {
        let mut i: usize = 0;
        while i < required.len()
            invariant
                schema.required == Some(*required),
                p0 <= *pos <= buf@.len(),
                i <= required@.len(),
                dec_required(buf@, p0, *schema, 0, Seq::empty()) == dec_required(buf@, *pos as int, *schema, i as nat, entry_views_of(obj@)),
            decreases required.len() - i,
        {
            let key = &required[i];
            assert(required_of(*schema)[i as int] == *key);
            proof { lemma_prop_schema_decreases(*schema, key@); }
            let v = match find_prop(schema, key) {
                Some(ss) => decode_schema(buf, pos, ss),
                None => decode_untyped_value(buf, pos),
            };
            insert_entry(&mut obj, key.clone(), v);
            i += 1;
        }
    }
    let count = read_uvarint(buf, pos);
    let ghost p2 = *pos as int;
    let ghost m1 = entry_views_of(obj@);
    let mut i: u64 = 0;
    while i < count
        invariant
            p0 <= p2 <= *pos <= buf@.len(),
            i <= count,
            dec_extras(buf@, p2, *schema, count as nat, m1) == dec_extras(buf@, *pos as int, *schema, (count - i) as nat, entry_views_of(obj@)),
        decreases count - i,
    {
        let klen = read_uvarint(buf, pos);
        let key = read_string(buf, pos, klen);
        proof { lemma_prop_schema_decreases(*schema, key@); }
        let v = match find_prop(schema, &key) {
            Some(ss) => decode_schema(buf, pos, ss),
            None => decode_untyped_value(buf, pos),
        };
        insert_entry(&mut obj, key, v);
        i += 1;
    }
    Value::Object(obj)
}

/// Decodes the untyped value at `*pos`.
pub(crate) fn decode_untyped_value(buf: &[u8], pos: &mut usize) -> (v: Value)
    requires
        *old(pos) <= buf@.len(),
    ensures
        (v@, *final(pos) as int) == dec_untyped(buf@, *old(pos) as int),
        *old(pos) <= *final(pos) <= buf@.len(),
    decreases buf@.len() - *old(pos),
{
    if *pos >= buf.len() {
        return Value::Null;
    }
    let ghost p0 = *pos as int;
    let tag = read_byte(buf, pos);
    if tag == TAG_BOOL_FALSE {
        Value::Bool(false)
    } else if tag == TAG_BOOL_TRUE {
        Value::Bool(true)
    } else if tag == TAG_NUMBER {
        Value::Number(read_compact_number(buf, pos))
    } else if tag == TAG_STRING {
        let len = read_uvarint(buf, pos);
        Value::String(read_string(buf, pos, len))
    } else if tag == TAG_ARRAY {
        let len = read_uvarint(buf, pos);
        let ghost p2 = *pos as int;
        let mut arr: Vec<Value> = Vec::new();
        let mut i: u64 = 0;
        proof { lemma_views_of(arr@); }
        while i < len
            invariant
                p2 <= *pos <= buf@.len(),
                p0 < p2,
                p0 == *old(pos),
                i <= len,
                dec_untyped_items(buf@, p2, len as nat) == (views_of(arr@) + dec_untyped_items(buf@, *pos as int, (len - i) as nat).0,
                    dec_untyped_items(buf@, *pos as int, (len - i) as nat).1),
            decreases len - i,
        {
            let ghost before = *pos as int;
            let ghost prev = views_of(arr@);
            let ghost old_arr = arr@;
            let v = decode_untyped_value(buf, pos);
            let ghost vv = v@;
            arr.push(v);
            proof {
                assert(arr@.subrange(0, arr@.len() - 1) =~= old_arr);
                assert(views_of(arr@) == views_of(arr@.subrange(0, arr@.len() - 1)).push(arr@[arr@.len() - 1]@));
                let r = dec_untyped_items(buf@, *pos as int, (len - i - 1) as nat);
                assert(dec_untyped_items(buf@, before, (len - i) as nat) == (seq![vv] + r.0, r.1));
                assert(prev + (seq![vv] + r.0) =~= prev.push(vv) + r.0);
            }
            i += 1;
        }
        proof { assert(views_of(arr@) + Seq::<ValueView>::empty() =~= views_of(arr@)); }
        Value::Array(arr)
    } else if tag == TAG_OBJECT {
        let len = read_uvarint(buf, pos);
        let ghost p2 = *pos as int;
        let mut obj: Vec<(String, Value)> = Vec::new();
        let mut i: u64 = 0;
        proof { lemma_entry_views_of(obj@); }
        while i < len
            invariant
                p2 <= *pos <= buf@.len(),
                p0 < p2,
                p0 == *old(pos),
                i <= len,
                dec_untyped_entries(buf@, p2, len as nat, Seq::empty()) == dec_untyped_entries(buf@, *pos as int, (len - i) as nat, entry_views_of(obj@)),
            decreases len - i,
        {
            let klen = read_uvarint(buf, pos);
            let key = read_string(buf, pos, klen);
            let v = decode_untyped_value(buf, pos);
            insert_entry(&mut obj, key, v);
            i += 1;
        }
        Value::Object(obj)
    } else {
        Value::Null
    }
}

} // verus!
