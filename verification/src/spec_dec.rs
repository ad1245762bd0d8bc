//! What the decoder reads back from bytes, as spec functions.

use vstd::prelude::*;
use vstd::utf8::encode_utf8;
use crate::value::{Number, ValueView, int_number};
use crate::number::decode_number_spec;
use crate::types::{InstanceType, Schema, SingleOrVec};
use crate::varint::{byte_at, next_pos, read_uvarint_spec, read_uvarint128_spec};
use crate::text::{bytes_lt, lossy_chars};
use crate::format::{format_decode, known_format, compressed_tag, TAG_PATTERN_COMPRESSED};
use crate::spec_enc::{
    TAG_ARRAY, TAG_BOOL_FALSE, TAG_BOOL_TRUE, TAG_NUMBER, TAG_OBJECT,
    TAG_OPTIMIZED_NUMBER, TAG_STRING, has_numeric_type, item_schema, prop_schema, required_of,
    trem, lemma_prop_schema_decreases, lemma_item_schema_decreases,
};

verus! {

/// Keys sort by their UTF-8 bytes, as `String`s do.
pub open spec fn key_lt(a: Seq<char>, b: Seq<char>) -> bool {
    bytes_lt(encode_utf8(a), encode_utf8(b))
}

/// The object entries `m` with `(k, v)` put in: replacing the entry keyed
/// `k`, or inserted where the key order places it.
pub open spec fn obj_insert(
    m: Seq<(Seq<char>, ValueView)>,
    k: Seq<char>,
    v: ValueView,
) -> Seq<(Seq<char>, ValueView)>
    decreases m.len(),
{
    if m.len() == 0 {
        seq![(k, v)]
    } else if m[0].0 == k {
        seq![(k, v)] + m.subrange(1, m.len() as int)
    } else if key_lt(k, m[0].0) {
        seq![(k, v)] + m
    } else {
        seq![m[0]] + obj_insert(m.subrange(1, m.len() as int), k, v)
    }
}

/// The bytes `len` long at `pos` and the position after them; when the
/// buffer holds fewer, no bytes and the position unchanged.
pub open spec fn take_bytes(b: Seq<u8>, pos: int, len: int) -> (Seq<u8>, int) {
    if 0 <= pos && pos + len <= b.len() {
        (b.subrange(pos, pos + len), pos + len)
    } else {
        (Seq::empty(), pos)
    }
}

/// `q` when it lies between `p` and the end of the buffer, else `p`.
pub open spec fn advance(b: Seq<u8>, p: int, q: int) -> int {
    if p <= q <= b.len() {
        q
    } else {
        p
    }
}

/// Whether Rust's `min % mul` is defined and zero.
pub open spec fn rem_is_zero(min: i128, mul: i128) -> bool {
    mul != 0 && !(min == i128::MIN && mul == -1) && trem(min as int, mul as int) == 0
}

/// The integer that an optimized payload stands for under the schema's
/// `multipleOf` and `minimum`, in wrapping `i128` arithmetic.
pub open spec fn opt_decode(d: u128, s: Schema) -> i128 {
    let x = d as i128;
    match (s.multiple_of, s.minimum) {
        (Some(mul), Some(min)) => if rem_is_zero(min, mul) {
            vstd::wrapping::i128_specs::wrapping_add(min, vstd::wrapping::i128_specs::wrapping_mul(x, mul))
        } else {
            vstd::wrapping::i128_specs::wrapping_mul(x, mul)
        },
        (Some(mul), None) => vstd::wrapping::i128_specs::wrapping_mul(x, mul),
        (None, Some(min)) => vstd::wrapping::i128_specs::wrapping_add(min, x),
        (None, None) => x,
    }
}

/// The number that a length-prefixed compact encoding at `pos` holds, and
/// the position after it; unreadable bytes give 0.
pub open spec fn dec_compact_number(b: Seq<u8>, pos: int) -> (Number, int) {
    let (len, p1) = read_uvarint_spec(b, pos);
    let (nb, p2) = take_bytes(b, p1, len as int);
    (
        match decode_number_spec(nb) {
            Some(n) => n,
            None => Number::Int64(0),
        },
        p2,
    )
}

/// The untyped value at `pos`, and the position after it.
pub open spec fn dec_untyped(b: Seq<u8>, pos: int) -> (ValueView, int)
    decreases 2 * ((b.len() - pos) as nat) + 1, 0nat,
{
    let tag = byte_at(b, pos);
    let p1 = next_pos(b, pos);
    if !(0 <= pos < b.len()) {
        (ValueView::Null, pos)
    } else if tag == TAG_BOOL_FALSE {
        (ValueView::Bool(false), p1)
    } else if tag == TAG_BOOL_TRUE {
        (ValueView::Bool(true), p1)
    } else if tag == TAG_NUMBER {
        let (n, p2) = dec_compact_number(b, p1);
        (ValueView::Number(n), p2)
    } else if tag == TAG_STRING {
        let (len, p2) = read_uvarint_spec(b, p1);
        let (sb, p3) = take_bytes(b, p2, len as int);
        (ValueView::String(lossy_chars(sb)), p3)
    } else if tag == TAG_ARRAY {
        let (len, p2) = read_uvarint_spec(b, p1);
        let (items, p3) = dec_untyped_items(b, advance(b, p1, p2), len as nat);
        (ValueView::Array(items), p3)
    } else if tag == TAG_OBJECT {
        let (len, p2) = read_uvarint_spec(b, p1);
        let (m, p3) = dec_untyped_entries(b, advance(b, p1, p2), len as nat, Seq::empty());
        (ValueView::Object(m), p3)
    } else {
        (ValueView::Null, p1)
    }
}

/// `n` untyped values in a row from `pos`.
pub open spec fn dec_untyped_items(b: Seq<u8>, pos: int, n: nat) -> (Seq<ValueView>, int)
    decreases 2 * ((b.len() - pos) as nat) + 2, n,
{
    if n == 0 || !(0 <= pos <= b.len()) {
        (Seq::empty(), pos)
    } else {
        let (v, p1) = dec_untyped(b, pos);
        let (rest, p2) = dec_untyped_items(b, advance(b, pos, p1), (n - 1) as nat);
        (seq![v] + rest, p2)
    }
}

/// The key bytes (length, then bytes) at `pos` as characters, and the
/// position after them.
pub open spec fn dec_key(b: Seq<u8>, pos: int) -> (Seq<char>, int) {
    let (len, p1) = read_uvarint_spec(b, pos);
    let (kb, p2) = take_bytes(b, p1, len as int);
    (lossy_chars(kb), p2)
}

/// `n` untyped keyed entries in a row from `pos`, put into `m`.
pub open spec fn dec_untyped_entries(
    b: Seq<u8>,
    pos: int,
    n: nat,
    m: Seq<(Seq<char>, ValueView)>,
) -> (Seq<(Seq<char>, ValueView)>, int)
    decreases 2 * ((b.len() - pos) as nat) + 2, n,
{
    if n == 0 || !(0 <= pos <= b.len()) {
        (m, pos)
    } else {
        let (k, p1) = dec_key(b, pos);
        let q = advance(b, pos, p1);
        let (v, p2) = dec_untyped(b, q);
        dec_untyped_entries(b, advance(b, q, p2), (n - 1) as nat, obj_insert(m, k, v))
    }
}

/// A count read as a length, raised by the `min*` keyword (saturating).
pub open spec fn count_plus(len: u64, min: Option<u64>) -> nat {
    match min {
        Some(m) => if len + m > u64::MAX {
            u64::MAX as nat
        } else {
            (len + m) as nat
        },
        None => len as nat,
    }
}

/// A plain string under a string schema at `pos`: its length (raised by
/// `minLength`) and bytes.
pub open spec fn dec_plain_string(b: Seq<u8>, pos: int, s: Schema) -> (Seq<u8>, int) {
    let (len, p1) = read_uvarint_spec(b, pos);
    take_bytes(b, p1, count_plus(len, s.min_length) as int)
}

/// The bytes of the string under a string schema at `pos`, and the position
/// after it.
pub open spec fn dec_string_bytes(b: Seq<u8>, pos: int, s: Schema) -> (Seq<u8>, int) {
    match s.format {
        Some(f) => if known_format(f@) {
            let tag = byte_at(b, pos);
            let p1 = next_pos(b, pos);
            if tag == compressed_tag(f@) {
                format_decode(f@, b, p1)
            } else {
                dec_plain_string(b, p1, s)
            }
        } else {
            dec_plain_string(b, pos, s)
        },
        None => if s.pattern_prefix is Some || s.pattern_suffix is Some {
            let tag = byte_at(b, pos);
            let p1 = next_pos(b, pos);
            if tag == TAG_PATTERN_COMPRESSED {
                let (len, p2) = read_uvarint_spec(b, p1);
                let (core, p3) = take_bytes(b, p2, len as int);
                (affix_bytes(s.pattern_prefix) + core + affix_bytes(s.pattern_suffix), p3)
            } else {
                dec_plain_string(b, p1, s)
            }
        } else {
            dec_plain_string(b, pos, s)
        },
    }
}

/// The UTF-8 bytes of an optional affix, none when absent.
pub open spec fn affix_bytes(a: Option<String>) -> Seq<u8> {
    match a {
        Some(x) => encode_utf8(x@),
        None => Seq::empty(),
    }
}

/// The number under a numeric schema at `pos`.
pub open spec fn dec_typed_number(b: Seq<u8>, pos: int, s: Schema) -> (Number, int) {
    if byte_at(b, pos) == TAG_OPTIMIZED_NUMBER {
        let (d, p2) = read_uvarint128_spec(b, next_pos(b, pos));
        (int_number(opt_decode(d, s)), p2)
    } else {
        dec_compact_number(b, pos)
    }
}

/// The value under schema `s` at `pos`, and the position after it.
pub open spec fn dec_schema(b: Seq<u8>, pos: int, s: Schema) -> (ValueView, int)
    decreases s, 4nat, 0nat,
{
    if s.const_value is Some {
        (s.const_value.unwrap()@, pos)
    } else if s.enum_values is Some {
        let (idx, p1) = read_uvarint_spec(b, pos);
        let e = s.enum_values.unwrap()@;
        (if idx < e.len() { e[idx as int]@ } else { ValueView::Null }, p1)
    } else {
        match s.instance_type {
            Some(SingleOrVec::Single(t)) => dec_typed(b, pos, t, s),
            Some(SingleOrVec::Vec(ts)) => {
                let p1 = next_pos(b, pos);
                if byte_at(b, pos) == TAG_NUMBER && has_numeric_type(ts@) && byte_at(b, p1)
                    == TAG_OPTIMIZED_NUMBER {
                    let (d, p2) = read_uvarint128_spec(b, next_pos(b, p1));
                    (ValueView::Number(int_number(opt_decode(d, s))), p2)
                } else {
                    dec_untyped(b, pos)
                }
            },
            None => dec_untyped(b, pos),
        }
    }
}

/// The value under schema `s`, of single type `t`, at `pos`.
pub open spec fn dec_typed(b: Seq<u8>, pos: int, t: InstanceType, s: Schema) -> (ValueView, int)
    decreases s, 3nat, 0nat,
{
    match t {
        InstanceType::Null => (ValueView::Null, pos),
        InstanceType::Boolean => (ValueView::Bool(byte_at(b, pos) != 0), next_pos(b, pos)),
        InstanceType::Number | InstanceType::Integer => {
            let (n, p) = dec_typed_number(b, pos, s);
            (ValueView::Number(n), p)
        },
        InstanceType::String => {
            let (sb, p) = dec_string_bytes(b, pos, s);
            (ValueView::String(lossy_chars(sb)), p)
        },
        InstanceType::Object => {
            let (m, p1) = dec_required(b, pos, s, 0, Seq::empty());
            let (count, p2) = read_uvarint_spec(b, p1);
            let (m2, p3) = dec_extras(b, p2, s, count as nat, m);
            (ValueView::Object(m2), p3)
        },
        InstanceType::Array => {
            let (len, p1) = read_uvarint_spec(b, pos);
            let n = count_plus(len, s.min_items);
            let (items, p2) = dec_items(b, p1, s, 0, n);
            (ValueView::Array(items), p2)
        },
    }
}

/// The required properties from index `i` on, each under its property
/// schema, put into `m`.
pub open spec fn dec_required(
    b: Seq<u8>,
    pos: int,
    s: Schema,
    i: nat,
    m: Seq<(Seq<char>, ValueView)>,
) -> (Seq<(Seq<char>, ValueView)>, int)
    decreases s, 2nat, required_of(s).len() - i,
{
    if i >= required_of(s).len() {
        (m, pos)
    } else {
        let k = required_of(s)[i as int]@;
        proof { lemma_prop_schema_decreases(s, k); }
        let (v, p1) = match prop_schema(s, k) {
            Some(ss) => dec_schema(b, pos, ss),
            None => dec_untyped(b, pos),
        };
        dec_required(b, p1, s, i + 1, obj_insert(m, k, v))
    }
}

/// `n` keyed entries that are not required, each under its property schema
/// if it has one, put into `m`.
pub open spec fn dec_extras(
    b: Seq<u8>,
    pos: int,
    s: Schema,
    n: nat,
    m: Seq<(Seq<char>, ValueView)>,
) -> (Seq<(Seq<char>, ValueView)>, int)
    decreases s, 2nat, n,
{
    if n == 0 {
        (m, pos)
    } else {
        let (k, p1) = dec_key(b, pos);
        proof { lemma_prop_schema_decreases(s, k); }
        let (v, p2) = match prop_schema(s, k) {
            Some(ss) => dec_schema(b, p1, ss),
            None => dec_untyped(b, p1),
        };
        dec_extras(b, p2, s, (n - 1) as nat, obj_insert(m, k, v))
    }
}

/// The array elements from index `i` up to `n`, each under its item
/// schema.
pub open spec fn dec_items(b: Seq<u8>, pos: int, s: Schema, i: nat, n: nat) -> (Seq<ValueView>, int)
    decreases s, 2nat, n - i,
{
    if i >= n {
        (Seq::empty(), pos)
    } else {
        proof { lemma_item_schema_decreases(s, i as int); }
        let (v, p1) = match item_schema(s, i as int) {
            Some(ss) => dec_schema(b, pos, ss),
            None => dec_untyped(b, pos),
        };
        let (rest, p2) = dec_items(b, p1, s, i + 1, n);
        (seq![v] + rest, p2)
    }
}

} // verus!
