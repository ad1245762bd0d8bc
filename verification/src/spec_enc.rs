//! The byte layout that the encoder writes, as spec functions.

use vstd::prelude::*;
use vstd::utf8::encode_utf8;
use crate::value::{Number, Value, number_as_int};
use crate::number::number_bytes;
use crate::types::{InstanceType, Schema, SingleOrVec};
use crate::varint::{uvarint_bytes, uvarint128_bytes};
use crate::format::{format_bytes, pattern_bytes};
use crate::float64::{double_multiple, int_as_double, saturate_i128};

verus! {

pub const TAG_NULL: u8 = 0x00;
pub const TAG_BOOL_FALSE: u8 = 0x01;
pub const TAG_BOOL_TRUE: u8 = 0x02;
pub const TAG_NUMBER: u8 = 0x03;
pub const TAG_STRING: u8 = 0x04;
pub const TAG_ARRAY: u8 = 0x05;
pub const TAG_OBJECT: u8 = 0x06;
pub const TAG_OPTIMIZED_NUMBER: u8 = 0xFF;

/// The UTF-8 bytes of a string.
pub open spec fn str_bytes(s: String) -> Seq<u8> {
    encode_utf8(s@)
}

/// Rust's `/` on integers: the quotient rounded toward zero.
pub open spec fn tdiv(x: int, d: int) -> int {
    if x == 0 {
        0
    } else if x > 0 && d > 0 {
        x / d
    } else if x < 0 && d < 0 {
        (x * -1) / (d * -1)
    } else if x < 0 {
        ((x * -1) / d) * -1
    } else {
        (x / (d * -1)) * -1
    }
}

/// Rust's `%` on integers: the remainder that has the sign of `x`.
pub open spec fn trem(x: int, d: int) -> int {
    if x == 0 {
        0
    } else if x > 0 && d > 0 {
        x % d
    } else if x < 0 && d < 0 {
        ((x * -1) % (d * -1)) * -1
    } else if x < 0 {
        ((x * -1) % d) * -1
    } else {
        x % (d * -1)
    }
}

/// The count written for a length under a `min*` keyword: the excess over
/// the minimum when the length reaches it, else the length itself.
pub open spec fn adjusted_len(len: nat, min: Option<u64>) -> nat {
    match min {
        Some(m) => if len >= m {
            (len - m) as nat
        } else {
            len
        },
        None => len,
    }
}

/// The payload written for an integer under a schema's `multipleOf` and
/// `minimum`, when the schema shortens it: the quotient by `multipleOf`
/// (counted from `minimum` when that is a multiple of it and the value
/// reaches it), or the distance from `minimum`.
pub open spec fn opt_payload(val: int, s: Schema) -> Option<int> {
    match (s.multiple_of, s.minimum) {
        (Some(mul), Some(min)) => if trem(min as int, mul as int) == 0 {
            if val >= min {
                Some(tdiv(val - min, mul as int))
            } else {
                None
            }
        } else {
            Some(tdiv(val, mul as int))
        },
        (Some(mul), None) => Some(tdiv(val, mul as int)),
        (None, Some(min)) => if val >= min {
            Some(val - min)
        } else {
            None
        },
        (None, None) => None,
    }
}

/// The arithmetic of `opt_payload` on the `i128` value `val` divides by no
/// zero and stays within `i128`.
pub open spec fn opt_arith_ok(val: int, s: Schema) -> bool {
    match (s.multiple_of, s.minimum) {
        (Some(mul), Some(min)) => {
            &&& mul != 0
            &&& !(min == i128::MIN && mul == -1)
            &&& if trem(min as int, mul as int) == 0 {
                val >= min ==> val - min <= i128::MAX
            } else {
                !(val == i128::MIN && mul == -1)
            }
        },
        (Some(mul), None) => mul != 0 && !(val == i128::MIN && mul == -1),
        (None, Some(min)) => val >= min ==> val - min <= i128::MAX,
        (None, None) => true,
    }
}

/// The payload as written: the two's-complement bits of the `i128` quotient.
pub open spec fn payload_bits(p: int) -> u128 {
    (p as i128) as u128
}

/// The bytes of a number in its untyped form: tag, length, compact bytes.
pub open spec fn untyped_number_bytes(n: Number) -> Seq<u8> {
    seq![TAG_NUMBER] + uvarint_bytes(number_bytes(n).len() as u64) + number_bytes(n)
}

/// The bytes of a value with no schema.
pub open spec fn enc_untyped(v: Value) -> Seq<u8>
    decreases v, 1nat,
{
    match v {
        Value::Null => seq![TAG_NULL],
        Value::Bool(b) => seq![if b { TAG_BOOL_TRUE } else { TAG_BOOL_FALSE }],
        Value::Number(n) => untyped_number_bytes(n),
        Value::String(s) => seq![TAG_STRING] + uvarint_bytes(str_bytes(s).len() as u64) + str_bytes(s),
        Value::Array(a) => seq![TAG_ARRAY] + uvarint_bytes(a@.len() as u64) + enc_untyped_seq(a@),
        Value::Object(o) => seq![TAG_OBJECT] + uvarint_bytes(o@.len() as u64) + enc_untyped_entries(o@),
    }
}

/// The untyped bytes of each value in turn.
pub open spec fn enc_untyped_seq(s: Seq<Value>) -> Seq<u8>
    decreases s, 0nat,
{
    if s.len() == 0 {
        Seq::empty()
    } else {
        enc_untyped_seq(s.subrange(0, s.len() - 1)) + enc_untyped(s[s.len() - 1])
    }
}

/// The bytes of one object entry: key length, key, and the value's bytes.
pub open spec fn key_bytes(k: String) -> Seq<u8> {
    uvarint_bytes(str_bytes(k).len() as u64) + str_bytes(k)
}

/// The untyped bytes of each entry in turn, keys written out.
pub open spec fn enc_untyped_entries(s: Seq<(String, Value)>) -> Seq<u8>
    decreases s, 0nat,
{
    if s.len() == 0 {
        Seq::empty()
    } else {
        enc_untyped_entries(s.subrange(0, s.len() - 1)) + key_bytes(s[s.len() - 1].0) + enc_untyped(
            s[s.len() - 1].1,
        )
    }
}

/// The first index of the entries of `s` whose key has the characters `k`.
pub open spec fn entry_index(s: Seq<(String, Value)>, k: Seq<char>) -> Option<int>
    decreases s.len(),
{
    if s.len() == 0 {
        None
    } else if s[0].0@ == k {
        Some(0)
    } else {
        match entry_index(s.subrange(1, s.len() as int), k) {
            Some(i) => Some(i + 1),
            None => None,
        }
    }
}

/// The first index of the properties of `s` named `k`.
pub open spec fn prop_index(s: Seq<(String, Schema)>, k: Seq<char>) -> Option<int>
    decreases s.len(),
{
    if s.len() == 0 {
        None
    } else if s[0].0@ == k {
        Some(0)
    } else {
        match prop_index(s.subrange(1, s.len() as int), k) {
            Some(i) => Some(i + 1),
            None => None,
        }
    }
}

/// The first index of the enum values of `e` with the view of `v`.
pub open spec fn enum_index(e: Seq<Value>, v: Value) -> Option<int>
    decreases e.len(),
{
    if e.len() == 0 {
        None
    } else if e[0]@ == v@ {
        Some(0)
    } else {
        match enum_index(e.subrange(1, e.len() as int), v) {
            Some(i) => Some(i + 1),
            None => None,
        }
    }
}

/// The properties of a schema, none when it has no `properties`.
pub open spec fn props_of(s: Schema) -> Seq<(String, Schema)> {
    match s.properties {
        Some(p) => p@,
        None => Seq::empty(),
    }
}

/// The required names of a schema, none when it has no `required`.
pub open spec fn required_of(s: Schema) -> Seq<String> {
    match s.required {
        Some(r) => r@,
        None => Seq::empty(),
    }
}

/// Whether some required name has the characters `k`.
pub open spec fn is_required(s: Schema, k: Seq<char>) -> bool {
    exists|i: int| 0 <= i < required_of(s).len() && #[trigger] required_of(s)[i]@ == k
}

/// The entries of `o` whose keys are not required, in order.
pub open spec fn extra_entries(o: Seq<(String, Value)>, s: Schema) -> Seq<(String, Value)>
    decreases o.len(),
{
    if o.len() == 0 {
        Seq::empty()
    } else {
        let p = extra_entries(o.subrange(0, o.len() - 1), s);
        if is_required(s, o[o.len() - 1].0@) {
            p
        } else {
            p.push(o[o.len() - 1])
        }
    }
}

/// Whether the numeric type occurs among `types`.
pub open spec fn has_numeric_type(types: Seq<InstanceType>) -> bool {
    types.contains(InstanceType::Integer) || types.contains(InstanceType::Number)
}

/// The bytes of a string under a string schema, without format or pattern.
pub open spec fn plain_string_bytes(b: Seq<u8>, s: Schema) -> Seq<u8> {
    uvarint_bytes(adjusted_len(b.len(), s.min_length) as u64) + b
}

/// The bytes of a string under a string schema.
pub open spec fn typed_string_bytes(st: String, s: Schema) -> Seq<u8> {
    let b = str_bytes(st);
    match s.format {
        Some(f) => {
            let (fb, done) = format_bytes(f@, st@);
            if done {
                fb
            } else {
                fb + plain_string_bytes(b, s)
            }
        },
        None => if s.pattern_prefix is Some || s.pattern_suffix is Some {
            let (pb, done) = pattern_bytes(s.pattern_prefix, s.pattern_suffix, b);
            if done {
                pb
            } else {
                pb + plain_string_bytes(b, s)
            }
        } else {
            plain_string_bytes(b, s)
        },
    }
}

/// The payload written for a double under `multipleOf`, when the double is
/// a whole multiple of `multipleOf` taken as a double: how many times it
/// holds it, saturated into `i128`.
pub open spec fn float_payload(n: Number, s: Schema) -> Option<i128> {
    match (n, s.multiple_of) {
        (Number::Float64Bits(b), Some(mul)) => match double_multiple(b, int_as_double(mul)) {
            Some(q) => Some(saturate_i128(q)),
            None => None,
        },
        _ => None,
    }
}

/// The bytes of a number under a numeric schema.
pub open spec fn typed_number_bytes(n: Number, s: Schema) -> Seq<u8> {
    match number_as_int(n) {
        Some(val) => match opt_payload(val, s) {
            Some(p) => seq![TAG_OPTIMIZED_NUMBER] + uvarint128_bytes(payload_bits(p)),
            None => uvarint_bytes(number_bytes(n).len() as u64) + number_bytes(n),
        },
        None => match float_payload(n, s) {
            Some(p) => seq![TAG_OPTIMIZED_NUMBER] + uvarint128_bytes(payload_bits(p as int)),
            None => uvarint_bytes(number_bytes(n).len() as u64) + number_bytes(n),
        },
    }
}

/// The bytes of `v` under schema `s`.
pub open spec fn enc_schema(v: Value, s: Schema) -> Seq<u8>
    decreases s, 4nat, 0nat,
{
    if s.const_value is Some {
        Seq::empty()
    } else if s.enum_values is Some && enum_index(s.enum_values.unwrap()@, v) is Some {
        uvarint_bytes(enum_index(s.enum_values.unwrap()@, v).unwrap() as u64)
    } else {
        match s.instance_type {
            Some(SingleOrVec::Single(t)) => enc_typed(v, t, s),
            Some(SingleOrVec::Vec(ts)) => match v {
                Value::Number(n) => if has_numeric_type(ts@) && number_as_int(n) is Some
                    && opt_payload(number_as_int(n).unwrap(), s) is Some {
                    seq![TAG_NUMBER, TAG_OPTIMIZED_NUMBER] + uvarint128_bytes(
                        payload_bits(opt_payload(number_as_int(n).unwrap(), s).unwrap()),
                    )
                } else {
                    enc_untyped(v)
                },
                _ => enc_untyped(v),
            },
            None => enc_untyped(v),
        }
    }
}

/// The bytes of `v` under schema `s` of single type `t`.
pub open spec fn enc_typed(v: Value, t: InstanceType, s: Schema) -> Seq<u8>
    decreases s, 3nat, 0nat,
{
    match (t, v) {
        (InstanceType::Null, _) => Seq::empty(),
        (InstanceType::Boolean, Value::Bool(b)) => seq![if b { 1u8 } else { 0u8 }],
        (InstanceType::Number, Value::Number(n)) => typed_number_bytes(n, s),
        (InstanceType::Integer, Value::Number(n)) => typed_number_bytes(n, s),
        (InstanceType::String, Value::String(st)) => typed_string_bytes(st, s),
        (InstanceType::Object, Value::Object(o)) => enc_required(o@, s, required_of(s).len())
            + uvarint_bytes(extra_entries(o@, s).len() as u64) + enc_extras(extra_entries(o@, s), s),
        (InstanceType::Array, Value::Array(a)) => uvarint_bytes(
            adjusted_len(a@.len(), s.min_items) as u64,
        ) + enc_items(a@, s, a@.len()),
        _ => enc_untyped(v),
    }
}

/// The sub-schema for property `k` of `s`, if it has one.
pub open spec fn prop_schema(s: Schema, k: Seq<char>) -> Option<Schema> {
    match prop_index(props_of(s), k) {
        Some(j) => Some(props_of(s)[j].1),
        None => None,
    }
}

/// The value of the object entries `o` under key `k`, null when absent.
pub open spec fn entry_value(o: Seq<(String, Value)>, k: Seq<char>) -> Value {
    match entry_index(o, k) {
        Some(i) => o[i].1,
        None => Value::Null,
    }
}

/// The bytes of the first `n` required properties of object entries `o`:
/// each one's value (null when absent) under its property schema.
pub open spec fn enc_required(o: Seq<(String, Value)>, s: Schema, n: nat) -> Seq<u8>
    decreases s, 2nat, n,
{
    if n == 0 || n > required_of(s).len() {
        Seq::empty()
    } else {
        let k = required_of(s)[n - 1]@;
        proof { lemma_prop_schema_decreases(s, k); }
        enc_required(o, s, (n - 1) as nat) + match prop_schema(s, k) {
            Some(ss) => enc_schema(entry_value(o, k), ss),
            None => enc_untyped(entry_value(o, k)),
        }
    }
}

/// The bytes of the entries `e` that are not required: key, then the value
/// under its property schema if it has one.
pub open spec fn enc_extras(e: Seq<(String, Value)>, s: Schema) -> Seq<u8>
    decreases s, 2nat, e.len(),
{
    if e.len() == 0 {
        Seq::empty()
    } else {
        let last = e[e.len() - 1];
        proof { lemma_prop_schema_decreases(s, last.0@); }
        enc_extras(e.subrange(0, e.len() - 1), s) + key_bytes(last.0) + match prop_schema(
            s,
            last.0@,
        ) {
            Some(ss) => enc_schema(last.1, ss),
            None => enc_untyped(last.1),
        }
    }
}

/// The sub-schema for array position `i`: a prefix item, else `items`.
pub open spec fn item_schema(s: Schema, i: int) -> Option<Schema> {
    if s.prefix_items is Some && 0 <= i < s.prefix_items.unwrap()@.len() {
        Some(s.prefix_items.unwrap()@[i])
    } else if s.items is Some {
        Some(*s.items.unwrap())
    } else {
        None
    }
}

/// The bytes of the first `n` elements of `a`, each under its item schema.
pub open spec fn enc_items(a: Seq<Value>, s: Schema, n: nat) -> Seq<u8>
    decreases s, 2nat, n,
{
    if n == 0 || n > a.len() {
        Seq::empty()
    } else {
        proof { lemma_item_schema_decreases(s, n - 1); }
        enc_items(a, s, (n - 1) as nat) + match item_schema(s, n - 1) {
            Some(ss) => enc_schema(a[n - 1], ss),
            None => enc_untyped(a[n - 1]),
        }
    }
}

/// A number under a numeric schema encodes without a division by zero or
/// an overflow.
pub open spec fn number_ok(n: Number, s: Schema) -> bool {
    match number_as_int(n) {
        Some(val) => opt_arith_ok(val, s),
        None => true,
    }
}

/// Encoding `v` under `s` completes: no number on the way divides by zero
/// or overflows.
pub open spec fn enc_ok(v: Value, s: Schema) -> bool
    decreases s, 4nat, 0nat,
{
    if s.const_value is Some {
        true
    } else if s.enum_values is Some && enum_index(s.enum_values.unwrap()@, v) is Some {
        true
    } else {
        match s.instance_type {
            Some(SingleOrVec::Single(t)) => typed_ok(v, t, s),
            Some(SingleOrVec::Vec(ts)) => match v {
                Value::Number(n) => has_numeric_type(ts@) ==> number_ok(n, s),
                _ => true,
            },
            None => true,
        }
    }
}

/// Encoding `v` under schema `s` of single type `t` completes.
pub open spec fn typed_ok(v: Value, t: InstanceType, s: Schema) -> bool
    decreases s, 3nat, 0nat,
{
    match (t, v) {
        (InstanceType::Number, Value::Number(n)) => number_ok(n, s),
        (InstanceType::Integer, Value::Number(n)) => number_ok(n, s),
        (InstanceType::Object, Value::Object(o)) => required_ok(o@, s) && extras_ok(o@, s),
        (InstanceType::Array, Value::Array(a)) => items_ok(a@, s),
        _ => true,
    }
}

/// Encoding each required property of `o` under its property schema
/// completes.
pub open spec fn required_ok(o: Seq<(String, Value)>, s: Schema) -> bool
    decreases s, 2nat, 0nat,
{
    proof { lemma_prop_schema_decreases_all(s); }
    forall|i: int|
        0 <= i < required_of(s).len() ==> match #[trigger] prop_schema(s, required_of(s)[i]@) {
            Some(ss) => enc_ok(entry_value(o, required_of(s)[i]@), ss),
            None => true,
        }
}

/// Encoding each entry of `o` that is not required, under its property
/// schema, completes.
pub open spec fn extras_ok(o: Seq<(String, Value)>, s: Schema) -> bool
    decreases s, 2nat, 0nat,
{
    proof { lemma_prop_schema_decreases_all(s); }
    forall|i: int|
        0 <= i < o.len() && !is_required(s, o[i].0@) ==> match #[trigger] prop_schema(s, o[i].0@) {
            Some(ss) => enc_ok(o[i].1, ss),
            None => true,
        }
}

/// Encoding each element of `a` under its item schema completes.
pub open spec fn items_ok(a: Seq<Value>, s: Schema) -> bool
    decreases s, 2nat, 0nat,
{
    proof { lemma_item_schema_decreases_all(s); }
    forall|i: int|
        0 <= i < a.len() ==> match #[trigger] item_schema(s, i) {
            Some(ss) => enc_ok(a[i], ss),
            None => true,
        }
}

/// A truncating quotient lies within `i128` unless it is `i128::MIN / -1`.
pub proof fn lemma_tdiv_in_range(x: int, d: int)
    requires
        d != 0,
        i128::MIN <= x <= i128::MAX,
        !(x == i128::MIN && d == -1),
    ensures
        i128::MIN <= tdiv(x, d) <= i128::MAX,
{
    if x > 0 && d > 0 {
        assert(0 <= x / d <= x) by (nonlinear_arith)
            requires x > 0 && d > 0;
    } else if x < 0 && d < 0 {
        assert(0 <= (x * -1) / (d * -1) <= x * -1) by (nonlinear_arith)
            requires x < 0 && d < 0;
        if x == i128::MIN {
            assert((x * -1) / (d * -1) <= (x * -1) / 2) by (nonlinear_arith)
                requires x < 0 && d * -1 >= 2;
        }
    } else if x < 0 {
        assert(0 <= (x * -1) / d <= x * -1) by (nonlinear_arith)
            requires x < 0 && d > 0;
    } else if x > 0 {
        assert(0 <= x / (d * -1) <= x) by (nonlinear_arith)
            requires x > 0 && d < 0;
    }
}

/// A found index lies within the sequence.
pub proof fn lemma_prop_index_bounds(p: Seq<(String, Schema)>, k: Seq<char>)
    ensures
        prop_index(p, k) matches Some(j) ==> 0 <= j < p.len() && p[j].0@ == k,
    decreases p.len(),
{
    if p.len() > 0 && p[0].0@ != k {
        let t = p.subrange(1, p.len() as int);
        lemma_prop_index_bounds(t, k);
        if let Some(j) = prop_index(t, k) {
            assert(p[j + 1] == t[j]);
        }
    }
}

/// A property schema lies below the schema that holds it.
pub proof fn lemma_prop_schema_decreases(s: Schema, k: Seq<char>)
    ensures
        prop_schema(s, k) matches Some(ss) ==> decreases_to!(s => ss),
{
    lemma_prop_index_bounds(props_of(s), k);
    if let Some(j) = prop_index(props_of(s), k) {
        let p = s.properties->Some_0;
        assert(decreases_to!(s => s.properties));
        assert(decreases_to!(s.properties => s.properties->Some_0));
        assert(decreases_to!(p => p@));
        assert(decreases_to!(p@ => p@[j]));
        assert(decreases_to!(p@[j] => p@[j].1));
    }
}

/// Every property schema lies below the schema that holds it.
pub proof fn lemma_prop_schema_decreases_all(s: Schema)
    ensures
        forall|k: Seq<char>| #![trigger prop_schema(s, k)] prop_schema(s, k) is Some ==> decreases_to!(s => prop_schema(s, k)->Some_0),
{
    assert forall|k: Seq<char>| #![trigger prop_schema(s, k)] prop_schema(s, k) is Some implies decreases_to!(s => prop_schema(s, k)->Some_0) by {
        lemma_prop_schema_decreases(s, k);
    }
}

/// Every item schema lies below the schema that holds it.
pub proof fn lemma_item_schema_decreases_all(s: Schema)
    ensures
        forall|i: int| #![trigger item_schema(s, i)] item_schema(s, i) is Some ==> decreases_to!(s => item_schema(s, i)->Some_0),
{
    assert forall|i: int| #![trigger item_schema(s, i)] item_schema(s, i) is Some implies decreases_to!(s => item_schema(s, i)->Some_0) by {
        lemma_item_schema_decreases(s, i);
    }
}

/// An item schema lies below the schema that holds it.
pub proof fn lemma_item_schema_decreases(s: Schema, i: int)
    ensures
        item_schema(s, i) matches Some(ss) ==> decreases_to!(s => ss),
{
    if s.prefix_items is Some && 0 <= i < s.prefix_items.unwrap()@.len() {
        let p = s.prefix_items->Some_0;
        assert(decreases_to!(s => s.prefix_items));
        assert(decreases_to!(s.prefix_items => s.prefix_items->Some_0));
        assert(decreases_to!(p => p@));
        assert(decreases_to!(p@ => p@[i]));
    } else if s.items is Some {
        assert(decreases_to!(s => s.items));
        assert(decreases_to!(s.items => s.items->Some_0));
    }
}

} // verus!
