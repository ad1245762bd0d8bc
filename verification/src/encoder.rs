//! Encodes a value under a schema: what the schema already says is left out
//! of the bytes.

use vstd::prelude::*;
use crate::value::{Number, Value, same_value};
use crate::number::{compact_encode};
use crate::types::{InstanceType, Schema, SingleOrVec, contains_type};
use crate::varint::{uvarint_bytes, write_uvarint, write_uvarint128};
use crate::float64::{round_to_double_exec, double_multiple_exec};
use crate::format::{encode_string_with_format, encode_string_with_prefix_or_suffix, push_range};
use crate::spec_enc::{
    TAG_ARRAY, TAG_BOOL_FALSE, TAG_BOOL_TRUE, TAG_NULL, TAG_NUMBER, TAG_OBJECT,
    TAG_OPTIMIZED_NUMBER, TAG_STRING, adjusted_len, enc_extras, enc_items, enc_ok, enc_required,
    enc_schema, enc_typed, enc_untyped, enc_untyped_entries, enc_untyped_seq, entry_index,
    entry_value, enum_index, extra_entries, extras_ok, is_required, item_schema, items_ok,
    lemma_item_schema_decreases, lemma_prop_schema_decreases, lemma_tdiv_in_range, number_ok, opt_arith_ok,
    opt_payload, payload_bits, plain_string_bytes, prop_index, prop_schema, required_of,
    required_ok, typed_number_bytes, typed_ok, typed_string_bytes, float_payload,
};

verus! {

/// Appends the encoding of `value` under `schema` to `buf`.
pub fn encode(value: &Value, schema: &Schema, buf: &mut Vec<u8>)
    requires
        enc_ok(*value, *schema),
    ensures
        final(buf)@ == old(buf)@ + enc_schema(*value, *schema),
{
    encode_value(value, Some(schema), buf);
}

/// Appends the encoding of `value` under the optional `schema` (no schema:
/// the untyped form).
fn encode_value(value: &Value, schema: Option<&Schema>, buf: &mut Vec<u8>)
    requires
        schema matches Some(s) ==> enc_ok(*value, *s),
    ensures
        final(buf)@ == old(buf)@ + match schema {
            Some(s) => enc_schema(*value, *s),
            None => enc_untyped(*value),
        },
{
    match schema {
        Some(s) => encode_schema(value, s, buf),
        None => encode_untyped_value(value, buf),
    }
}

/// The index of the first enum value with the view of `v`.
fn find_enum(e: &Vec<Value>, v: &Value) -> (r: Option<usize>)
    ensures
        r matches Some(i) ==> enum_index(e@, *v) == Some(i as int),
        r is None ==> enum_index(e@, *v) is None,
{
    let mut i: usize = 0;
    assert(e@.subrange(0, e@.len() as int) =~= e@);
    while i < e.len()
        invariant
            i <= e@.len(),
            enum_index(e@, *v) == match enum_index(e@.subrange(i as int, e@.len() as int), *v) {
                Some(j) => Some(j + i),
                None => None,
            },
        decreases e.len() - i,
    {
        let ghost t = e@.subrange(i as int, e@.len() as int);
        assert(t.subrange(1, t.len() as int) =~= e@.subrange(i + 1, e@.len() as int));
        if same_value(&e[i], v) {
            return Some(i);
        }
        i += 1;
    }
    None
}

/// Encodes an integer payload under a numeric schema, when the schema
/// shortens it.
fn optimized_payload(val: i128, schema: &Schema) -> (r: Option<u128>)
    requires
        opt_arith_ok(val as int, *schema),
    ensures
        r matches Some(p) ==> opt_payload(val as int, *schema) matches Some(q) && p == payload_bits(q),
        r is None ==> opt_payload(val as int, *schema) is None,
{
    if let Some(mul) = schema.multiple_of {
        if let Some(min) = schema.minimum {
            let rem = min.checked_rem(mul).unwrap();
            if rem == 0 {
                if val >= min {
                    proof { lemma_tdiv_in_range(val - min, mul as int); }
                    let delta = (val - min).checked_div(mul).unwrap();
                    return Some(delta as u128);
                }
                None
            } else {
                proof { lemma_tdiv_in_range(val as int, mul as int); }
                let res = val.checked_div(mul).unwrap();
                Some(res as u128)
            }
        } else {
            proof { lemma_tdiv_in_range(val as int, mul as int); }
            let res = val.checked_div(mul).unwrap();
            Some(res as u128)
        }
    } else if let Some(min) = schema.minimum {
        if val >= min {
            Some((val - min) as u128)
        } else {
            None
        }
    } else {
        None
    }
}

/// Appends the encoding of `value` under `schema`.
fn encode_schema(value: &Value, schema: &Schema, buf: &mut Vec<u8>)
    requires
        enc_ok(*value, *schema),
    ensures
        final(buf)@ == old(buf)@ + enc_schema(*value, *schema),
    decreases *schema, 4nat, 0nat,
{
    if schema.const_value.is_some() {
        assert(old(buf)@ + Seq::<u8>::empty() =~= old(buf)@);
        return ;
    }
    if let Some(enums) = &schema.enum_values {
        if let Some(idx) = find_enum(enums, value) {
            write_uvarint(buf, idx as u64);
            return ;
        }
    }
    match &schema.instance_type {
        Some(SingleOrVec::Single(instance_type)) => {
            encode_typed_value(value, *instance_type, schema, buf);
            return ;
        },
        Some(SingleOrVec::Vec(types)) => {
            if let Value::Number(n) = value {
                if contains_type(types, InstanceType::Integer) || contains_type(types, InstanceType::Number) {
                    if let Some(val) = n.as_i128() {
                        if let Some(p) = optimized_payload(val, schema) {
                            buf.push(TAG_NUMBER);
                            buf.push(TAG_OPTIMIZED_NUMBER);
                            write_uvarint128(buf, p);
                            assert(buf@ =~= old(buf)@ + enc_schema(*value, *schema));
                            return ;
                        }
                    }
                }
            }
        },
        None => {},
    }
    encode_untyped_value(value, buf);
}

/// The payload for a double under `multipleOf`, when the double is a
/// whole multiple of it (see `float_payload`).
fn float_multiple_payload(n: &Number, schema: &Schema) -> (r: Option<i128>)
    ensures
        r == float_payload(*n, *schema),
{
    match (n, schema.multiple_of) {
        (Number::Float64Bits(b), Some(mul)) => {
            let neg: bool = mul < 0;
            let mag: u128 = if neg {
                ((-(mul + 1)) as u128) + 1
            } else {
                mul as u128
            };
            let am: u128 = round_to_double_exec(mag);
            if am == 0 {
                return None;
            }
            double_multiple_exec(*b, neg, am)
        },
        _ => None,
    }
}

/// Appends the schema-typed encoding of a number.
fn encode_typed_number(n: &Number, schema: &Schema, buf: &mut Vec<u8>)
    requires
        number_ok(*n, *schema),
    ensures
        final(buf)@ == old(buf)@ + typed_number_bytes(*n, *schema),
{
    if let Some(val) = n.as_i128() {
        if let Some(p) = optimized_payload(val, schema) {
            buf.push(TAG_OPTIMIZED_NUMBER);
            write_uvarint128(buf, p);
            assert(buf@ =~= old(buf)@ + typed_number_bytes(*n, *schema));
            return ;
        }
    } else if let Some(q) = float_multiple_payload(n, schema) {
        buf.push(TAG_OPTIMIZED_NUMBER);
        write_uvarint128(buf, q as u128);
        assert(buf@ =~= old(buf)@ + typed_number_bytes(*n, *schema));
        return ;
    }
    let temp = compact_encode(n);
    write_uvarint(buf, temp.len() as u64);
    let ghost mid = buf@;
    push_range(buf, temp.as_slice(), 0, temp.len());
    assert(temp@.subrange(0, temp@.len() as int) =~= temp@);
    assert(buf@ =~= old(buf)@ + typed_number_bytes(*n, *schema));
}

/// Appends the schema-typed encoding of a string.
#[verifier::spinoff_prover]
#[verifier::rlimit(30)]
fn encode_typed_string(st: &String, schema: &Schema, buf: &mut Vec<u8>)
    ensures
        final(buf)@ == old(buf)@ + typed_string_bytes(*st, *schema),
{
    let s = st.as_str();
    let ghost start = buf@;
    if let Some(format) = &schema.format {
        if encode_string_with_format(format.as_str(), s, buf) {
            return ;
        }
    } else if schema.pattern_prefix.is_some() || schema.pattern_suffix.is_some() {
        if encode_string_with_prefix_or_suffix(&schema.pattern_prefix, &schema.pattern_suffix, s, buf) {
            return ;
        }
    }
    let ghost mid = buf@;
    let b = s.as_bytes();
    let len = b.len() as u64;
    let written = match schema.min_length {
        Some(m) => if len >= m {
            len - m
        } else {
            len
        },
        None => len,
    };
    write_uvarint(buf, written);
    push_range(buf, b, 0, b.len());
    proof {
        assert(b@.subrange(0, b@.len() as int) =~= b@);
        assert(buf@ =~= mid + plain_string_bytes(b@, *schema));
        assert(buf@ =~= old(buf)@ + typed_string_bytes(*st, *schema));
    }
}

/// Appends the encoding of `value` under `schema`, whose type is the single
/// `instance_type`.
fn encode_typed_value(value: &Value, instance_type: InstanceType, schema: &Schema, buf: &mut Vec<u8>)
    requires
        typed_ok(*value, instance_type, *schema),
    ensures
        final(buf)@ == old(buf)@ + enc_typed(*value, instance_type, *schema),
    decreases *schema, 3nat, 0nat,
{
    match (instance_type, value) {
        (InstanceType::Null, _) => {
            assert(old(buf)@ + Seq::<u8>::empty() =~= old(buf)@);
        },
        (InstanceType::Boolean, Value::Bool(b)) => {
            buf.push(if *b { 1 } else { 0 });
        },
        (InstanceType::Number, Value::Number(n)) => {
            encode_typed_number(n, schema, buf);
        },
        (InstanceType::Integer, Value::Number(n)) => {
            encode_typed_number(n, schema, buf);
        },
        (InstanceType::String, Value::String(s)) => {
            encode_typed_string(s, schema, buf);
        },
        (InstanceType::Object, Value::Object(obj)) => {
            encode_object(obj, schema, buf);
        },
        (InstanceType::Array, Value::Array(arr)) => {
            encode_array(arr, schema, buf);
        },
        _ => {
            encode_untyped_value(value, buf);
        },
    }
}

/// The index of the first entry keyed `k`.
fn find_entry(o: &Vec<(String, Value)>, k: &String) -> (r: Option<usize>)
    ensures
        r matches Some(i) ==> entry_index(o@, k@) == Some(i as int) && i < o@.len(),
        r is None ==> entry_index(o@, k@) is None,
{
    let mut i: usize = 0;
    assert(o@.subrange(0, o@.len() as int) =~= o@);
    while i < o.len()
        invariant
            i <= o@.len(),
            entry_index(o@, k@) == match entry_index(o@.subrange(i as int, o@.len() as int), k@) {
                Some(j) => Some(j + i),
                None => None,
            },
        decreases o.len() - i,
    {
        let ghost t = o@.subrange(i as int, o@.len() as int);
        assert(t.subrange(1, t.len() as int) =~= o@.subrange(i + 1, o@.len() as int));
        if o[i].0 == *k {
            return Some(i);
        }
        i += 1;
    }
    None
}

/// The sub-schema of the property named `k`.
pub(crate) fn find_prop<'a>(schema: &'a Schema, k: &String) -> (r: Option<&'a Schema>)
    ensures
        match r {
            Some(ss) => prop_schema(*schema, k@) == Some(*ss),
            None => prop_schema(*schema, k@) is None,
        },
{
    match &schema.properties {
        Some(props) => {
            let mut i: usize = 0;
            assert(props@.subrange(0, props@.len() as int) =~= props@);
            while i < props.len()
                invariant
                    schema.properties == Some(*props),
                    i <= props@.len(),
                    prop_index(props@, k@) == match prop_index(props@.subrange(i as int, props@.len() as int), k@) {
                        Some(j) => Some(j + i),
                        None => None,
                    },
                decreases props.len() - i,
            {
                let ghost t = props@.subrange(i as int, props@.len() as int);
                assert(t.subrange(1, t.len() as int) =~= props@.subrange(i + 1, props@.len() as int));
                if props[i].0 == *k {
                    return Some(&props[i].1);
                }
                i += 1;
            }
            None
        },
        None => None,
    }
}

/// Whether some required name equals `k`.
fn is_required_key(schema: &Schema, k: &String) -> (r: bool)
    ensures
        r == is_required(*schema, k@),
{
    match &schema.required {
        Some(req) => {
            let mut i: usize = 0;
            while i < req.len()
                invariant
                    schema.required == Some(*req),
                    i <= req@.len(),
                    forall|j: int| 0 <= j < i ==> req@[j]@ != k@,
                decreases req.len() - i,
            {
                if req[i] == *k {
                    assert(required_of(*schema)[i as int]@ == k@);
                    return true;
                }
                i += 1;
            }
            false
        },
        None => false,
    }
}

/// Appends the encoding of object entries `obj` under object schema
/// `schema`: required properties by position, then the count and the keyed
/// encodings of the others.
fn encode_object(obj: &Vec<(String, Value)>, schema: &Schema, buf: &mut Vec<u8>)
    requires
        required_ok(obj@, *schema),
        extras_ok(obj@, *schema),
    ensures
        final(buf)@ == old(buf)@ + enc_required(obj@, *schema, required_of(*schema).len())
            + uvarint_bytes(extra_entries(obj@, *schema).len() as u64) + enc_extras(
            extra_entries(obj@, *schema),
            *schema,
        ),
    decreases *schema, 2nat, 0nat,
{
    let null = Value::Null;
    if let Some(required) = &schema.required {
        let mut i: usize = 0;
        while i < required.len()
            invariant
                schema.required == Some(*required),
                null == Value::Null,
                i <= required@.len(),
                required_ok(obj@, *schema),
                buf@ == old(buf)@ + enc_required(obj@, *schema, i as nat),
            decreases required.len() - i,
        {
            let key = &required[i];
            assert(required_of(*schema)[i as int] == *key);
            let val = match find_entry(obj, key) {
                Some(j) => &obj[j].1,
                None => &null,
            };
            assert(*val == entry_value(obj@, key@));
            let sub = find_prop(schema, key);
            proof { lemma_prop_schema_decreases(*schema, key@); }
            let ghost before = buf@;
            match sub {
                Some(ss) => encode_schema(val, ss, buf),
                None => encode_untyped_value(val, buf),
            }
            i += 1;
        }
    }
    assert(buf@ == old(buf)@ + enc_required(obj@, *schema, required_of(*schema).len()));
    let mut count: u64 = 0;
    let mut i: usize = 0;
    while i < obj.len()
        invariant
            i <= obj@.len(),
            count == extra_entries(obj@.subrange(0, i as int), *schema).len(),
            count <= i,
        decreases obj.len() - i,
    {
        proof {
            let t = obj@.subrange(0, i + 1);
            assert(t.subrange(0, t.len() - 1) =~= obj@.subrange(0, i as int));
        }
        if !is_required_key(schema, &obj[i].0) {
            count = count + 1;
        }
        i += 1;
    }
    assert(obj@.subrange(0, obj@.len() as int) =~= obj@);
    write_uvarint(buf, count);
    let ghost mid = buf@;
    let mut i: usize = 0;
    while i < obj.len()
        invariant
            i <= obj@.len(),
            extras_ok(obj@, *schema),
            buf@ == mid + enc_extras(extra_entries(obj@.subrange(0, i as int), *schema), *schema),
        decreases obj.len() - i,
    {
        proof {
            let t = obj@.subrange(0, i + 1);
            assert(t.subrange(0, t.len() - 1) =~= obj@.subrange(0, i as int));
        }
        let k = &obj[i].0;
        let v = &obj[i].1;
        if !is_required_key(schema, k) {
            write_uvarint(buf, k.as_str().as_bytes().len() as u64);
            let kb = k.as_str().as_bytes();
            push_range(buf, kb, 0, kb.len());
            assert(kb@.subrange(0, kb@.len() as int) =~= kb@);
            let sub = find_prop(schema, k);
            proof {
                lemma_prop_schema_decreases(*schema, k@);
                assert(prop_schema(*schema, obj@[i as int].0@) == prop_schema(*schema, k@));
            }
            match sub {
                Some(ss) => encode_schema(v, ss, buf),
                None => encode_untyped_value(v, buf),
            }
            proof {
                let e = extra_entries(obj@.subrange(0, i + 1), *schema);
                assert(e.subrange(0, e.len() - 1) =~= extra_entries(obj@.subrange(0, i as int), *schema));
            }
        }
        i += 1;
    }
    assert(obj@.subrange(0, obj@.len() as int) =~= obj@);
}

/// Appends the encoding of array elements `arr` under array schema
/// `schema`: the length (less `minItems` when it reaches it), then each
/// element under its item schema.
fn encode_array(arr: &Vec<Value>, schema: &Schema, buf: &mut Vec<u8>)
    requires
        items_ok(arr@, *schema),
    ensures
        final(buf)@ == old(buf)@ + uvarint_bytes(adjusted_len(arr@.len(), schema.min_items) as u64)
            + enc_items(arr@, *schema, arr@.len()),
    decreases *schema, 2nat, 0nat,
{
    let len = arr.len() as u64;
    let written = match schema.min_items {
        Some(m) => if len >= m {
            len - m
        } else {
            len
        },
        None => len,
    };
    write_uvarint(buf, written);
    let ghost mid = buf@;
    let mut i: usize = 0;
    while i < arr.len()
        invariant
            i <= arr@.len(),
            items_ok(arr@, *schema),
            buf@ == mid + enc_items(arr@, *schema, i as nat),
        decreases arr.len() - i,
    {
        proof {
            lemma_item_schema_decreases(*schema, i as int);
        }
        let sub = item_schema_at(schema, i as u64);
        match sub {
            Some(ss) => encode_schema(&arr[i], ss, buf),
            None => encode_untyped_value(&arr[i], buf),
        }
        i += 1;
    }
}

/// The sub-schema for array position `i`: a prefix item, else `items`.
pub(crate) fn item_schema_at<'a>(schema: &'a Schema, i: u64) -> (r: Option<&'a Schema>)
    ensures
        match r {
            Some(ss) => item_schema(*schema, i as int) == Some(*ss),
            None => item_schema(*schema, i as int) is None,
        },
{
    if let Some(prefix_items) = &schema.prefix_items {
        if i < prefix_items.len() as u64 {
            return Some(&prefix_items[i as usize]);
        }
    }
    if let Some(items) = &schema.items {
        return Some(&**items);
    }
    None
}

/// Appends the untyped encoding of `value`: a tag, then what the tag needs.
fn encode_untyped_value(value: &Value, buf: &mut Vec<u8>)
    ensures
        final(buf)@ == old(buf)@ + enc_untyped(*value),
    decreases value,
{
    match value {
        Value::Null => buf.push(TAG_NULL),
        Value::Bool(b) => buf.push(if *b { TAG_BOOL_TRUE } else { TAG_BOOL_FALSE }),
        Value::Number(n) => {
            buf.push(TAG_NUMBER);
            let temp = compact_encode(n);
            write_uvarint(buf, temp.len() as u64);
            push_range(buf, temp.as_slice(), 0, temp.len());
            assert(temp@.subrange(0, temp@.len() as int) =~= temp@);
            assert(buf@ =~= old(buf)@ + enc_untyped(*value));
        },
        Value::String(s) => {
            buf.push(TAG_STRING);
            let b = s.as_str().as_bytes();
            write_uvarint(buf, b.len() as u64);
            push_range(buf, b, 0, b.len());
            assert(b@.subrange(0, b@.len() as int) =~= b@);
            assert(buf@ =~= old(buf)@ + enc_untyped(*value));
        },
        Value::Array(arr) => {
            buf.push(TAG_ARRAY);
            write_uvarint(buf, arr.len() as u64);
            let ghost mid = buf@;
            let mut i: usize = 0;
            while i < arr.len()
                invariant
                    *value == Value::Array(*arr),
                    i <= arr@.len(),
                    buf@ == mid + enc_untyped_seq(arr@.subrange(0, i as int)),
                decreases arr.len() - i,
            {
                proof {
                    assert((*value)->Array_0 == *arr);
                    assert(decreases_to!(*value => (*value)->Array_0));
                    assert(decreases_to!(*arr => arr@));
                    assert(decreases_to!(arr@ => arr@[i as int]));
                    let t = arr@.subrange(0, i + 1);
                    assert(t.subrange(0, t.len() - 1) =~= arr@.subrange(0, i as int));
                }
                encode_untyped_value(&arr[i], buf);
                i += 1;
            }
            assert(arr@.subrange(0, arr@.len() as int) =~= arr@);
            assert(buf@ =~= old(buf)@ + enc_untyped(*value));
        },
        Value::Object(obj) => {
            buf.push(TAG_OBJECT);
            write_uvarint(buf, obj.len() as u64);
            let ghost mid = buf@;
            let mut i: usize = 0;
            while i < obj.len()
                invariant
                    *value == Value::Object(*obj),
                    i <= obj@.len(),
                    buf@ == mid + enc_untyped_entries(obj@.subrange(0, i as int)),
                decreases obj.len() - i,
            {
                proof {
                    assert((*value)->Object_0 == *obj);
                    assert(decreases_to!(*value => (*value)->Object_0));
                    assert(decreases_to!(*obj => obj@));
                    assert(decreases_to!(obj@ => obj@[i as int]));
                    assert(decreases_to!(obj@[i as int] => obj@[i as int].1));
                    let t = obj@.subrange(0, i + 1);
                    assert(t.subrange(0, t.len() - 1) =~= obj@.subrange(0, i as int));
                }
                let kb = obj[i].0.as_str().as_bytes();
                write_uvarint(buf, kb.len() as u64);
                push_range(buf, kb, 0, kb.len());
                assert(kb@.subrange(0, kb@.len() as int) =~= kb@);
                encode_untyped_value(&obj[i].1, buf);
                i += 1;
            }
            assert(obj@.subrange(0, obj@.len() as int) =~= obj@);
            assert(buf@ =~= old(buf)@ + enc_untyped(*value));
        },
    }
}

/// Whether the arithmetic that encodes an integer number under a schema
/// stays defined.
pub(crate) fn number_encodable(n: &Number, s: &Schema) -> (r: bool)
    ensures
        r == number_ok(*n, *s),
{
    let val = match n.as_i128() {
        Some(v) => v,
        None => {
            return true;
        },
    };
    match (s.multiple_of, s.minimum) {
        (Some(mul), Some(min)) => {
            if mul == 0 || (min == i128::MIN && mul == -1) {
                return false;
            }
            let rem = min.checked_rem(mul).unwrap();
            if rem == 0 {
                val < min || val.checked_sub(min).is_some()
            } else {
                !(val == i128::MIN && mul == -1)
            }
        },
        (Some(mul), None) => mul != 0 && !(val == i128::MIN && mul == -1),
        (None, Some(min)) => val < min || val.checked_sub(min).is_some(),
        (None, None) => true,
    }
}

/// Whether encoding `value` under `schema` completes: no integer on the
/// way meets a `multipleOf` of zero, or a quotient or difference that
/// overflows.
pub fn encodable(value: &Value, schema: &Schema) -> (r: bool)
    ensures
        r == enc_ok(*value, *schema),
    decreases *schema, 4nat, 0nat,
{
    if schema.const_value.is_some() {
        return true;
    }
    if let Some(enums) = &schema.enum_values {
        if find_enum(enums, value).is_some() {
            return true;
        }
    }
    match &schema.instance_type {
        Some(SingleOrVec::Single(t)) => typed_encodable(value, *t, schema),
        Some(SingleOrVec::Vec(types)) => match value {
            Value::Number(n) => {
                if contains_type(types, InstanceType::Integer) || contains_type(types, InstanceType::Number) {
                    number_encodable(n, schema)
                } else {
                    true
                }
            },
            _ => true,
        },
        None => true,
    }
}

/// Whether encoding `value` under `schema` of single type `t` completes.
fn typed_encodable(value: &Value, t: InstanceType, schema: &Schema) -> (r: bool)
    ensures
        r == typed_ok(*value, t, *schema),
    decreases *schema, 3nat, 0nat,
{
    match (t, value) {
        (InstanceType::Number, Value::Number(n)) => number_encodable(n, schema),
        (InstanceType::Integer, Value::Number(n)) => number_encodable(n, schema),
        (InstanceType::Object, Value::Object(obj)) => {
            let a = required_encodable(obj, schema);
            let b = extras_encodable(obj, schema);
            a && b
        },
        (InstanceType::Array, Value::Array(arr)) => items_encodable(arr, schema),
        _ => true,
    }
}

/// Whether encoding each required property under its schema completes.
fn required_encodable(obj: &Vec<(String, Value)>, schema: &Schema) -> (r: bool)
    ensures
        r == required_ok(obj@, *schema),
    decreases *schema, 2nat, 0nat,
{
    let null = Value::Null;
    if let Some(required) = &schema.required {
        let mut i: usize = 0;
        while i < required.len()
            invariant
                schema.required == Some(*required),
                null == Value::Null,
                i <= required@.len(),
                forall|j: int|
                    0 <= j < i ==> match #[trigger] prop_schema(*schema, required_of(*schema)[j]@) {
                        Some(ss) => enc_ok(entry_value(obj@, required_of(*schema)[j]@), ss),
                        None => true,
                    },
            decreases required.len() - i,
        {
            let key = &required[i];
            assert(required_of(*schema)[i as int] == *key);
            let val = match find_entry(obj, key) {
                Some(j) => &obj[j].1,
                None => &null,
            };
            assert(*val == entry_value(obj@, key@));
            if let Some(ss) = find_prop(schema, key) {
                proof { lemma_prop_schema_decreases(*schema, key@); }
                if !encodable(val, ss) {
                    return false;
                }
            }
            i += 1;
        }
        true
    } else {
        true
    }
}

/// Whether encoding each entry that is not required, under its property
/// schema, completes.
fn extras_encodable(obj: &Vec<(String, Value)>, schema: &Schema) -> (r: bool)
    ensures
        r == extras_ok(obj@, *schema),
    decreases *schema, 2nat, 0nat,
{
    let mut i: usize = 0;
    while i < obj.len()
        invariant
            i <= obj@.len(),
            forall|j: int|
                0 <= j < i && !is_required(*schema, obj@[j].0@) ==> match #[trigger] prop_schema(*schema, obj@[j].0@) {
                    Some(ss) => enc_ok(obj@[j].1, ss),
                    None => true,
                },
        decreases obj.len() - i,
    {
        let k = &obj[i].0;
        if !is_required_key(schema, k) {
            if let Some(ss) = find_prop(schema, k) {
                proof { lemma_prop_schema_decreases(*schema, k@); }
                if !encodable(&obj[i].1, ss) {
                    return false;
                }
            }
        }
        i += 1;
    }
    true
}

/// Whether encoding each element under its item schema completes.
fn items_encodable(arr: &Vec<Value>, schema: &Schema) -> (r: bool)
    ensures
        r == items_ok(arr@, *schema),
    decreases *schema, 2nat, 0nat,
{
    let mut i: usize = 0;
    while i < arr.len()
        invariant
            i <= arr@.len(),
            forall|j: int|
                0 <= j < i ==> match #[trigger] item_schema(*schema, j) {
                    Some(ss) => enc_ok(arr@[j], ss),
                    None => true,
                },
        decreases arr.len() - i,
    {
        if let Some(ss) = item_schema_at(schema, i as u64) {
            proof { lemma_item_schema_decreases(*schema, i as int); }
            if !encodable(&arr[i], ss) {
                return false;
            }
        }
        i += 1;
    }
    true
}

} // verus!
