//! What decoding gives back of an encoding.

use vstd::prelude::*;
use vstd::utf8::{encode_utf8_decode_utf8, encode_utf8_valid_utf8};
use crate::value::{
    Value, ValueView, entry_views_of, lemma_entry_views_of, lemma_views_of, views_of,
};
use crate::number::{lemma_number_roundtrip, number_bytes};
use crate::varint::{lemma_uvarint_roundtrip, uvarint_bytes, read_uvarint_spec};
use crate::objects::{consistent, insert_all, keys_sorted, lemma_insert_all, lemma_sorted_unique, lemma_key_order};
use crate::spec_enc::{
    TAG_ARRAY, TAG_NUMBER, TAG_OBJECT, TAG_STRING,
    enc_untyped, enc_untyped_entries, enc_untyped_seq, key_bytes, str_bytes,
};
use crate::spec_dec::{
    dec_key, dec_untyped, dec_untyped_entries, dec_untyped_items,
    take_bytes,
};

verus! {

/// A value the encoding can carry: object keys strictly increasing, and no
/// string, array or object longer than 2^64 - 1.
pub open spec fn value_wf(v: Value) -> bool
    decreases v,
{
    proof { lemma_value_children_decrease(v); }
    match v {
        Value::String(s) => str_bytes(s).len() <= u64::MAX,
        Value::Array(a) => a@.len() <= u64::MAX && forall|i: int|
            0 <= i < a@.len() ==> value_wf(#[trigger] a@[i]),
        Value::Object(o) => {
            &&& o@.len() <= u64::MAX
            &&& keys_sorted(entry_views_of(o@))
            &&& forall|i: int|
                0 <= i < o@.len() ==> str_bytes(#[trigger] o@[i].0).len() <= u64::MAX && value_wf(
                    o@[i].1,
                )
        },
        _ => true,
    }
}

/// The elements of an array and the values of an object lie below it.
pub proof fn lemma_value_children_decrease(v: Value)
    ensures
        v is Array ==> forall|i: int|
            0 <= i < v->Array_0@.len() ==> decreases_to!(v => #[trigger] v->Array_0@[i]),
        v is Object ==> forall|i: int|
            0 <= i < v->Object_0@.len() ==> decreases_to!(v => #[trigger] v->Object_0@[i].1),
{
    if let Value::Array(a) = v {
        assert forall|i: int| 0 <= i < v->Array_0@.len() implies decreases_to!(v => #[trigger] v->Array_0@[i]) by {
            assert(decreases_to!(v => v->Array_0));
            assert(decreases_to!(v->Array_0 => v->Array_0@));
            assert(decreases_to!(v->Array_0@ => v->Array_0@[i]));
        }
    }
    if let Value::Object(o) = v {
        assert forall|i: int| 0 <= i < v->Object_0@.len() implies decreases_to!(v => #[trigger] v->Object_0@[i].1) by {
            assert(decreases_to!(v => v->Object_0));
            assert(decreases_to!(v->Object_0 => v->Object_0@));
            assert(decreases_to!(v->Object_0@ => v->Object_0@[i]));
            assert(decreases_to!(v->Object_0@[i] => v->Object_0@[i].1));
        }
    }
}

/// The untyped bytes of a sequence, split after its first element.
pub proof fn lemma_enc_seq_front(s: Seq<Value>)
    requires
        s.len() > 0,
    ensures
        enc_untyped_seq(s) == enc_untyped(s[0]) + enc_untyped_seq(s.subrange(1, s.len() as int)),
    decreases s.len(),
{
    let t = s.subrange(1, s.len() as int);
    if s.len() == 1 {
        assert(s.subrange(0, 0).len() == 0);
        assert(enc_untyped_seq(s.subrange(0, 0)) == Seq::<u8>::empty());
        assert(t.len() == 0);
        assert(enc_untyped_seq(s) =~= enc_untyped(s[0]) + enc_untyped_seq(t));
    } else {
        let p = s.subrange(0, s.len() - 1);
        lemma_enc_seq_front(p);
        assert(p.subrange(1, p.len() as int) =~= t.subrange(0, t.len() - 1));
        assert(p[0] == s[0]);
        assert(t[t.len() - 1] == s[s.len() - 1]);
        assert(enc_untyped_seq(s) =~= enc_untyped(s[0]) + enc_untyped_seq(t));
    }
}

/// The untyped bytes of entries, split after the first entry.
pub proof fn lemma_enc_entries_front(s: Seq<(String, Value)>)
    requires
        s.len() > 0,
    ensures
        enc_untyped_entries(s) == key_bytes(s[0].0) + enc_untyped(s[0].1) + enc_untyped_entries(
            s.subrange(1, s.len() as int),
        ),
    decreases s.len(),
{
    let t = s.subrange(1, s.len() as int);
    if s.len() == 1 {
        assert(enc_untyped_entries(s.subrange(0, 0)) == Seq::<u8>::empty());
        assert(t.len() == 0);
        assert(enc_untyped_entries(s) =~= key_bytes(s[0].0) + enc_untyped(s[0].1) + enc_untyped_entries(t));
    } else {
        let p = s.subrange(0, s.len() - 1);
        lemma_enc_entries_front(p);
        assert(p.subrange(1, p.len() as int) =~= t.subrange(0, t.len() - 1));
        assert(p[0] == s[0]);
        assert(t[t.len() - 1] == s[s.len() - 1]);
        assert(enc_untyped_entries(s) =~= key_bytes(s[0].0) + enc_untyped(s[0].1) + enc_untyped_entries(t));
    }
}

/// Reading a length-prefixed run of bytes gives the bytes back.
pub proof fn lemma_read_prefixed(pre: Seq<u8>, x: Seq<u8>, rest: Seq<u8>)
    requires
        x.len() <= u64::MAX,
    ensures
        ({
            let b = pre + (uvarint_bytes(x.len() as u64) + x) + rest;
            let (len, p1) = read_uvarint_spec(b, pre.len() as int);
            &&& len == x.len()
            &&& p1 == pre.len() + uvarint_bytes(x.len() as u64).len()
            &&& take_bytes(b, p1, len as int) == (x, (pre.len() + uvarint_bytes(x.len() as u64).len() + x.len()) as int)
        }),
{
    let u = uvarint_bytes(x.len() as u64);
    let b = pre + (u + x) + rest;
    lemma_uvarint_roundtrip(pre, x.len() as u64, x + rest);
    assert(pre + u + (x + rest) =~= b);
    assert(b.subrange((pre.len() + u.len()) as int, (pre.len() + u.len() + x.len()) as int) =~= x);
}

/// Keys read back as their characters.
pub proof fn lemma_key_roundtrip(pre: Seq<u8>, k: String, rest: Seq<u8>)
    requires
        str_bytes(k).len() <= u64::MAX,
    ensures
        dec_key(pre + key_bytes(k) + rest, pre.len() as int) == (k@, (pre.len() + key_bytes(k).len()) as int),
{
    lemma_read_prefixed(pre, str_bytes(k), rest);
    assert(pre + key_bytes(k) + rest =~= pre + (uvarint_bytes(str_bytes(k).len() as u64) + str_bytes(k)) + rest);
    encode_utf8_valid_utf8(k@);
    encode_utf8_decode_utf8(k@);
}

/// Decoding the untyped bytes of a well-formed value gives its view back,
/// whatever bytes come before and after.
pub proof fn lemma_untyped_roundtrip(v: Value, pre: Seq<u8>, rest: Seq<u8>)
    requires
        value_wf(v),
    ensures
        dec_untyped(pre + enc_untyped(v) + rest, pre.len() as int) == (v@, (pre.len() + enc_untyped(v).len()) as int),
    decreases v, 1nat,
{
    let e = enc_untyped(v);
    let b = pre + e + rest;
    let p = pre.len() as int;
    assert(b[p] == e[0]);
    match v {
        Value::Null => {},
        Value::Bool(x) => {},
        Value::Number(n) => {
            let nb = number_bytes(n);
            lemma_number_roundtrip(n);
            assert(nb.len() <= u64::MAX) by {
                crate::varint::lemma_uvarint_len(0);
                lemma_number_bytes_short(n);
            }
            lemma_read_prefixed(pre.push(TAG_NUMBER), nb, rest);
            assert(pre.push(TAG_NUMBER) + (uvarint_bytes(nb.len() as u64) + nb) + rest =~= b);
        },
        Value::String(s) => {
            let sb = str_bytes(s);
            lemma_read_prefixed(pre.push(TAG_STRING), sb, rest);
            assert(pre.push(TAG_STRING) + (uvarint_bytes(sb.len() as u64) + sb) + rest =~= b);
            encode_utf8_valid_utf8(s@);
            encode_utf8_decode_utf8(s@);
        },
        Value::Array(a) => {
            let u = uvarint_bytes(a@.len() as u64);
            let pre2 = pre.push(TAG_ARRAY) + u;
            lemma_uvarint_roundtrip(pre.push(TAG_ARRAY), a@.len() as u64, enc_untyped_seq(a@) + rest);
            assert(pre.push(TAG_ARRAY) + u + (enc_untyped_seq(a@) + rest) =~= b);
            assert(pre2 + enc_untyped_seq(a@) + rest =~= b);
            assert(decreases_to!(v => v->Array_0));
            assert(decreases_to!(v->Array_0 => v->Array_0@));
            lemma_untyped_items_roundtrip(a@, pre2, rest);
            lemma_views_of(a@);
        },
        Value::Object(o) => {
            let u = uvarint_bytes(o@.len() as u64);
            let pre2 = pre.push(TAG_OBJECT) + u;
            lemma_uvarint_roundtrip(pre.push(TAG_OBJECT), o@.len() as u64, enc_untyped_entries(o@) + rest);
            assert(pre.push(TAG_OBJECT) + u + (enc_untyped_entries(o@) + rest) =~= b);
            assert(pre2 + enc_untyped_entries(o@) + rest =~= b);
            assert(decreases_to!(v => v->Object_0));
            assert(decreases_to!(v->Object_0 => v->Object_0@));
            lemma_untyped_entries_roundtrip(o@, pre2, rest, Seq::empty());
            let ev = entry_views_of(o@);
            lemma_entry_views_of(o@);
            assert(consistent(Seq::<(Seq<char>, ValueView)>::empty() + ev)) by {
                assert(Seq::<(Seq<char>, ValueView)>::empty() + ev =~= ev);
                assert forall|i: int, j: int| 0 <= i < ev.len() && 0 <= j < ev.len() && #[trigger] ev[i].0 == #[trigger] ev[j].0 implies ev[i] == ev[j] by {
                    lemma_key_order(ev[i].0, ev[j].0, ev[j].0);
                    if i < j {
                        assert(keys_sorted(ev));
                    } else if j < i {
                        assert(keys_sorted(ev));
                    }
                }
            }
            lemma_insert_all(Seq::empty(), ev);
            assert forall|x: (Seq<char>, ValueView)| insert_all(Seq::empty(), ev).contains(x) <==> ev.contains(x) by {}
            lemma_sorted_unique(insert_all(Seq::empty(), ev), ev);
        },
    }
}

/// The compact bytes of a number are short.
pub proof fn lemma_number_bytes_short(n: crate::value::Number)
    ensures
        number_bytes(n).len() <= 21,
{
    match n {
        crate::value::Number::Int64(v) => crate::varint::lemma_uvarint_short(v as u64, 0),
        crate::value::Number::UInt64(v) => crate::varint::lemma_uvarint_short(v, 0),
        crate::value::Number::Float64Bits(v) => crate::varint::lemma_uvarint_short(v, 0),
        crate::value::Number::Decimal64(d) => crate::varint::lemma_uvarint_short(d.value as u64, 0),
        crate::value::Number::Decimal128(d) => crate::varint::lemma_uvarint_short(0, d.value as u128),
    }
}

/// Decoding `s.len()` untyped values from their bytes gives their views.
pub proof fn lemma_untyped_items_roundtrip(s: Seq<Value>, pre: Seq<u8>, rest: Seq<u8>)
    requires
        forall|i: int| 0 <= i < s.len() ==> value_wf(#[trigger] s[i]),
    ensures
        dec_untyped_items(pre + enc_untyped_seq(s) + rest, pre.len() as int, s.len())
            == (views_of(s), (pre.len() + enc_untyped_seq(s).len()) as int),
    decreases s, 0nat,
{
    lemma_views_of(s);
    let b = pre + enc_untyped_seq(s) + rest;
    if s.len() == 0 {
        assert(views_of(s) =~= Seq::<ValueView>::empty());
    } else {
        let t = s.subrange(1, s.len() as int);
        lemma_enc_seq_front(s);
        assert(decreases_to!(s => s[0]));
        lemma_untyped_roundtrip(s[0], pre, enc_untyped_seq(t) + rest);
        assert(pre + enc_untyped(s[0]) + (enc_untyped_seq(t) + rest) =~= b);
        let pre2 = pre + enc_untyped(s[0]);
        assert(pre2 + enc_untyped_seq(t) + rest =~= b);
        assert forall|i: int| 0 <= i < t.len() implies value_wf(#[trigger] t[i]) by {
            assert(t[i] == s[i + 1]);
        }
        lemma_untyped_items_roundtrip(t, pre2, rest);
        lemma_views_of(t);
        assert(views_of(s) =~= seq![s[0]@] + views_of(t));
    }
}

/// Decoding untyped entries from their bytes puts their views in, in order.
pub proof fn lemma_untyped_entries_roundtrip(
    s: Seq<(String, Value)>,
    pre: Seq<u8>,
    rest: Seq<u8>,
    m: Seq<(Seq<char>, ValueView)>,
)
    requires
        forall|i: int|
            0 <= i < s.len() ==> str_bytes(#[trigger] s[i].0).len() <= u64::MAX && value_wf(s[i].1),
    ensures
        dec_untyped_entries(pre + enc_untyped_entries(s) + rest, pre.len() as int, s.len(), m)
            == (insert_all(m, entry_views_of(s)), (pre.len() + enc_untyped_entries(s).len()) as int),
    decreases s, 0nat,
{
    lemma_entry_views_of(s);
    let b = pre + enc_untyped_entries(s) + rest;
    if s.len() == 0 {
        assert(entry_views_of(s) =~= Seq::<(Seq<char>, ValueView)>::empty());
    } else {
        let t = s.subrange(1, s.len() as int);
        lemma_enc_entries_front(s);
        let k = s[0].0;
        let x = s[0].1;
        lemma_key_roundtrip(pre, k, enc_untyped(x) + enc_untyped_entries(t) + rest);
        assert(pre + key_bytes(k) + (enc_untyped(x) + enc_untyped_entries(t) + rest) =~= b);
        let pre2 = pre + key_bytes(k);
        assert(decreases_to!(s => s[0]));
        assert(decreases_to!(s[0] => s[0].1));
        lemma_untyped_roundtrip(x, pre2, enc_untyped_entries(t) + rest);
        assert(pre2 + enc_untyped(x) + (enc_untyped_entries(t) + rest) =~= b);
        let pre3 = pre2 + enc_untyped(x);
        assert(pre3 + enc_untyped_entries(t) + rest =~= b);
        assert forall|i: int| 0 <= i < t.len() implies str_bytes(#[trigger] t[i].0).len() <= u64::MAX && value_wf(t[i].1) by {
            assert(t[i] == s[i + 1]);
        }
        let ev = entry_views_of(s);
        lemma_untyped_entries_roundtrip(t, pre3, rest, crate::spec_dec::obj_insert(m, k@, x@));
        lemma_entry_views_of(t);
        assert(ev.subrange(1, ev.len() as int) =~= entry_views_of(t));
    }
}

} // verus!
