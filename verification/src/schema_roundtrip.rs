//! Decoding what the schema-driven encoder writes gives the value back, for
//! values that conform to the schema.

use vstd::prelude::*;
use vstd::utf8::{encode_utf8, encode_utf8_decode_utf8, encode_utf8_valid_utf8};
use crate::value::{Number, Value, ValueView, int_number, number_as_int, entry_views_of,
    lemma_entry_views_of, views_of, lemma_views_of};
use crate::types::{InstanceType, Schema, SingleOrVec};
use crate::spec_enc::{
    opt_arith_ok, opt_payload, payload_bits, tdiv, trem, number_ok, typed_number_bytes,
    TAG_OPTIMIZED_NUMBER, str_bytes, adjusted_len, plain_string_bytes, typed_string_bytes,
    float_payload, TAG_NUMBER, enc_schema, enc_typed, enc_ok, typed_ok, enum_index, has_numeric_type,
    required_of, prop_schema, entry_value, entry_index, is_required, item_schema, enc_required,
    enc_extras, enc_items, extra_entries, key_bytes, enc_untyped, required_ok, extras_ok, items_ok,
    lemma_prop_schema_decreases, lemma_prop_schema_decreases_all, lemma_item_schema_decreases,
    lemma_item_schema_decreases_all,
};
use crate::spec_dec::{rem_is_zero, key_lt, dec_schema, dec_typed, dec_required, dec_extras, dec_items, opt_decode, dec_typed_number, dec_compact_number, dec_plain_string,
    dec_string_bytes, count_plus, affix_bytes};
use crate::format::{format_kind, kind_payload, kind_width, kind_render, kind_tag, strip_affixes,
    TAG_STRING_UNCOMPRESSED, TAG_PATTERN_COMPRESSED};
use crate::number::{number_bytes, lemma_number_roundtrip};
use crate::text::lossy_chars;
use crate::float64::{f64_whole, int_as_double, double_multiple, lemma_double_multiple_whole};
use crate::varint::{uvarint_bytes, uvarint128_bytes, lemma_uvarint_len, lemma_uvarint128_roundtrip,
    lemma_uvarint_roundtrip};
use crate::roundtrip::{lemma_number_bytes_short, lemma_read_prefixed, value_wf,
    lemma_untyped_roundtrip, lemma_key_roundtrip};
use crate::objects::{keys_sorted, insert_all, consistent, lemma_insert_all, lemma_sorted_unique,
    lemma_key_order};

verus! {

/// Rust's `/` and `%` on integers put the dividend back together.
pub proof fn lemma_tdiv_trem(x: int, d: int)
    requires
        d != 0,
    ensures
        tdiv(x, d) * d + trem(x, d) == x,
{
    if x > 0 && d > 0 {
        vstd::arithmetic::div_mod::lemma_fundamental_div_mod(x, d);
        assert(tdiv(x, d) * d == d * (x / d)) by (nonlinear_arith)
            requires tdiv(x, d) == x / d;
    } else if x < 0 && d < 0 {
        vstd::arithmetic::div_mod::lemma_fundamental_div_mod(-x, -d);
        assert(tdiv(x, d) * d + trem(x, d) == x) by (nonlinear_arith)
            requires
                tdiv(x, d) == (-x) / (-d),
                trem(x, d) == -((-x) % (-d)),
                -x == (-d) * ((-x) / (-d)) + (-x) % (-d);
    } else if x < 0 {
        vstd::arithmetic::div_mod::lemma_fundamental_div_mod(-x, d);
        assert(tdiv(x, d) * d + trem(x, d) == x) by (nonlinear_arith)
            requires
                tdiv(x, d) == -((-x) / d),
                trem(x, d) == -((-x) % d),
                -x == d * ((-x) / d) + (-x) % d;
    } else if x > 0 {
        vstd::arithmetic::div_mod::lemma_fundamental_div_mod(x, -d);
        assert(tdiv(x, d) * d + trem(x, d) == x) by (nonlinear_arith)
            requires
                tdiv(x, d) == -(x / (-d)),
                trem(x, d) == x % (-d),
                x == (-d) * (x / (-d)) + x % (-d);
    }
}

/// Whether an integer is a multiple the optimized payload can carry: of
/// `multipleOf`, counted from `minimum` when that is itself a multiple.
pub open spec fn multiple_fits(val: int, s: Schema) -> bool {
    match (s.multiple_of, s.minimum) {
        (Some(mul), Some(min)) => if trem(min as int, mul as int) == 0 {
            trem(val - min, mul as int) == 0
        } else {
            trem(val, mul as int) == 0
        },
        (Some(mul), None) => trem(val, mul as int) == 0,
        _ => true,
    }
}

/// An integer that reads back as the number it is, where the schema
/// optimizes integers: written as an optimized payload, it is a multiple
/// the payload carries. With `exact`, it is also already in the form it
/// decodes to.
pub open spec fn int_fits(n: Number, s: Schema, exact: bool) -> bool {
    match number_as_int(n) {
        Some(val) => opt_payload(val, s) is Some ==> (multiple_fits(val, s) && (exact ==> n == int_number(
            val as i128,
        ))),
        None => true,
    }
}

/// A number whose encoding under a numeric schema reads back as
/// `canon_number` gives (see `int_fits`). With `exact`, it reads back as the
/// very same number, so it is no double that is a whole multiple of
/// `multipleOf`: such a double is written as the count and reads back as an
/// integer.
pub open spec fn number_fits(n: Number, s: Schema, exact: bool) -> bool {
    &&& int_fits(n, s, exact)
    &&& (exact && number_as_int(n) is None) ==> float_payload(n, s) is None
}

/// What an integer reads back as where the schema optimizes it: the same
/// integer, in the form an integer decodes to.
pub open spec fn canon_int(n: Number, s: Schema) -> Number {
    match number_as_int(n) {
        Some(val) => if opt_payload(val, s) is Some {
            int_number(val as i128)
        } else {
            n
        },
        None => n,
    }
}

/// What a number reads back as under a numeric schema: a double written as
/// a count of `multipleOf` gives the integer that the count stands for; an
/// optimized integer comes back in the form an integer decodes to; any
/// other number comes back as it is.
pub open spec fn canon_number(n: Number, s: Schema) -> Number {
    match float_payload(n, s) {
        Some(q) => int_number(opt_decode(payload_bits(q as int), s)),
        None => canon_int(n, s),
    }
}

/// The optimized payload of an integer decodes to the integer.
pub proof fn lemma_opt_roundtrip(val: int, s: Schema)
    requires
        i128::MIN <= val <= i128::MAX,
        opt_arith_ok(val, s),
        opt_payload(val, s) is Some,
        multiple_fits(val, s),
    ensures
        opt_decode(payload_bits(opt_payload(val, s).unwrap()), s) == val,
{
    let p = opt_payload(val, s).unwrap();
    match (s.multiple_of, s.minimum) {
        (Some(mul), Some(min)) => {
            if trem(min as int, mul as int) == 0 {
                crate::spec_enc::lemma_tdiv_in_range(val - min, mul as int);
                lemma_tdiv_trem(val - min, mul as int);
                lemma_bits_roundtrip(p);
                assert(p * mul == val - min);
                assert(crate::spec_dec::rem_is_zero(min, mul));
            } else {
                crate::spec_enc::lemma_tdiv_in_range(val, mul as int);
                lemma_tdiv_trem(val, mul as int);
                lemma_bits_roundtrip(p);
                assert(p * mul == val);
                assert(!crate::spec_dec::rem_is_zero(min, mul));
            }
        },
        (Some(mul), None) => {
            crate::spec_enc::lemma_tdiv_in_range(val, mul as int);
            lemma_tdiv_trem(val, mul as int);
            lemma_bits_roundtrip(p);
            assert(p * mul == val);
        },
        (None, Some(min)) => {
            lemma_bits_roundtrip(p);
        },
        (None, None) => {},
    }
}

/// An `i128` read from its two's-complement bits is itself.
proof fn lemma_bits_roundtrip(p: int)
    requires
        i128::MIN <= p <= i128::MAX,
    ensures
        (payload_bits(p) as i128) == p,
{
    let q = p as i128;
    assert(((q as u128) as i128) == q) by (bit_vector);
}

/// A length-prefixed compact number reads back.
pub proof fn lemma_compact_roundtrip(n: Number, pre: Seq<u8>, rest: Seq<u8>)
    ensures
        ({
            let nb = number_bytes(n);
            let e = uvarint_bytes(nb.len() as u64) + nb;
            &&& dec_compact_number(pre + e + rest, pre.len() as int) == (n, (pre.len() + e.len()) as int)
            &&& e[0] < 0x80
        }),
{
    let nb = number_bytes(n);
    lemma_number_bytes_short(n);
    lemma_number_roundtrip(n);
    lemma_read_prefixed(pre, nb, rest);
    lemma_uvarint_len(nb.len() as u64);
}

/// Decoding the bytes of a number under a numeric schema gives back what
/// it reads back as.
pub proof fn lemma_typed_number_roundtrip(n: Number, s: Schema, pre: Seq<u8>, rest: Seq<u8>)
    requires
        number_ok(n, s),
        int_fits(n, s, false),
    ensures
        dec_typed_number(pre + typed_number_bytes(n, s) + rest, pre.len() as int, s)
            == (canon_number(n, s), (pre.len() + typed_number_bytes(n, s).len()) as int),
{
    let e = typed_number_bytes(n, s);
    let b = pre + e + rest;
    let p = pre.len() as int;
    match number_as_int(n) {
        Some(val) => match opt_payload(val, s) {
            Some(q) => {
                lemma_opt_roundtrip(val, s);
                let u = uvarint128_bytes(payload_bits(q));
                lemma_uvarint128_roundtrip(pre.push(TAG_OPTIMIZED_NUMBER), payload_bits(q), rest);
                assert(pre.push(TAG_OPTIMIZED_NUMBER) + u + rest =~= b);
                assert(b[p] == TAG_OPTIMIZED_NUMBER);
                return;
            },
            None => {},
        },
        None => match float_payload(n, s) {
            Some(q) => {
                let u = uvarint128_bytes(payload_bits(q as int));
                lemma_uvarint128_roundtrip(pre.push(TAG_OPTIMIZED_NUMBER), payload_bits(q as int), rest);
                assert(pre.push(TAG_OPTIMIZED_NUMBER) + u + rest =~= b);
                assert(b[p] == TAG_OPTIMIZED_NUMBER);
                return;
            },
            None => {},
        },
    }
    lemma_compact_roundtrip(n, pre, rest);
    assert(b[p] == e[0]);
}

/// A string the plain form carries: its length fits, and is at least
/// `minLength`.
pub open spec fn plain_fits(st: String, s: Schema) -> bool {
    &&& str_bytes(st).len() <= u64::MAX
    &&& s.min_length matches Some(m) ==> str_bytes(st).len() >= m
}

/// A string that reads back under a string schema: one a format compresses
/// has a payload of the format's width; one written plainly has at least
/// `minLength` bytes.
pub open spec fn string_fits(st: String, s: Schema) -> bool {
    &&& str_bytes(st).len() <= u64::MAX
    &&& match s.format {
        Some(f) => match format_kind(encode_utf8(f@)) {
            Some(k) => match kind_payload(k, st@) {
                Some(p) => p.len() == kind_width(k),
                None => plain_fits(st, s),
            },
            None => plain_fits(st, s),
        },
        None => if s.pattern_prefix is Some || s.pattern_suffix is Some {
            strip_affixes(s.pattern_prefix, s.pattern_suffix, str_bytes(st)) is Some || plain_fits(st, s)
        } else {
            plain_fits(st, s)
        },
    }
}

/// The bytes a string reads back as under a string schema: the text that a
/// format's compressed form renders, where the format compresses it; else
/// its own bytes.
pub open spec fn canon_string_bytes(st: String, s: Schema) -> Seq<u8> {
    match s.format {
        Some(f) => match format_kind(encode_utf8(f@)) {
            Some(k) => match kind_payload(k, st@) {
                Some(p) => kind_render(k, p),
                None => str_bytes(st),
            },
            None => str_bytes(st),
        },
        None => str_bytes(st),
    }
}

/// A string that reads back as itself under a string schema: it fits, and
/// a format that compresses it renders it back to the same text.
pub open spec fn string_conforms(st: String, s: Schema) -> bool {
    &&& string_fits(st, s)
    &&& canon_string_bytes(st, s) == str_bytes(st)
}

/// Bytes written plainly read back.
proof fn lemma_plain_roundtrip(st: String, s: Schema, pre: Seq<u8>, rest: Seq<u8>)
    requires
        plain_fits(st, s),
    ensures
        dec_plain_string(pre + plain_string_bytes(str_bytes(st), s) + rest, pre.len() as int, s)
            == (str_bytes(st), (pre.len() + plain_string_bytes(str_bytes(st), s).len()) as int),
{
    let sb = str_bytes(st);
    let adj = adjusted_len(sb.len(), s.min_length);
    let u = uvarint_bytes(adj as u64);
    let b = pre + plain_string_bytes(sb, s) + rest;
    lemma_uvarint_roundtrip(pre, adj as u64, sb + rest);
    assert(pre + u + (sb + rest) =~= b);
    assert(count_plus(adj as u64, s.min_length) == sb.len());
    assert(b.subrange((pre.len() + u.len()) as int, (pre.len() + u.len() + sb.len()) as int) =~= sb);
}

/// Stripping a literal prefix and suffix leaves the middle that they
/// surround.
proof fn lemma_strip_affixes(p: Option<String>, q: Option<String>, b: Seq<u8>)
    requires
        strip_affixes(p, q, b) is Some,
    ensures
        affix_bytes(p) + strip_affixes(p, q, b).unwrap() + affix_bytes(q) == b,
{
    let core = strip_affixes(p, q, b).unwrap();
    let r = match p {
        Some(x) => b.subrange(encode_utf8(x@).len() as int, b.len() as int),
        None => b,
    };
    match p {
        Some(x) => {
            assert(affix_bytes(p) + r =~= b);
        },
        None => {
            assert(affix_bytes(p) + r =~= b);
        },
    }
    match q {
        Some(y) => {
            assert(core + affix_bytes(q) =~= r);
        },
        None => {
            assert(core + affix_bytes(q) =~= r);
        },
    }
    assert(affix_bytes(p) + core + affix_bytes(q) =~= b);
}

/// Decoding the bytes of a fitting string under a string schema gives back
/// the bytes it reads back as.
#[verifier::spinoff_prover]
#[verifier::rlimit(40)]
pub proof fn lemma_typed_string_roundtrip(st: String, s: Schema, pre: Seq<u8>, rest: Seq<u8>)
    requires
        string_fits(st, s),
    ensures
        dec_string_bytes(pre + typed_string_bytes(st, s) + rest, pre.len() as int, s)
            == (canon_string_bytes(st, s), (pre.len() + typed_string_bytes(st, s).len()) as int),
{
    let sb = str_bytes(st);
    let e = typed_string_bytes(st, s);
    let b = pre + e + rest;
    let pos = pre.len() as int;
    match s.format {
        Some(f) => {
            match format_kind(encode_utf8(f@)) {
                Some(k) => {
                    assert(b[pos] == e[0]);
                    match kind_payload(k, st@) {
                        Some(pl) => {
                            assert(e =~= seq![kind_tag(k)] + pl);
                            assert(b.subrange(pos + 1, pos + 1 + kind_width(k)) =~= pl);
                        },
                        None => {
                            let pre1 = pre.push(TAG_STRING_UNCOMPRESSED);
                            lemma_plain_roundtrip(st, s, pre1, rest);
                            assert(pre1 + plain_string_bytes(sb, s) + rest =~= b);
                        },
                    }
                },
                None => {
                    assert(e =~= plain_string_bytes(sb, s));
                    lemma_plain_roundtrip(st, s, pre, rest);
                },
            }
        },
        None => {
            if s.pattern_prefix is Some || s.pattern_suffix is Some {
                assert(b[pos] == e[0]);
                match strip_affixes(s.pattern_prefix, s.pattern_suffix, sb) {
                    Some(core) => {
                        lemma_strip_affixes(s.pattern_prefix, s.pattern_suffix, sb);
                        assert(core.len() <= sb.len()) by {
                            assert((affix_bytes(s.pattern_prefix) + core + affix_bytes(s.pattern_suffix)).len() == sb.len());
                        }
                        let pre1 = pre.push(TAG_PATTERN_COMPRESSED);
                        lemma_read_prefixed(pre1, core, rest);
                        assert(pre1 + (uvarint_bytes(core.len() as u64) + core) + rest =~= b);
                    },
                    None => {
                        let pre1 = pre.push(TAG_STRING_UNCOMPRESSED);
                        lemma_plain_roundtrip(st, s, pre1, rest);
                        assert(pre1 + plain_string_bytes(sb, s) + rest =~= b);
                    },
                }
            } else {
                lemma_plain_roundtrip(st, s, pre, rest);
            }
        },
    }
}

/// A found enum index points at a value with the same view.
proof fn lemma_enum_index(e: Seq<Value>, v: Value)
    ensures
        enum_index(e, v) matches Some(i) ==> 0 <= i < e.len() && e[i]@ == v@,
    decreases e.len(),
{
    if e.len() > 0 && e[0]@ != v@ {
        let t = e.subrange(1, e.len() as int);
        lemma_enum_index(t, v);
        if let Some(i) = enum_index(t, v) {
            assert(e[i + 1] == t[i]);
        }
    }
}

/// A value that reads back under a schema: the `const` value itself, one
/// of the `enum` values, or a value of the schema's type whose parts conform
/// in turn; where no type is given, any well-formed value. It reads back as
/// `canon_view` gives (see `number_fits`); with `exact`, each number reads
/// back in the very form it has, so the whole value reads back as itself.
pub open spec fn conforms_in(v: Value, s: Schema, exact: bool) -> bool
    decreases s, 4nat, 0nat,
{
    if s.const_value is Some {
        v@ == s.const_value.unwrap()@
    } else if s.enum_values is Some {
        enum_index(s.enum_values.unwrap()@, v) is Some && s.enum_values.unwrap()@.len() <= u64::MAX
    } else {
        match s.instance_type {
            Some(SingleOrVec::Single(t)) => typed_conforms_in(v, t, s, exact),
            Some(SingleOrVec::Vec(ts)) => value_wf(v) && match v {
                Value::Number(n) => has_numeric_type(ts@) ==> int_fits(n, s, exact),
                _ => true,
            },
            None => value_wf(v),
        }
    }
}

/// A value that conforms to a schema and reads back as `canon_view` gives.
pub open spec fn conforms(v: Value, s: Schema) -> bool {
    conforms_in(v, s, false)
}

/// A value that conforms to a schema and reads back as itself.
pub open spec fn conforms_exact(v: Value, s: Schema) -> bool {
    conforms_in(v, s, true)
}

/// A value of type `t` that reads back under schema `s`.
pub open spec fn typed_conforms_in(v: Value, t: InstanceType, s: Schema, exact: bool) -> bool
    decreases s, 3nat, 0nat,
{
    match (t, v) {
        (InstanceType::Null, Value::Null) => true,
        (InstanceType::Boolean, Value::Bool(_)) => true,
        (InstanceType::Number, Value::Number(n)) => number_fits(n, s, exact),
        (InstanceType::Integer, Value::Number(n)) => number_fits(n, s, exact),
        (InstanceType::String, Value::String(st)) => if exact {
            string_conforms(st, s)
        } else {
            string_fits(st, s)
        },
        (InstanceType::Object, Value::Object(o)) => {
            &&& o@.len() <= u64::MAX
            &&& keys_sorted(entry_views_of(o@))
            &&& forall|i: int| 0 <= i < o@.len() ==> str_bytes(#[trigger] o@[i].0).len() <= u64::MAX
            &&& required_conform_in(o@, s, exact)
            &&& extras_conform_in(o@, s, exact)
        },
        (InstanceType::Array, Value::Array(a)) => {
            &&& a@.len() <= u64::MAX
            &&& s.min_items matches Some(m) ==> a@.len() >= m
            &&& items_conform_in(a@, s, exact)
        },
        _ => false,
    }
}

/// Each required property is present in `o` and conforms to its property
/// schema.
pub open spec fn required_conform_in(o: Seq<(String, Value)>, s: Schema, exact: bool) -> bool
    decreases s, 2nat, 0nat,
{
    proof { lemma_prop_schema_decreases_all(s); }
    forall|i: int|
        0 <= i < required_of(s).len() ==> entry_index(o, required_of(s)[i]@) is Some && match #[trigger] prop_schema(s, required_of(s)[i]@) {
            Some(ss) => conforms_in(entry_value(o, required_of(s)[i]@), ss, exact),
            None => value_wf(entry_value(o, required_of(s)[i]@)),
        }
}

/// Each entry of `o` that is not required conforms to its property schema.
pub open spec fn extras_conform_in(o: Seq<(String, Value)>, s: Schema, exact: bool) -> bool
    decreases s, 2nat, 0nat,
{
    proof { lemma_prop_schema_decreases_all(s); }
    forall|i: int|
        0 <= i < o.len() && !is_required(s, o[i].0@) ==> match #[trigger] prop_schema(s, o[i].0@) {
            Some(ss) => conforms_in(o[i].1, ss, exact),
            None => value_wf(o[i].1),
        }
}

/// Each element of `a` conforms to its item schema.
pub open spec fn items_conform_in(a: Seq<Value>, s: Schema, exact: bool) -> bool
    decreases s, 2nat, 0nat,
{
    proof { lemma_item_schema_decreases_all(s); }
    forall|i: int|
        0 <= i < a.len() ==> match #[trigger] item_schema(s, i) {
            Some(ss) => conforms_in(a[i], ss, exact),
            None => value_wf(a[i]),
        }
}

/// What a value reads back as under a schema: the value itself, but for the
/// numbers in it, each of which reads back as `canon_number` (or, under a
/// list of types, `canon_int`) gives, and the strings a format compresses,
/// each of which reads back as the text its compressed form renders.
pub open spec fn canon_view(v: Value, s: Schema) -> ValueView
    decreases s, 4nat, 0nat,
{
    if s.const_value is Some || s.enum_values is Some {
        v@
    } else {
        match s.instance_type {
            Some(SingleOrVec::Single(t)) => canon_typed(v, t, s),
            Some(SingleOrVec::Vec(ts)) => match v {
                Value::Number(n) => if has_numeric_type(ts@) {
                    ValueView::Number(canon_int(n, s))
                } else {
                    v@
                },
                _ => v@,
            },
            None => v@,
        }
    }
}

/// What a value of type `t` reads back as under schema `s`.
pub open spec fn canon_typed(v: Value, t: InstanceType, s: Schema) -> ValueView
    decreases s, 3nat, 0nat,
{
    match (t, v) {
        (InstanceType::Number, Value::Number(n)) => ValueView::Number(canon_number(n, s)),
        (InstanceType::Integer, Value::Number(n)) => ValueView::Number(canon_number(n, s)),
        (InstanceType::String, Value::String(st)) => ValueView::String(lossy_chars(canon_string_bytes(st, s))),
        (InstanceType::Object, Value::Object(o)) => ValueView::Object(canon_entries(o@, s)),
        (InstanceType::Array, Value::Array(a)) => ValueView::Array(canon_items(a@, s)),
        _ => v@,
    }
}

/// What object entries read back as: each key with what its value reads
/// back as under its property schema.
pub open spec fn canon_entries(o: Seq<(String, Value)>, s: Schema) -> Seq<(Seq<char>, ValueView)>
    decreases s, 2nat, o.len(),
{
    if o.len() == 0 {
        Seq::empty()
    } else {
        let last = o[o.len() - 1];
        proof { lemma_prop_schema_decreases(s, last.0@); }
        canon_entries(o.subrange(0, o.len() - 1), s).push(
            (
                last.0@,
                match prop_schema(s, last.0@) {
                    Some(ss) => canon_view(last.1, ss),
                    None => last.1@,
                },
            ),
        )
    }
}

/// What array elements read back as, each under its item schema.
pub open spec fn canon_items(a: Seq<Value>, s: Schema) -> Seq<ValueView>
    decreases s, 2nat, a.len(),
{
    if a.len() == 0 {
        Seq::empty()
    } else {
        proof { lemma_item_schema_decreases(s, a.len() - 1); }
        canon_items(a.subrange(0, a.len() - 1), s).push(
            match item_schema(s, a.len() - 1) {
                Some(ss) => canon_view(a[a.len() - 1], ss),
                None => a[a.len() - 1]@,
            },
        )
    }
}

/// What a value reads back as under an optional sub-schema.
pub open spec fn canon_opt(v: Value, so: Option<Schema>) -> ValueView {
    match so {
        Some(ss) => canon_view(v, ss),
        None => v@,
    }
}

/// `canon_entries` maps each entry on its own.
pub proof fn lemma_canon_entries(o: Seq<(String, Value)>, s: Schema)
    ensures
        canon_entries(o, s).len() == o.len(),
        forall|i: int|
            0 <= i < o.len() ==> #[trigger] canon_entries(o, s)[i] == (o[i].0@, canon_opt(o[i].1, prop_schema(s, o[i].0@))),
    decreases o.len(),
{
    if o.len() > 0 {
        let p = o.subrange(0, o.len() - 1);
        let last = o[o.len() - 1];
        lemma_canon_entries(p, s);
        assert(canon_entries(o, s) == canon_entries(p, s).push((last.0@, canon_opt(last.1, prop_schema(s, last.0@)))));
        assert forall|i: int| 0 <= i < o.len() implies #[trigger] canon_entries(o, s)[i] == (o[i].0@, canon_opt(o[i].1, prop_schema(s, o[i].0@))) by {
            if i < o.len() - 1 {
                assert(p[i] == o[i]);
            }
        }
    }
}

/// `canon_items` maps each element on its own.
pub proof fn lemma_canon_items(a: Seq<Value>, s: Schema)
    ensures
        canon_items(a, s).len() == a.len(),
        forall|i: int| 0 <= i < a.len() ==> #[trigger] canon_items(a, s)[i] == canon_opt(a[i], item_schema(s, i)),
    decreases a.len(),
{
    if a.len() > 0 {
        let p = a.subrange(0, a.len() - 1);
        lemma_canon_items(p, s);
        assert(canon_items(a, s) == canon_items(p, s).push(canon_opt(a[a.len() - 1], item_schema(s, a.len() - 1))));
        assert forall|i: int| 0 <= i < a.len() implies #[trigger] canon_items(a, s)[i] == canon_opt(a[i], item_schema(s, i)) by {
            if i < a.len() - 1 {
                assert(p[i] == a[i]);
            }
        }
    }
}

/// The bytes of the first `i` elements begin the bytes of the first `n`.
pub(crate) proof fn lemma_items_prefix(a: Seq<Value>, s: Schema, i: nat, n: nat)
    requires
        i <= n <= a.len(),
    ensures
        enc_items(a, s, i).len() <= enc_items(a, s, n).len(),
        enc_items(a, s, n).subrange(0, enc_items(a, s, i).len() as int) == enc_items(a, s, i),
    decreases n - i,
{
    if i < n {
        lemma_items_prefix(a, s, i, (n - 1) as nat);
        assert(enc_items(a, s, n).subrange(0, enc_items(a, s, i).len() as int) =~= enc_items(a, s, i));
    } else {
        assert(enc_items(a, s, n).subrange(0, enc_items(a, s, i).len() as int) =~= enc_items(a, s, i));
    }
}

/// The bytes of the first `i` required properties begin those of the first
/// `n`.
pub(crate) proof fn lemma_required_prefix(o: Seq<(String, Value)>, s: Schema, i: nat, n: nat)
    requires
        i <= n <= required_of(s).len(),
    ensures
        enc_required(o, s, i).len() <= enc_required(o, s, n).len(),
        enc_required(o, s, n).subrange(0, enc_required(o, s, i).len() as int) == enc_required(o, s, i),
    decreases n - i,
{
    if i < n {
        lemma_required_prefix(o, s, i, (n - 1) as nat);
        assert(enc_required(o, s, n).subrange(0, enc_required(o, s, i).len() as int) =~= enc_required(o, s, i));
    } else {
        assert(enc_required(o, s, n).subrange(0, enc_required(o, s, i).len() as int) =~= enc_required(o, s, i));
    }
}

/// The bytes of the first `i` extra entries begin those of the first `n`.
pub(crate) proof fn lemma_extras_prefix(x: Seq<(String, Value)>, s: Schema, i: nat, n: nat)
    requires
        i <= n <= x.len(),
    ensures
        enc_extras(x.subrange(0, i as int), s).len() <= enc_extras(x.subrange(0, n as int), s).len(),
        enc_extras(x.subrange(0, n as int), s).subrange(0, enc_extras(x.subrange(0, i as int), s).len() as int)
            == enc_extras(x.subrange(0, i as int), s),
    decreases n - i,
{
    let ei = enc_extras(x.subrange(0, i as int), s);
    if i < n {
        lemma_extras_prefix(x, s, i, (n - 1) as nat);
        assert(x.subrange(0, n as int).subrange(0, n - 1) =~= x.subrange(0, n - 1));
        assert(enc_extras(x.subrange(0, n as int), s).subrange(0, ei.len() as int) =~= ei);
    } else {
        assert(enc_extras(x.subrange(0, n as int), s).subrange(0, ei.len() as int) =~= ei);
    }
}

/// The entries that are not required are entries of `o` with keys that are
/// not required, and every such entry is among them.
pub(crate) proof fn lemma_extra_entries(o: Seq<(String, Value)>, s: Schema)
    ensures
        extra_entries(o, s).len() <= o.len(),
        forall|j: int|
            0 <= j < extra_entries(o, s).len() ==> exists|i: int|
                0 <= i < o.len() && #[trigger] o[i] == #[trigger] extra_entries(o, s)[j] && !is_required(s, o[i].0@),
        forall|i: int|
            0 <= i < o.len() && !is_required(s, o[i].0@) ==> extra_entries(o, s).contains(#[trigger] o[i]),
    decreases o.len(),
{
    if o.len() > 0 {
        let p = o.subrange(0, o.len() - 1);
        lemma_extra_entries(p, s);
        let x = extra_entries(o, s);
        let xp = extra_entries(p, s);
        assert forall|j: int| 0 <= j < x.len() implies exists|i: int|
            0 <= i < o.len() && #[trigger] o[i] == #[trigger] x[j] && !is_required(s, o[i].0@) by {
            if j < xp.len() {
                assert(x[j] == xp[j]);
                let i = choose|i: int| 0 <= i < p.len() && #[trigger] p[i] == #[trigger] xp[j] && !is_required(s, p[i].0@);
                assert(o[i] == p[i]);
            } else {
                assert(o[o.len() - 1] == x[j]);
            }
        }
        assert forall|i: int| 0 <= i < o.len() && !is_required(s, o[i].0@) implies x.contains(#[trigger] o[i]) by {
            if i < o.len() - 1 {
                assert(p[i] == o[i]);
                assert(xp.contains(p[i]));
                let j = choose|j: int| 0 <= j < xp.len() && xp[j] == p[i];
                assert(x[j] == xp[j]);
            } else {
                assert(x[x.len() - 1] == o[i]);
            }
        }
    }
}

/// Entries drawn from sorted entries agree on every key they share.
proof fn lemma_consistent_within(a: Seq<(Seq<char>, ValueView)>, ev: Seq<(Seq<char>, ValueView)>)
    requires
        keys_sorted(ev),
        forall|x: (Seq<char>, ValueView)| a.contains(x) ==> ev.contains(x),
    ensures
        consistent(a),
{
    assert forall|i: int, j: int| 0 <= i < a.len() && 0 <= j < a.len() && #[trigger] a[i].0 == #[trigger] a[j].0 implies a[i] == a[j] by {
        assert(a.contains(a[i]));
        assert(a.contains(a[j]));
        let p = choose|p: int| 0 <= p < ev.len() && ev[p] == a[i];
        let q = choose|q: int| 0 <= q < ev.len() && ev[q] == a[j];
        lemma_key_order(ev[p].0, ev[q].0, ev[q].0);
        if p < q {
            assert(key_lt(ev[p].0, ev[q].0));
        } else if q < p {
            assert(key_lt(ev[q].0, ev[p].0));
        }
    }
}

/// The found entry of a key in sorted entries is the one entry with that key.
pub(crate) proof fn lemma_entry_index(o: Seq<(String, Value)>, k: Seq<char>)
    ensures
        entry_index(o, k) matches Some(i) ==> 0 <= i < o.len() && o[i].0@ == k,
        entry_index(o, k) is None ==> forall|j: int| 0 <= j < o.len() ==> o[j].0@ != k,
    decreases o.len(),
{
    if o.len() > 0 && o[0].0@ != k {
        let t = o.subrange(1, o.len() as int);
        lemma_entry_index(t, k);
        if let Some(i) = entry_index(t, k) {
            assert(o[i + 1] == t[i]);
        } else {
            assert forall|j: int| 0 <= j < o.len() implies o[j].0@ != k by {
                if j > 0 {
                    assert(o[j] == t[j - 1]);
                }
            }
        }
    }
}

/// What decoding the required properties of `o` puts into the object: each
/// required name with the value of `o` under it.
pub open spec fn required_views(o: Seq<(String, Value)>, s: Schema) -> Seq<(Seq<char>, ValueView)> {
    Seq::new(
        required_of(s).len(),
        |j: int| (required_of(s)[j]@, entry_value(o, required_of(s)[j]@)@),
    )
}

/// What decoding the required properties of `o` puts into the object: each
/// required name with what the value of `o` under it reads back as.
pub open spec fn required_canon(o: Seq<(String, Value)>, s: Schema) -> Seq<(Seq<char>, ValueView)> {
    Seq::new(
        required_of(s).len(),
        |j: int| (required_of(s)[j]@, canon_opt(entry_value(o, required_of(s)[j]@), prop_schema(s, required_of(s)[j]@))),
    )
}

/// Every extra entry has a short key and conforms to its property schema.
pub open spec fn extras_fit_in(x: Seq<(String, Value)>, s: Schema, exact: bool) -> bool {
    forall|j: int|
        0 <= j < x.len() ==> str_bytes((#[trigger] x[j]).0).len() <= u64::MAX && match prop_schema(s, x[j].0@) {
            Some(ss) => enc_ok(x[j].1, ss) && conforms_in(x[j].1, ss, exact),
            None => value_wf(x[j].1),
        }
}

/// Putting the required properties and then the extra entries into an empty
/// object gives back what the entries of `o` read back as.
#[verifier::spinoff_prover]
proof fn lemma_object_contents(o: Seq<(String, Value)>, s: Schema)
    requires
        keys_sorted(entry_views_of(o)),
        forall|j: int| 0 <= j < required_of(s).len() ==> (#[trigger] entry_index(o, required_of(s)[j]@)) is Some,
    ensures
        insert_all(insert_all(Seq::empty(), required_canon(o, s)), canon_entries(extra_entries(o, s), s))
            == canon_entries(o, s),
{
    let ov = entry_views_of(o);
    let ev = canon_entries(o, s);
    let rv = required_canon(o, s);
    let x = extra_entries(o, s);
    let xv = canon_entries(x, s);
    let e0 = Seq::<(Seq<char>, ValueView)>::empty();
    lemma_entry_views_of(o);
    lemma_canon_entries(o, s);
    lemma_canon_entries(x, s);
    lemma_extra_entries(o, s);
    assert(keys_sorted(ev)) by {
        assert forall|i: int, j: int| 0 <= i < j < ev.len() implies key_lt(#[trigger] ev[i].0, #[trigger] ev[j].0) by {
            assert(ov[i].0 == ev[i].0 && ov[j].0 == ev[j].0);
        }
    }
    assert forall|y: (Seq<char>, ValueView)| rv.contains(y) implies ev.contains(y) by {
        let j = choose|j: int| 0 <= j < rv.len() && rv[j] == y;
        let k = required_of(s)[j]@;
        assert(entry_index(o, required_of(s)[j]@) is Some);
        lemma_entry_index(o, k);
        let i = entry_index(o, k).unwrap();
        assert(ev[i] == y);
    }
    assert forall|y: (Seq<char>, ValueView)| xv.contains(y) implies ev.contains(y) by {
        let j = choose|j: int| 0 <= j < xv.len() && xv[j] == y;
        let i = choose|i: int| 0 <= i < o.len() && #[trigger] o[i] == #[trigger] x[j] && !is_required(s, o[i].0@);
        assert(ev[i] == y);
    }
    assert(e0 + rv =~= rv);
    lemma_consistent_within(e0 + rv, ev);
    lemma_insert_all(e0, rv);
    let m1 = insert_all(e0, rv);
    assert forall|y: (Seq<char>, ValueView)| (m1 + xv).contains(y) implies ev.contains(y) by {
        let i = choose|i: int| 0 <= i < (m1 + xv).len() && (m1 + xv)[i] == y;
        if i < m1.len() {
            assert(m1.contains(m1[i]));
        } else {
            assert(xv.contains(xv[i - m1.len()]));
        }
    }
    lemma_consistent_within(m1 + xv, ev);
    lemma_insert_all(m1, xv);
    let f = insert_all(m1, xv);
    assert forall|y: (Seq<char>, ValueView)| f.contains(y) <==> ev.contains(y) by {
        if ev.contains(y) {
            let i = choose|i: int| 0 <= i < ev.len() && ev[i] == y;
            if is_required(s, o[i].0@) {
                let j = choose|j: int| 0 <= j < required_of(s).len() && #[trigger] required_of(s)[j]@ == o[i].0@;
                let k = required_of(s)[j]@;
                assert(entry_index(o, required_of(s)[j]@) is Some);
                lemma_entry_index(o, k);
                let i2 = entry_index(o, k).unwrap();
                lemma_key_order(ov[i].0, ov[i2].0, ov[i2].0);
                if i < i2 {
                    assert(key_lt(ov[i].0, ov[i2].0));
                } else if i2 < i {
                    assert(key_lt(ov[i2].0, ov[i].0));
                }
                assert(rv[j] == y);
                assert(rv.contains(rv[j]));
            } else {
                assert(x.contains(o[i]));
                let jx = choose|jx: int| 0 <= jx < x.len() && x[jx] == o[i];
                assert(xv[jx] == y);
                assert(xv.contains(xv[jx]));
            }
        }
    }
    lemma_sorted_unique(f, ev);
}

/// Decoding the bytes of a conforming value under its schema gives back
/// what the value reads back as, whatever bytes come before and after.
#[verifier::spinoff_prover]
pub proof fn lemma_schema_roundtrip_in(v: Value, s: Schema, exact: bool, pre: Seq<u8>, rest: Seq<u8>)
    requires
        enc_ok(v, s),
        conforms_in(v, s, exact),
    ensures
        dec_schema(pre + enc_schema(v, s) + rest, pre.len() as int, s)
            == (canon_view(v, s), (pre.len() + enc_schema(v, s).len()) as int),
    decreases s, 4nat, 0nat,
{
    let e = enc_schema(v, s);
    let b = pre + e + rest;
    let p = pre.len() as int;
    if s.const_value is Some {
        assert(b =~= pre + rest);
    } else if s.enum_values is Some {
        let ev = s.enum_values.unwrap()@;
        lemma_enum_index(ev, v);
        let i = enum_index(ev, v).unwrap();
        lemma_uvarint_roundtrip(pre, i as u64, rest);
    } else {
        match s.instance_type {
            Some(SingleOrVec::Single(t)) => {
                lemma_typed_roundtrip(v, t, s, exact, pre, rest);
            },
            Some(SingleOrVec::Vec(ts)) => {
                lemma_untyped_roundtrip(v, pre, rest);
                assert(b[p] == e[0]);
                match v {
                    Value::Number(n) => {
                        if has_numeric_type(ts@) && number_as_int(n) is Some && opt_payload(
                            number_as_int(n).unwrap(),
                            s,
                        ) is Some {
                            let val = number_as_int(n).unwrap();
                            let q = opt_payload(val, s).unwrap();
                            lemma_opt_roundtrip(val, s);
                            let pre2 = pre + seq![TAG_NUMBER, TAG_OPTIMIZED_NUMBER];
                            lemma_uvarint128_roundtrip(pre2, payload_bits(q), rest);
                            assert(pre2 + uvarint128_bytes(payload_bits(q)) + rest =~= b);
                            assert(b[p + 1] == TAG_OPTIMIZED_NUMBER);
                        } else {
                            lemma_compact_roundtrip(n, pre.push(TAG_NUMBER), rest);
                            assert(b[p + 1] == e[1]);
                        }
                    },
                    _ => {},
                }
            },
            None => {
                lemma_untyped_roundtrip(v, pre, rest);
            },
        }
    }
}

/// Decoding the bytes of a conforming value of type `t` gives back what it
/// reads back as.
#[verifier::spinoff_prover]
proof fn lemma_typed_roundtrip(v: Value, t: InstanceType, s: Schema, exact: bool, pre: Seq<u8>, rest: Seq<u8>)
    requires
        typed_ok(v, t, s),
        typed_conforms_in(v, t, s, exact),
    ensures
        dec_typed(pre + enc_typed(v, t, s) + rest, pre.len() as int, t, s)
            == (canon_typed(v, t, s), (pre.len() + enc_typed(v, t, s).len()) as int),
    decreases s, 3nat, 1nat,
{
    let e = enc_typed(v, t, s);
    let b = pre + e + rest;
    let p = pre.len() as int;
    match (t, v) {
        (InstanceType::Null, Value::Null) => {},
        (InstanceType::Boolean, Value::Bool(x)) => {
            assert(b[p] == e[0]);
        },
        (InstanceType::Number, Value::Number(n)) => {
            lemma_typed_number_roundtrip(n, s, pre, rest);
        },
        (InstanceType::Integer, Value::Number(n)) => {
            lemma_typed_number_roundtrip(n, s, pre, rest);
        },
        (InstanceType::String, Value::String(st)) => {
            lemma_typed_string_roundtrip(st, s, pre, rest);
        },
        (InstanceType::Object, Value::Object(o)) => {
            lemma_object_roundtrip(o@, s, exact, pre, rest);
        },
        (InstanceType::Array, Value::Array(a)) => {
            lemma_array_roundtrip(a@, s, exact, pre, rest);
        },
        _ => {},
    }
}

/// Decoding the bytes of a conforming array gives back what its elements
/// read back as.
#[verifier::spinoff_prover]
proof fn lemma_array_roundtrip(a: Seq<Value>, s: Schema, exact: bool, pre: Seq<u8>, rest: Seq<u8>)
    requires
        a.len() <= u64::MAX,
        s.min_items matches Some(m) ==> a.len() >= m,
        items_ok(a, s),
        items_conform_in(a, s, exact),
    ensures
        ({
            let e = uvarint_bytes(adjusted_len(a.len(), s.min_items) as u64) + enc_items(a, s, a.len());
            dec_typed(pre + e + rest, pre.len() as int, InstanceType::Array, s)
                == (ValueView::Array(canon_items(a, s)), (pre.len() + e.len()) as int)
        }),
    decreases s, 3nat, 0nat,
{
    let n = a.len();
    let adj = adjusted_len(n, s.min_items);
    let u = uvarint_bytes(adj as u64);
    let ei = enc_items(a, s, n);
    let b = pre + (u + ei) + rest;
    lemma_uvarint_roundtrip(pre, adj as u64, ei + rest);
    assert(pre + u + (ei + rest) =~= b);
    assert(count_plus(adj as u64, s.min_items) == n);
    let pre2 = pre + u;
    assert(pre2 + ei + rest =~= b);
    lemma_items_roundtrip(a, s, exact, pre2, rest, 0);
    lemma_canon_items(a, s);
    assert(canon_items(a, s).subrange(0, n as int) =~= canon_items(a, s));
}

/// Decoding the bytes of a conforming object gives back what its entries
/// read back as.
#[verifier::spinoff_prover]
#[verifier::rlimit(40)]
proof fn lemma_object_roundtrip(o: Seq<(String, Value)>, s: Schema, exact: bool, pre: Seq<u8>, rest: Seq<u8>)
    requires
        o.len() <= u64::MAX,
        keys_sorted(entry_views_of(o)),
        forall|i: int| 0 <= i < o.len() ==> str_bytes(#[trigger] o[i].0).len() <= u64::MAX,
        required_ok(o, s),
        extras_ok(o, s),
        required_conform_in(o, s, exact),
        extras_conform_in(o, s, exact),
    ensures
        ({
            let x = extra_entries(o, s);
            let e = enc_required(o, s, required_of(s).len()) + uvarint_bytes(x.len() as u64)
                + enc_extras(x, s);
            dec_typed(pre + e + rest, pre.len() as int, InstanceType::Object, s)
                == (ValueView::Object(canon_entries(o, s)), (pre.len() + e.len()) as int)
        }),
    decreases s, 3nat, 0nat,
{
    let n = required_of(s).len();
    let x = extra_entries(o, s);
    let er = enc_required(o, s, n);
    let u = uvarint_bytes(x.len() as u64);
    let ex = enc_extras(x, s);
    let b = pre + (er + u + ex) + rest;
    let rv = required_canon(o, s);
    lemma_required_roundtrip(o, s, exact, pre, u + ex + rest, 0, Seq::empty());
    assert(pre + er + (u + ex + rest) =~= b);
    assert(rv.subrange(0, n as int) =~= rv);
    let m1 = insert_all(Seq::empty(), rv);
    lemma_extra_entries(o, s);
    lemma_uvarint_roundtrip(pre + er, x.len() as u64, ex + rest);
    assert(pre + er + u + (ex + rest) =~= b);
    assert forall|j: int| 0 <= j < x.len() implies str_bytes((#[trigger] x[j]).0).len() <= u64::MAX
        && match prop_schema(s, x[j].0@) {
            Some(ss) => enc_ok(x[j].1, ss) && conforms_in(x[j].1, ss, exact),
            None => value_wf(x[j].1),
        } by {
        let i = choose|i: int| 0 <= i < o.len() && #[trigger] o[i] == #[trigger] x[j] && !is_required(s, o[i].0@);
        assert(str_bytes(o[i].0).len() <= u64::MAX);
        let _ = prop_schema(s, o[i].0@);
    }
    let pre2 = pre + er + u;
    assert(pre2 + ex + rest =~= b);
    assert(x.subrange(0, 0) =~= Seq::<(String, Value)>::empty());
    lemma_extras_roundtrip(x, s, exact, pre2, rest, 0, m1);
    let xv = canon_entries(x, s);
    lemma_canon_entries(x, s);
    assert(xv.subrange(0, x.len() as int) =~= xv);
    assert forall|j: int| 0 <= j < n implies (#[trigger] entry_index(o, required_of(s)[j]@)) is Some by {
        let _ = prop_schema(s, required_of(s)[j]@);
    }
    lemma_object_contents(o, s);
}

/// Decoding the required properties from the `i`-th on puts what each
/// one's value reads back as into the object.
#[verifier::spinoff_prover]
pub(crate) proof fn lemma_required_roundtrip(
    o: Seq<(String, Value)>,
    s: Schema,
    exact: bool,
    pre: Seq<u8>,
    rest: Seq<u8>,
    i: nat,
    m: Seq<(Seq<char>, ValueView)>,
)
    requires
        i <= required_of(s).len(),
        required_ok(o, s),
        required_conform_in(o, s, exact),
    ensures
        ({
            let n = required_of(s).len();
            let b = pre + enc_required(o, s, n) + rest;
            dec_required(b, (pre.len() + enc_required(o, s, i).len()) as int, s, i, m) == (
                insert_all(m, required_canon(o, s).subrange(i as int, n as int)),
                (pre.len() + enc_required(o, s, n).len()) as int,
            )
        }),
    decreases s, 2nat, required_of(s).len() - i,
{
    let n = required_of(s).len();
    let en = enc_required(o, s, n);
    let b = pre + en + rest;
    let rv = required_canon(o, s);
    if i < n {
        let k = required_of(s)[i as int]@;
        let x = entry_value(o, k);
        let e_i = enc_required(o, s, i);
        let e_i1 = enc_required(o, s, i + 1);
        lemma_required_prefix(o, s, i + 1, n);
        let piece = match prop_schema(s, k) {
            Some(ss) => enc_schema(x, ss),
            None => enc_untyped(x),
        };
        assert(e_i1 == e_i + piece);
        let pre1 = pre + e_i;
        let rest1 = b.subrange((pre.len() + e_i1.len()) as int, b.len() as int);
        assert(b =~= pre1 + piece + rest1) by {
            assert(en.subrange(0, e_i1.len() as int) == e_i1);
            assert forall|j: int| 0 <= j < b.len() implies b[j] == (pre1 + piece + rest1)[j] by {
                if pre.len() <= j < pre.len() + e_i1.len() {
                    assert(b[j] == en[j - pre.len()]);
                    assert(en[j - pre.len()] == e_i1[j - pre.len()]);
                }
            }
        }
        match prop_schema(s, k) {
            Some(ss) => {
                lemma_prop_schema_decreases(s, k);
                lemma_schema_roundtrip_in(x, ss, exact, pre1, rest1);
            },
            None => {
                lemma_untyped_roundtrip(x, pre1, rest1);
            },
        }
        let cx = canon_opt(x, prop_schema(s, k));
        lemma_required_roundtrip(o, s, exact, pre, rest, i + 1, crate::spec_dec::obj_insert(m, k, cx));
        assert(rv.subrange(i as int, n as int).subrange(1, n - i) =~= rv.subrange((i + 1) as int, n as int));
        assert(rv.subrange(i as int, n as int)[0] == (k, cx));
    } else {
        assert(rv.subrange(i as int, n as int).len() == 0);
    }
}

/// Decoding the extra entries from the `j`-th on puts what each one reads
/// back as into the object.
#[verifier::spinoff_prover]
proof fn lemma_extras_roundtrip(
    x: Seq<(String, Value)>,
    s: Schema,
    exact: bool,
    pre: Seq<u8>,
    rest: Seq<u8>,
    j: nat,
    m: Seq<(Seq<char>, ValueView)>,
)
    requires
        j <= x.len(),
        extras_fit_in(x, s, exact),
    ensures
        ({
            let b = pre + enc_extras(x, s) + rest;
            dec_extras(b, (pre.len() + enc_extras(x.subrange(0, j as int), s).len()) as int, s, (x.len() - j) as nat, m)
                == (
                insert_all(m, canon_entries(x, s).subrange(j as int, x.len() as int)),
                (pre.len() + enc_extras(x, s).len()) as int,
            )
        }),
    decreases s, 2nat, x.len() - j,
{
    let n = x.len();
    let en = enc_extras(x, s);
    let b = pre + en + rest;
    let xv = canon_entries(x, s);
    lemma_canon_entries(x, s);
    assert(x.subrange(0, n as int) =~= x);
    if j < n {
        let e_j = enc_extras(x.subrange(0, j as int), s);
        let e_j1 = enc_extras(x.subrange(0, (j + 1) as int), s);
        lemma_extras_prefix(x, s, j + 1, n);
        assert(x.subrange(0, (j + 1) as int).subrange(0, j as int) =~= x.subrange(0, j as int));
        let k = x[j as int].0;
        let val = x[j as int].1;
        assert(x.subrange(0, (j + 1) as int)[j as int] == x[j as int]);
        let piece = match prop_schema(s, k@) {
            Some(ss) => enc_schema(val, ss),
            None => enc_untyped(val),
        };
        assert(e_j1 == e_j + key_bytes(k) + piece);
        let pre1 = pre + e_j;
        let rest1 = b.subrange((pre.len() + e_j1.len()) as int, b.len() as int);
        assert(b =~= pre1 + key_bytes(k) + (piece + rest1)) by {
            assert(en.subrange(0, e_j1.len() as int) == e_j1);
            assert forall|i: int| 0 <= i < b.len() implies b[i] == (pre1 + key_bytes(k) + (piece + rest1))[i] by {
                if pre.len() <= i < pre.len() + e_j1.len() {
                    assert(b[i] == en[i - pre.len()]);
                    assert(en[i - pre.len()] == e_j1[i - pre.len()]);
                }
            }
        }
        assert(str_bytes(x[j as int].0).len() <= u64::MAX);
        lemma_key_roundtrip(pre1, k, piece + rest1);
        let pre2 = pre1 + key_bytes(k);
        assert(b =~= pre2 + piece + rest1);
        match prop_schema(s, k@) {
            Some(ss) => {
                lemma_prop_schema_decreases(s, k@);
                lemma_schema_roundtrip_in(val, ss, exact, pre2, rest1);
            },
            None => {
                lemma_untyped_roundtrip(val, pre2, rest1);
            },
        }
        let cv = canon_opt(val, prop_schema(s, k@));
        lemma_extras_roundtrip(x, s, exact, pre, rest, j + 1, crate::spec_dec::obj_insert(m, k@, cv));
        assert(xv.subrange(j as int, n as int).subrange(1, n - j) =~= xv.subrange((j + 1) as int, n as int));
        assert(xv.subrange(j as int, n as int)[0] == (k@, cv));
    } else {
        assert(xv.subrange(j as int, n as int).len() == 0);
    }
}

/// Decoding the elements from the `i`-th on gives what they read back as.
#[verifier::spinoff_prover]
proof fn lemma_items_roundtrip(a: Seq<Value>, s: Schema, exact: bool, pre: Seq<u8>, rest: Seq<u8>, i: nat)
    requires
        i <= a.len(),
        items_ok(a, s),
        items_conform_in(a, s, exact),
    ensures
        ({
            let n = a.len();
            let b = pre + enc_items(a, s, n) + rest;
            dec_items(b, (pre.len() + enc_items(a, s, i).len()) as int, s, i, n)
                == (canon_items(a, s).subrange(i as int, n as int), (pre.len() + enc_items(a, s, n).len()) as int)
        }),
    decreases s, 2nat, a.len() - i,
{
    let n = a.len();
    let en = enc_items(a, s, n);
    let b = pre + en + rest;
    lemma_canon_items(a, s);
    if i < n {
        let e_i = enc_items(a, s, i);
        let e_i1 = enc_items(a, s, i + 1);
        lemma_items_prefix(a, s, i + 1, n);
        let x = a[i as int];
        let piece = match item_schema(s, i as int) {
            Some(ss) => enc_schema(x, ss),
            None => enc_untyped(x),
        };
        assert(e_i1 == e_i + piece);
        let pre1 = pre + e_i;
        let rest1 = b.subrange((pre.len() + e_i1.len()) as int, b.len() as int);
        assert(b =~= pre1 + piece + rest1) by {
            assert(en.subrange(0, e_i1.len() as int) == e_i1);
            assert forall|j: int| 0 <= j < b.len() implies b[j] == (pre1 + piece + rest1)[j] by {
                if pre.len() <= j < pre.len() + e_i1.len() {
                    assert(b[j] == en[j - pre.len()]);
                    assert(en[j - pre.len()] == e_i1[j - pre.len()]);
                }
            }
        }
        match item_schema(s, i as int) {
            Some(ss) => {
                lemma_item_schema_decreases(s, i as int);
                lemma_schema_roundtrip_in(x, ss, exact, pre1, rest1);
            },
            None => {
                lemma_untyped_roundtrip(x, pre1, rest1);
            },
        }
        lemma_items_roundtrip(a, s, exact, pre, rest, i + 1);
        assert(canon_items(a, s).subrange(i as int, n as int) =~= seq![canon_opt(x, item_schema(s, i as int))]
            + canon_items(a, s).subrange((i + 1) as int, n as int));
    } else {
        assert(canon_items(a, s).subrange(i as int, n as int) =~= Seq::<ValueView>::empty());
    }
}

/// A value that conforms exactly reads back as itself.
pub proof fn lemma_canon_exact(v: Value, s: Schema)
    requires
        conforms_exact(v, s),
    ensures
        canon_view(v, s) == v@,
    decreases s, 4nat, 0nat,
{
    if s.const_value is None && s.enum_values is None {
        if let Some(SingleOrVec::Single(t)) = s.instance_type {
            lemma_canon_typed_exact(v, t, s);
        }
    }
}

/// A value of type `t` that conforms exactly reads back as itself.
proof fn lemma_canon_typed_exact(v: Value, t: InstanceType, s: Schema)
    requires
        typed_conforms_in(v, t, s, true),
    ensures
        canon_typed(v, t, s) == v@,
    decreases s, 3nat, 0nat,
{
    match (t, v) {
        (InstanceType::String, Value::String(st)) => {
            encode_utf8_valid_utf8(st@);
            encode_utf8_decode_utf8(st@);
        },
        (InstanceType::Object, Value::Object(o)) => {
            let o = o@;
            lemma_canon_entries(o, s);
            lemma_entry_views_of(o);
            lemma_prop_schema_decreases_all(s);
            assert forall|i: int| 0 <= i < o.len() implies #[trigger] canon_entries(o, s)[i] == entry_views_of(o)[i] by {
                let k = o[i].0@;
                if let Some(ss) = prop_schema(s, k) {
                    lemma_prop_schema_decreases(s, k);
                    if is_required(s, k) {
                        let j = choose|j: int| 0 <= j < required_of(s).len() && #[trigger] required_of(s)[j]@ == k;
                        assert(entry_index(o, required_of(s)[j]@) is Some);
                        crate::in_place::lemma_sole_entry(o, k, i);
                        assert(conforms_in(entry_value(o, required_of(s)[j]@), ss, true));
                    } else {
                        assert(conforms_in(o[i].1, ss, true));
                    }
                    lemma_canon_exact(o[i].1, ss);
                }
            }
            assert(canon_entries(o, s) =~= entry_views_of(o));
        },
        (InstanceType::Array, Value::Array(a)) => {
            let a = a@;
            lemma_canon_items(a, s);
            lemma_views_of(a);
            lemma_item_schema_decreases_all(s);
            assert forall|i: int| 0 <= i < a.len() implies #[trigger] canon_items(a, s)[i] == views_of(a)[i] by {
                if let Some(ss) = item_schema(s, i) {
                    lemma_item_schema_decreases(s, i);
                    lemma_canon_exact(a[i], ss);
                }
            }
            assert(canon_items(a, s) =~= views_of(a));
        },
        _ => {},
    }
}

/// Decoding the bytes of a value that conforms exactly gives the value
/// back, whatever bytes come before and after.
pub proof fn lemma_schema_roundtrip(v: Value, s: Schema, pre: Seq<u8>, rest: Seq<u8>)
    requires
        enc_ok(v, s),
        conforms_exact(v, s),
    ensures
        dec_schema(pre + enc_schema(v, s) + rest, pre.len() as int, s)
            == (v@, (pre.len() + enc_schema(v, s).len()) as int),
{
    lemma_schema_roundtrip_in(v, s, true, pre, rest);
    lemma_canon_exact(v, s);
}

/// Decoding what `encode` writes for a value that conforms to the schema,
/// where the encoding completes, reads every byte and gives back what the
/// value reads back as: the value itself, but for each number, which comes
/// back as `canon_number` says (the same number, or for a double that is a
/// whole multiple of `multipleOf`, the integer that its count stands for),
/// and each string that a format compresses, which comes back as the text
/// its compressed form renders (`2001:0DB8::1` as `2001:db8::1`).
pub proof fn lemma_encode_decode(v: Value, s: Schema)
    requires
        enc_ok(v, s),
        conforms(v, s),
    ensures
        dec_schema(enc_schema(v, s), 0, s) == (canon_view(v, s), enc_schema(v, s).len() as int),
        conforms_exact(v, s) ==> canon_view(v, s) == v@,
{
    let e = enc_schema(v, s);
    lemma_schema_roundtrip_in(v, s, false, Seq::empty(), Seq::empty());
    assert(Seq::<u8>::empty() + e + Seq::<u8>::empty() =~= e);
    if conforms_exact(v, s) {
        lemma_canon_exact(v, s);
    }
}

/// `i128` multiplication that wraps gives the true product where it fits.
proof fn lemma_wrapping_mul_fits(x: i128, y: i128)
    requires
        i128::MIN <= x * y <= i128::MAX,
    ensures
        vstd::wrapping::i128_specs::wrapping_mul(x, y) == x * y,
{
    let p = x * y;
    let r: int = u128::MAX as int + 1;
    if p >= 0 {
        vstd::arithmetic::div_mod::lemma_small_mod(p as nat, r as nat);
    } else {
        vstd::arithmetic::div_mod::lemma_fundamental_div_mod_converse_mod(p, r, -1, p + r);
    }
}

/// A double that is a whole multiple `q` of `multipleOf` is the whole
/// number `q * multipleOf`, and reads back as that integer: where
/// `multipleOf` is exactly a double, `q` and the product fit in `i128`, and no
/// `minimum` that is itself a multiple of `multipleOf` is added back on
/// decoding.
pub proof fn lemma_canon_double(bits: u64, s: Schema)
    requires
        s.multiple_of is Some,
        int_as_double(s.multiple_of.unwrap()) == s.multiple_of.unwrap(),
        double_multiple(bits, s.multiple_of.unwrap() as int) is Some,
        i128::MIN <= double_multiple(bits, s.multiple_of.unwrap() as int).unwrap() <= i128::MAX,
        i128::MIN <= double_multiple(bits, s.multiple_of.unwrap() as int).unwrap() * s.multiple_of.unwrap()
            <= i128::MAX,
        !(s.minimum is Some && rem_is_zero(s.minimum.unwrap(), s.multiple_of.unwrap())),
    ensures
        ({
            let mul = s.multiple_of.unwrap() as int;
            let x = double_multiple(bits, mul).unwrap() * mul;
            &&& f64_whole(bits) == Some(x)
            &&& canon_number(Number::Float64Bits(bits), s) == int_number(x as i128)
        }),
{
    let mul = s.multiple_of.unwrap();
    let q = double_multiple(bits, mul as int).unwrap();
    let x = q * mul;
    lemma_double_multiple_whole(bits, mul as int);
    assert(mul != 0);
    assert(float_payload(Number::Float64Bits(bits), s) == Some(q as i128));
    lemma_bits_roundtrip(q);
    lemma_wrapping_mul_fits(q as i128, mul);
}

/// Decoding what `encode` writes for a double under a numeric schema, where
/// the double is a whole multiple of `multipleOf` (see
/// `lemma_canon_double`), gives back the integer that the double equals.
pub proof fn lemma_encode_decode_double(bits: u64, s: Schema)
    requires
        s.const_value is None,
        s.enum_values is None,
        s.instance_type == Some(SingleOrVec::Single(InstanceType::Number)) || s.instance_type == Some(
            SingleOrVec::Single(InstanceType::Integer),
        ),
        s.multiple_of is Some,
        int_as_double(s.multiple_of.unwrap()) == s.multiple_of.unwrap(),
        double_multiple(bits, s.multiple_of.unwrap() as int) is Some,
        i128::MIN <= double_multiple(bits, s.multiple_of.unwrap() as int).unwrap() <= i128::MAX,
        i128::MIN <= double_multiple(bits, s.multiple_of.unwrap() as int).unwrap() * s.multiple_of.unwrap()
            <= i128::MAX,
        !(s.minimum is Some && rem_is_zero(s.minimum.unwrap(), s.multiple_of.unwrap())),
    ensures
        ({
            let v = Value::Number(Number::Float64Bits(bits));
            let mul = s.multiple_of.unwrap() as int;
            let x = double_multiple(bits, mul).unwrap() * mul;
            &&& f64_whole(bits) == Some(x)
            &&& dec_schema(enc_schema(v, s), 0, s) == (
                ValueView::Number(int_number(x as i128)),
                enc_schema(v, s).len() as int,
            )
        }),
{
    let v = Value::Number(Number::Float64Bits(bits));
    lemma_encode_decode(v, s);
    lemma_canon_double(bits, s);
}

/// Skipping a conforming value under a schema of one type steps over
/// exactly the bytes that encoding it writes, wherever they stand.
pub proof fn lemma_skip_typed_encoded(v: Value, t: InstanceType, s: Schema, pre: Seq<u8>, rest: Seq<u8>)
    requires
        s.const_value is None,
        s.enum_values is None,
        s.instance_type == Some(SingleOrVec::Single(t)),
        enc_ok(v, s),
        conforms(v, s),
    ensures
        dec_typed(pre + enc_schema(v, s) + rest, pre.len() as int, t, s).1 == pre.len() + enc_schema(v, s).len(),
{
    lemma_typed_roundtrip(v, t, s, false, pre, rest);
}

} // verus!
