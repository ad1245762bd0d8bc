//! Walking encoded values without decoding them: skipping a value, and
//! listing the members of an object and the elements of an array with the
//! schema each one is encoded under.

use vstd::prelude::*;
use crate::types::{InstanceType, Schema, SingleOrVec, contains_type};
use crate::value::ValueView;
use crate::varint::{read_byte, read_bytes, read_uvarint, read_uvarint128,
    read_uvarint_spec};
use crate::format::{format_tag_of, decode_formatted, TAG_PATTERN_COMPRESSED};
use crate::encoder::{find_prop, item_schema_at};
use crate::decoder::count_with_min;
use crate::spec_enc::{
    TAG_ARRAY, TAG_NUMBER, TAG_OBJECT, TAG_OPTIMIZED_NUMBER, TAG_STRING, item_schema,
    lemma_item_schema_decreases, lemma_prop_schema_decreases, prop_schema, required_of,
};
use crate::spec_dec::{
    advance, count_plus, dec_extras, dec_items, dec_key, dec_required, dec_schema,
    dec_string_bytes, dec_typed, dec_untyped, dec_untyped_entries, dec_untyped_items,
    obj_insert,
};

verus! {

/// The value at `pos` under the optional schema `s` (none: the untyped
/// form), and the position after it.
pub open spec fn dec_opt(b: Seq<u8>, pos: int, s: Option<Schema>) -> (ValueView, int) {
    match s {
        Some(ss) => dec_schema(b, pos, ss),
        None => dec_untyped(b, pos),
    }
}

/// The schema a reference points to, kept optional.
pub open spec fn opt_schema(s: Option<&Schema>) -> Option<Schema> {
    match s {
        Some(x) => Some(*x),
        None => None,
    }
}

/// Where the required properties from index `i` on end does not depend on
/// the entries decoded so far.
proof fn lemma_required_end(b: Seq<u8>, pos: int, s: Schema, i: nat, m1: Seq<(Seq<char>, ValueView)>, m2: Seq<(Seq<char>, ValueView)>)
    ensures
        dec_required(b, pos, s, i, m1).1 == dec_required(b, pos, s, i, m2).1,
    decreases required_of(s).len() - i,
{
    if i < required_of(s).len() {
        let k = required_of(s)[i as int]@;
        let (v, p1) = match prop_schema(s, k) {
            Some(ss) => dec_schema(b, pos, ss),
            None => dec_untyped(b, pos),
        };
        lemma_required_end(b, p1, s, i + 1, obj_insert(m1, k, v), obj_insert(m2, k, v));
    }
}

/// Where `n` keyed entries end does not depend on the entries decoded so
/// far.
proof fn lemma_extras_end(b: Seq<u8>, pos: int, s: Schema, n: nat, m1: Seq<(Seq<char>, ValueView)>, m2: Seq<(Seq<char>, ValueView)>)
    ensures
        dec_extras(b, pos, s, n, m1).1 == dec_extras(b, pos, s, n, m2).1,
    decreases n,
{
    if n > 0 {
        let (k, p1) = dec_key(b, pos);
        let (v, p2) = match prop_schema(s, k) {
            Some(ss) => dec_schema(b, p1, ss),
            None => dec_untyped(b, p1),
        };
        lemma_extras_end(b, p2, s, (n - 1) as nat, obj_insert(m1, k, v), obj_insert(m2, k, v));
    }
}

/// Where `n` untyped keyed entries end does not depend on the entries
/// decoded so far.
proof fn lemma_untyped_entries_end(b: Seq<u8>, pos: int, n: nat, m1: Seq<(Seq<char>, ValueView)>, m2: Seq<(Seq<char>, ValueView)>)
    ensures
        dec_untyped_entries(b, pos, n, m1).1 == dec_untyped_entries(b, pos, n, m2).1,
    decreases n,
{
    if n > 0 && 0 <= pos <= b.len() {
        let (k, p1) = dec_key(b, pos);
        let q = advance(b, pos, p1);
        let (v, p2) = dec_untyped(b, q);
        lemma_untyped_entries_end(b, advance(b, q, p2), (n - 1) as nat, obj_insert(m1, k, v), obj_insert(m2, k, v));
    }
}

/// Reads past a key: its length, then its bytes.
fn skip_key(buf: &[u8], pos: &mut usize)
    requires
        *old(pos) <= buf@.len(),
    ensures
        *final(pos) as int == dec_key(buf@, *old(pos) as int).1,
        *old(pos) <= *final(pos) <= buf@.len(),
{
    let len = read_uvarint(buf, pos);
    let _ = read_bytes(buf, pos, len);
}

/// Moves `*pos` past the untyped value there.
pub fn skip_untyped_value(buf: &[u8], pos: &mut usize)
    requires
        *old(pos) <= buf@.len(),
    ensures
        *final(pos) as int == dec_untyped(buf@, *old(pos) as int).1,
        *old(pos) <= *final(pos) <= buf@.len(),
    decreases buf@.len() - *old(pos),
{
    if *pos >= buf.len() {
        return;
    }
    let tag = read_byte(buf, pos);
    if tag == TAG_NUMBER || tag == TAG_STRING {
        let len = read_uvarint(buf, pos);
        let _ = read_bytes(buf, pos, len);
    } else if tag == TAG_ARRAY {
        let len = read_uvarint(buf, pos);
        let ghost p2 = *pos as int;
        let mut i: u64 = 0;
        while i < len
            invariant
                p2 <= *pos <= buf@.len(),
                *old(pos) < p2,
                i <= len,
                dec_untyped_items(buf@, p2, len as nat).1 == dec_untyped_items(buf@, *pos as int, (len - i) as nat).1,
            decreases len - i,
        {
            skip_untyped_value(buf, pos);
            i += 1;
        }
    } else if tag == TAG_OBJECT {
        let len = read_uvarint(buf, pos);
        let ghost p2 = *pos as int;
        let mut i: u64 = 0;
        while i < len
            invariant
                p2 <= *pos <= buf@.len(),
                *old(pos) < p2,
                i <= len,
                dec_untyped_entries(buf@, p2, len as nat, Seq::empty()).1 == dec_untyped_entries(buf@, *pos as int, (len - i) as nat, Seq::empty()).1,
            decreases len - i,
        {
            let ghost before = *pos as int;
            skip_key(buf, pos);
            skip_untyped_value(buf, pos);
            proof {
                let (k, p1) = dec_key(buf@, before);
                let (v, _) = dec_untyped(buf@, p1);
                lemma_untyped_entries_end(buf@, *pos as int, (len - i - 1) as nat, obj_insert(Seq::empty(), k, v), Seq::empty());
            }
            i += 1;
        }
    }
}

/// Moves `*pos` past the string under a string schema there.
fn skip_string(buf: &[u8], pos: &mut usize, schema: &Schema)
    requires
        *old(pos) <= buf@.len(),
    ensures
        *final(pos) as int == dec_string_bytes(buf@, *old(pos) as int, *schema).1,
        *old(pos) <= *final(pos) <= buf@.len(),
{
    if let Some(format) = &schema.format {
        if let Some(expected) = format_tag_of(format.as_str()) {
            let tag = read_byte(buf, pos);
            if tag == expected {
                let _ = decode_formatted(format.as_str(), buf, pos);
                return;
            }
        }
    } else if schema.pattern_prefix.is_some() || schema.pattern_suffix.is_some() {
        let tag = read_byte(buf, pos);
        if tag == TAG_PATTERN_COMPRESSED {
            let len = read_uvarint(buf, pos);
            let _ = read_bytes(buf, pos, len);
            return;
        }
    }
    let len = read_uvarint(buf, pos);
    let n = count_with_min(len, schema.min_length);
    let _ = read_bytes(buf, pos, n);
}

/// Moves `*pos` past the value under the optional schema there.
pub fn skip_value(buf: &[u8], pos: &mut usize, schema: Option<&Schema>)
    requires
        *old(pos) <= buf@.len(),
    ensures
        *final(pos) as int == dec_opt(buf@, *old(pos) as int, opt_schema(schema)).1,
        *old(pos) <= *final(pos) <= buf@.len(),
{
    match schema {
        Some(s) => skip_schema_value(buf, pos, s),
        None => skip_untyped_value(buf, pos),
    }
}

/// Moves `*pos` past the value under `schema` there.
fn skip_schema_value(buf: &[u8], pos: &mut usize, schema: &Schema)
    requires
        *old(pos) <= buf@.len(),
    ensures
        *final(pos) as int == dec_schema(buf@, *old(pos) as int, *schema).1,
        *old(pos) <= *final(pos) <= buf@.len(),
    decreases *schema, 4nat, 0nat,
{
    if schema.const_value.is_some() {
        return;
    }
    if schema.enum_values.is_some() {
        let _ = read_uvarint(buf, pos);
        return;
    }
    match &schema.instance_type {
        Some(SingleOrVec::Single(instance_type)) => {
            skip_typed_value(buf, pos, *instance_type, schema);
        },
        Some(SingleOrVec::Vec(types)) => {
            let start = *pos;
            let tag = read_byte(buf, pos);
            if tag == TAG_NUMBER && (contains_type(types, InstanceType::Integer) || contains_type(
                types,
                InstanceType::Number,
            )) {
                let inner = read_byte(buf, pos);
                if inner == TAG_OPTIMIZED_NUMBER {
                    let _ = read_uvarint128(buf, pos);
                    return;
                }
            }
            *pos = start;
            skip_untyped_value(buf, pos);
        },
        None => skip_untyped_value(buf, pos),
    }
}

/// Moves `*pos` past the value under `schema`, of single type
/// `instance_type`, there.
pub fn skip_typed_value(buf: &[u8], pos: &mut usize, instance_type: InstanceType, schema: &Schema)
    requires
        *old(pos) <= buf@.len(),
    ensures
        *final(pos) as int == dec_typed(buf@, *old(pos) as int, instance_type, *schema).1,
        *old(pos) <= *final(pos) <= buf@.len(),
    decreases *schema, 3nat, 0nat,
{
    match instance_type {
        InstanceType::Null => {},
        InstanceType::Boolean => {
            let _ = read_byte(buf, pos);
        },
        InstanceType::Number | InstanceType::Integer => {
            let start = *pos;
            let tag = read_byte(buf, pos);
            if tag == TAG_OPTIMIZED_NUMBER {
                let _ = read_uvarint128(buf, pos);
            } else {
                *pos = start;
                let len = read_uvarint(buf, pos);
                let _ = read_bytes(buf, pos, len);
            }
        },
        InstanceType::String => skip_string(buf, pos, schema),
        InstanceType::Object => {
            let ghost p0 = *pos as int;
            if let Some(required) = &schema.required {
                let mut i: usize = 0;
                while i < required.len()
                    invariant
                        schema.required == Some(*required),
                        p0 <= *pos <= buf@.len(),
                        i <= required@.len(),
                        dec_required(buf@, p0, *schema, 0, Seq::empty()).1 == dec_required(buf@, *pos as int, *schema, i as nat, Seq::empty()).1,
                    decreases required.len() - i,
                {
                    let key = &required[i];
                    assert(required_of(*schema)[i as int] == *key);
                    proof { lemma_prop_schema_decreases(*schema, key@); }
                    let ghost before = *pos as int;
                    match find_prop(schema, key) {
                        Some(ss) => skip_schema_value(buf, pos, ss),
                        None => skip_untyped_value(buf, pos),
                    }
                    proof {
                        let (v, _) = match prop_schema(*schema, key@) {
                            Some(ss) => dec_schema(buf@, before, ss),
                            None => dec_untyped(buf@, before),
                        };
                        lemma_required_end(buf@, *pos as int, *schema, (i + 1) as nat, obj_insert(Seq::empty(), key@, v), Seq::empty());
                    }
                    i += 1;
                }
            }
            let count = read_uvarint(buf, pos);
            let ghost p2 = *pos as int;
            let mut i: u64 = 0;
            while i < count
                invariant
                    p0 <= p2 <= *pos <= buf@.len(),
                    i <= count,
                    dec_extras(buf@, p2, *schema, count as nat, Seq::empty()).1 == dec_extras(buf@, *pos as int, *schema, (count - i) as nat, Seq::empty()).1,
                decreases count - i,
            {
                let ghost before = *pos as int;
                let klen = read_uvarint(buf, pos);
                let key = crate::decoder::read_string(buf, pos, klen);
                proof { lemma_prop_schema_decreases(*schema, key@); }
                let ghost p1 = *pos as int;
                match find_prop(schema, &key) {
                    Some(ss) => skip_schema_value(buf, pos, ss),
                    None => skip_untyped_value(buf, pos),
                }
                proof {
                    let (v, _) = match prop_schema(*schema, key@) {
                        Some(ss) => dec_schema(buf@, p1, ss),
                        None => dec_untyped(buf@, p1),
                    };
                    lemma_extras_end(buf@, *pos as int, *schema, (count - i - 1) as nat, obj_insert(Seq::empty(), key@, v), Seq::empty());
                }
                i += 1;
            }
            proof {
                let (m, p1) = dec_required(buf@, p0, *schema, 0, Seq::empty());
                let (c, q2) = read_uvarint_spec(buf@, p1);
                lemma_extras_end(buf@, q2, *schema, c as nat, m, Seq::empty());
            }
        },
        InstanceType::Array => {
            let len = read_uvarint(buf, pos);
            let n = count_with_min(len, schema.min_items);
            let ghost p1 = *pos as int;
            let mut i: u64 = 0;
            while i < n
                invariant
                    p1 <= *pos <= buf@.len(),
                    i <= n,
                    dec_items(buf@, p1, *schema, 0, n as nat).1 == dec_items(buf@, *pos as int, *schema, i as nat, n as nat).1,
                decreases n - i,
            {
                proof { lemma_item_schema_decreases(*schema, i as int); }
                match item_schema_at(schema, i) {
                    Some(ss) => skip_schema_value(buf, pos, ss),
                    None => skip_untyped_value(buf, pos),
                }
                i += 1;
            }
        },
    }
}


/// How a value under an optional schema is laid out: in the untyped form,
/// in the typed form of one type, or not at all (a constant or an enum
/// index).
#[derive(Clone, Copy, Debug, PartialEq, Eq, Structural)]
pub enum Form {
    Untyped,
    Typed(InstanceType),
    Fixed,
}

/// The layout of a value under the optional schema `s`.
pub open spec fn form_of(s: Option<Schema>) -> Form {
    match s {
        None => Form::Untyped,
        Some(ss) => if ss.const_value is Some || ss.enum_values is Some {
            Form::Fixed
        } else {
            match ss.instance_type {
                Some(SingleOrVec::Single(t)) => Form::Typed(t),
                _ => Form::Untyped,
            }
        },
    }
}

/// The layout of a value under the optional schema.
pub fn form(schema: Option<&Schema>) -> (f: Form)
    ensures
        f == form_of(opt_schema(schema)),
{
    match schema {
        None => Form::Untyped,
        Some(s) => if s.const_value.is_some() || s.enum_values.is_some() {
            Form::Fixed
        } else {
            match &s.instance_type {
                Some(SingleOrVec::Single(t)) => Form::Typed(*t),
                _ => Form::Untyped,
            }
        },
    }
}

/// A member of an encoded object: its key, where its value starts and
/// ends, and the schema the value is encoded under.
pub struct Member<'a> {
    pub key: String,
    pub start: usize,
    pub end: usize,
    pub schema: Option<&'a Schema>,
}

/// A member as key characters, start and schema.
pub open spec fn member_view(m: Member) -> (Seq<char>, int, Option<Schema>) {
    (m.key@, m.start as int, opt_schema(m.schema))
}

/// The members of a sequence as key characters, start and schema.
pub open spec fn members_view(ms: Seq<Member>) -> Seq<(Seq<char>, int, Option<Schema>)> {
    ms.map_values(|m: Member| member_view(m))
}

/// The required members from index `i` on, starting at `pos`.
pub open spec fn required_members(b: Seq<u8>, pos: int, s: Schema, i: nat) -> Seq<(Seq<char>, int, Option<Schema>)>
    decreases required_of(s).len() - i,
{
    if i >= required_of(s).len() {
        Seq::empty()
    } else {
        let k = required_of(s)[i as int]@;
        let sub = prop_schema(s, k);
        seq![(k, pos, sub)] + required_members(b, dec_opt(b, pos, sub).1, s, i + 1)
    }
}

/// `n` keyed members starting at `pos`, each under its property schema if
/// it has one.
pub open spec fn extra_members(b: Seq<u8>, pos: int, s: Schema, n: nat) -> Seq<(Seq<char>, int, Option<Schema>)>
    decreases n,
{
    if n == 0 {
        Seq::empty()
    } else {
        let (k, p1) = dec_key(b, pos);
        let sub = prop_schema(s, k);
        seq![(k, p1, sub)] + extra_members(b, dec_opt(b, p1, sub).1, s, (n - 1) as nat)
    }
}

/// `n` untyped keyed members starting at `pos`.
pub open spec fn untyped_members_from(b: Seq<u8>, pos: int, n: nat) -> Seq<(Seq<char>, int, Option<Schema>)>
    decreases n,
{
    if n == 0 || !(0 <= pos <= b.len()) {
        Seq::empty()
    } else {
        let (k, p1) = dec_key(b, pos);
        let q = advance(b, pos, p1);
        seq![(k, q, None::<Schema>)] + untyped_members_from(b, advance(b, q, dec_untyped(b, q).1), (n - 1) as nat)
    }
}

/// The members of the object encoded at `pos` under the optional schema
/// `s`, in the order they are encoded; none when it is not an object.
pub open spec fn members(b: Seq<u8>, pos: int, s: Option<Schema>) -> Seq<(Seq<char>, int, Option<Schema>)> {
    match form_of(s) {
        Form::Untyped => if 0 <= pos < b.len() && b[pos] == TAG_OBJECT {
            let (c, p2) = read_uvarint_spec(b, pos + 1);
            untyped_members_from(b, advance(b, pos + 1, p2), c as nat)
        } else {
            Seq::empty()
        },
        Form::Typed(InstanceType::Object) => {
            let ss = s.unwrap();
            let p1 = dec_required(b, pos, ss, 0, Seq::empty()).1;
            let (c, p2) = read_uvarint_spec(b, p1);
            required_members(b, pos, ss, 0) + extra_members(b, p2, ss, c as nat)
        },
        _ => Seq::empty(),
    }
}

/// Every member's end is where its value ends.
pub open spec fn members_end_ok(b: Seq<u8>, ms: Seq<Member>) -> bool {
    forall|j: int| 0 <= j < ms.len() ==> (#[trigger] ms[j]).end as int == dec_opt(b, ms[j].start as int, opt_schema(ms[j].schema)).1
        && ms[j].start <= ms[j].end <= b.len()
}

/// Lists the members of the object encoded at `pos`.
pub fn object_members<'a>(buf: &[u8], pos: usize, schema: Option<&'a Schema>) -> (r: Vec<Member<'a>>)
    requires
        pos <= buf@.len(),
    ensures
        members_view(r@) == members(buf@, pos as int, opt_schema(schema)),
        members_end_ok(buf@, r@),
{
    let mut out: Vec<Member<'a>> = Vec::new();
    let f = form(schema);
    match f {
        Form::Untyped => {
            if pos >= buf.len() || buf[pos] != TAG_OBJECT {
                assert(members_view(out@) =~= Seq::empty());
                return out;
            }
            let mut p = pos + 1;
            let count = read_uvarint(buf, &mut p);
            let ghost p2 = p as int;
            let mut i: u64 = 0;
            while i < count
                invariant
                    pos < p2 <= p <= buf@.len(),
                    i <= count,
                    members(buf@, pos as int, opt_schema(schema)) == members_view(out@) + untyped_members_from(buf@, p as int, (count - i) as nat),
                    members_end_ok(buf@, out@),
                decreases count - i,
            {
                let klen = read_uvarint(buf, &mut p);
                let key = crate::decoder::read_string(buf, &mut p, klen);
                let start = p;
                skip_untyped_value(buf, &mut p);
                let ghost before = members_view(out@);
                let ghost kv = key@;
                out.push(Member { key, start, end: p, schema: None });
                proof {
                    assert(members_view(out@) =~= before.push(member_view(out@[out@.len() - 1])));
                    assert(members_view(out@) + untyped_members_from(buf@, p as int, (count - i - 1) as nat) =~= before + (seq![(kv, start as int, None::<Schema>)] + untyped_members_from(buf@, p as int, (count - i - 1) as nat)));
                }
                i += 1;
            }
            assert(members_view(out@) + Seq::empty() =~= members_view(out@));
            out
        },
        Form::Typed(InstanceType::Object) => {
            let s = schema.unwrap();
            let mut p = pos;
            if let Some(required) = &s.required {
                let mut i: usize = 0;
                while i < required.len()
                    invariant
                        s.required == Some(*required),
                        pos <= p <= buf@.len(),
                        i <= required@.len(),
                        required_members(buf@, pos as int, *s, 0) == members_view(out@) + required_members(buf@, p as int, *s, i as nat),
                        dec_required(buf@, pos as int, *s, 0, Seq::empty()).1 == dec_required(buf@, p as int, *s, i as nat, Seq::empty()).1,
                        members_end_ok(buf@, out@),
                    decreases required.len() - i,
                {
                    let key = &required[i];
                    assert(required_of(*s)[i as int] == *key);
                    let sub = find_prop(s, key);
                    let start = p;
                    skip_value(buf, &mut p, sub);
                    let ghost before = members_view(out@);
                    out.push(Member { key: key.clone(), start, end: p, schema: sub });
                    proof {
                        assert(members_view(out@) =~= before.push(member_view(out@[out@.len() - 1])));
                        assert(before + required_members(buf@, start as int, *s, i as nat) =~= members_view(out@) + required_members(buf@, p as int, *s, (i + 1) as nat));
                        let (v, _) = dec_opt(buf@, start as int, opt_schema(sub));
                        lemma_required_end(buf@, p as int, *s, (i + 1) as nat, obj_insert(Seq::empty(), key@, v), Seq::empty());
                    }
                    i += 1;
                }
                assert(required_members(buf@, p as int, *s, i as nat) =~= Seq::empty());
            } else {
                assert(required_members(buf@, pos as int, *s, 0) =~= Seq::empty());
            }
            assert(members_view(out@) + Seq::empty() =~= members_view(out@));
            let count = read_uvarint(buf, &mut p);
            let ghost p2 = p as int;
            let ghost req = members_view(out@);
            let mut i: u64 = 0;
            while i < count
                invariant
                    pos <= p2 <= p <= buf@.len(),
                    i <= count,
                    req + extra_members(buf@, p2, *s, count as nat) == members_view(out@) + extra_members(buf@, p as int, *s, (count - i) as nat),
                    members_end_ok(buf@, out@),
                decreases count - i,
            {
                let klen = read_uvarint(buf, &mut p);
                let key = crate::decoder::read_string(buf, &mut p, klen);
                let sub = find_prop(s, &key);
                let start = p;
                skip_value(buf, &mut p, sub);
                let ghost before = members_view(out@);
                let ghost kv = key@;
                out.push(Member { key, start, end: p, schema: sub });
                proof {
                    assert(members_view(out@) =~= before.push(member_view(out@[out@.len() - 1])));
                    assert(before.push((kv, start as int, opt_schema(sub))) + extra_members(buf@, p as int, *s, (count - i - 1) as nat) =~= before + (seq![(kv, start as int, opt_schema(sub))] + extra_members(buf@, p as int, *s, (count - i - 1) as nat)));
                }
                i += 1;
            }
            assert(members_view(out@) + Seq::empty() =~= members_view(out@));
            out
        },
        _ => {
            assert(members_view(out@) =~= Seq::empty());
            out
        },
    }
}


/// An element of an encoded array: where it starts and ends, and the schema
/// it is encoded under.
pub struct Element<'a> {
    pub start: usize,
    pub end: usize,
    pub schema: Option<&'a Schema>,
}

/// An element as start and schema.
pub open spec fn element_view(e: Element) -> (int, Option<Schema>) {
    (e.start as int, opt_schema(e.schema))
}

/// The elements of a sequence as start and schema.
pub open spec fn elements_view(es: Seq<Element>) -> Seq<(int, Option<Schema>)> {
    es.map_values(|e: Element| element_view(e))
}

/// The typed elements from index `i` up to `n`, starting at `pos`.
pub open spec fn typed_elements_from(b: Seq<u8>, pos: int, s: Schema, i: nat, n: nat) -> Seq<(int, Option<Schema>)>
    decreases n - i,
{
    if i >= n {
        Seq::empty()
    } else {
        let sub = item_schema(s, i as int);
        seq![(pos, sub)] + typed_elements_from(b, dec_opt(b, pos, sub).1, s, i + 1, n)
    }
}

/// `n` untyped elements starting at `pos`.
pub open spec fn untyped_elements_from(b: Seq<u8>, pos: int, n: nat) -> Seq<(int, Option<Schema>)>
    decreases n,
{
    if n == 0 || !(0 <= pos <= b.len()) {
        Seq::empty()
    } else {
        seq![(pos, None::<Schema>)] + untyped_elements_from(b, advance(b, pos, dec_untyped(b, pos).1), (n - 1) as nat)
    }
}

/// Whether the value encoded at `pos` under the optional schema `s` is an
/// array.
pub open spec fn is_array_at(b: Seq<u8>, pos: int, s: Option<Schema>) -> bool {
    match form_of(s) {
        Form::Untyped => 0 <= pos < b.len() && b[pos] == TAG_ARRAY,
        Form::Typed(InstanceType::Array) => true,
        _ => false,
    }
}

/// The elements of the array encoded at `pos` under the optional schema
/// `s`, in order; none when it is not an array.
pub open spec fn elements(b: Seq<u8>, pos: int, s: Option<Schema>) -> Seq<(int, Option<Schema>)> {
    match form_of(s) {
        Form::Untyped => if 0 <= pos < b.len() && b[pos] == TAG_ARRAY {
            let (c, p2) = read_uvarint_spec(b, pos + 1);
            untyped_elements_from(b, advance(b, pos + 1, p2), c as nat)
        } else {
            Seq::empty()
        },
        Form::Typed(InstanceType::Array) => {
            let ss = s.unwrap();
            let (len, p1) = read_uvarint_spec(b, pos);
            typed_elements_from(b, p1, ss, 0, count_plus(len, ss.min_items))
        },
        _ => Seq::empty(),
    }
}

/// Every element's end is where its value ends.
pub open spec fn elements_end_ok(b: Seq<u8>, es: Seq<Element>) -> bool {
    forall|j: int| 0 <= j < es.len() ==> (#[trigger] es[j]).end as int == dec_opt(b, es[j].start as int, opt_schema(es[j].schema)).1
        && es[j].start <= es[j].end <= b.len()
}

/// Whether the value encoded at `pos` is an array.
pub fn array_at(buf: &[u8], pos: usize, schema: Option<&Schema>) -> (r: bool)
    ensures
        r == is_array_at(buf@, pos as int, opt_schema(schema)),
{
    match form(schema) {
        Form::Untyped => pos < buf.len() && buf[pos] == TAG_ARRAY,
        Form::Typed(InstanceType::Array) => true,
        _ => false,
    }
}

/// Lists the elements of the array encoded at `pos`.
pub fn array_elements<'a>(buf: &[u8], pos: usize, schema: Option<&'a Schema>) -> (r: Vec<Element<'a>>)
    requires
        pos <= buf@.len(),
    ensures
        elements_view(r@) == elements(buf@, pos as int, opt_schema(schema)),
        elements_end_ok(buf@, r@),
{
    let mut out: Vec<Element<'a>> = Vec::new();
    match form(schema) {
        Form::Untyped => {
            if pos >= buf.len() || buf[pos] != TAG_ARRAY {
                assert(elements_view(out@) =~= Seq::empty());
                return out;
            }
            let mut p = pos + 1;
            let count = read_uvarint(buf, &mut p);
            let mut i: u64 = 0;
            while i < count
                invariant
                    pos < p <= buf@.len(),
                    i <= count,
                    elements(buf@, pos as int, opt_schema(schema)) == elements_view(out@) + untyped_elements_from(buf@, p as int, (count - i) as nat),
                    elements_end_ok(buf@, out@),
                decreases count - i,
            {
                let start = p;
                skip_untyped_value(buf, &mut p);
                let ghost before = elements_view(out@);
                out.push(Element { start, end: p, schema: None });
                proof {
                    assert(elements_view(out@) =~= before.push(element_view(out@[out@.len() - 1])));
                    assert(elements_view(out@) + untyped_elements_from(buf@, p as int, (count - i - 1) as nat) =~= before + (seq![(start as int, None::<Schema>)] + untyped_elements_from(buf@, p as int, (count - i - 1) as nat)));
                }
                i += 1;
            }
            assert(elements_view(out@) + Seq::empty() =~= elements_view(out@));
            out
        },
        Form::Typed(InstanceType::Array) => {
            let s = schema.unwrap();
            let mut p = pos;
            let len = read_uvarint(buf, &mut p);
            let n = count_with_min(len, s.min_items);
            let mut i: u64 = 0;
            while i < n
                invariant
                    pos <= p <= buf@.len(),
                    i <= n,
                    elements(buf@, pos as int, opt_schema(schema)) == elements_view(out@) + typed_elements_from(buf@, p as int, *s, i as nat, n as nat),
                    elements_end_ok(buf@, out@),
                decreases n - i,
            {
                let sub = item_schema_at(s, i);
                let start = p;
                skip_value(buf, &mut p, sub);
                let ghost before = elements_view(out@);
                out.push(Element { start, end: p, schema: sub });
                proof {
                    assert(elements_view(out@) =~= before.push(element_view(out@[out@.len() - 1])));
                    assert(elements_view(out@) + typed_elements_from(buf@, p as int, *s, (i + 1) as nat, n as nat) =~= before + (seq![(start as int, opt_schema(sub))] + typed_elements_from(buf@, p as int, *s, (i + 1) as nat, n as nat)));
                }
                i += 1;
            }
            assert(elements_view(out@) + Seq::empty() =~= elements_view(out@));
            out
        },
        _ => {
            assert(elements_view(out@) =~= Seq::empty());
            out
        },
    }
}

} // verus!
