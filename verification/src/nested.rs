//! Selecting a path of field names reads, in place, the value nested under
//! those names: each selected item is the encoding of the field's value.

use vstd::prelude::*;
use crate::value::{Value, ValueView, lemma_entry_views_of};
use crate::types::{InstanceType, Schema, SingleOrVec};
use crate::spec_enc::{
    enc_untyped_entries, enc_untyped, key_bytes, str_bytes, entry_index, entry_value, required_of,
    prop_schema, enc_required, enc_extras, enc_schema, enc_ok, extra_entries,
    is_required, required_ok, TAG_OBJECT, props_of, prop_index,
    lemma_prop_index_bounds,
};
use crate::varint::{uvarint_bytes, lemma_uvarint_roundtrip};
use crate::roundtrip::{value_wf, lemma_enc_entries_front, lemma_key_roundtrip, lemma_untyped_roundtrip};
use crate::traverse::{dec_opt, members, untyped_members_from, required_members, extra_members};
use crate::select_spec::{ItemView, item_values, field_items, field_name, step, step_all, root_item,
    sel_paths};
use crate::jsonpath::{JsonPath, Path};
use crate::selector::selected;
use crate::schema_roundtrip::{conforms_exact, required_conform_in, extras_fit_in, lemma_schema_roundtrip, lemma_required_prefix, lemma_extras_prefix, lemma_extra_entries,
    lemma_entry_index, lemma_required_roundtrip};
use crate::in_place::lemma_sole_entry;

verus! {

/// The bytes of `v` under the optional schema `s`.
pub open spec fn enc_opt(v: Value, s: Option<Schema>) -> Seq<u8> {
    match s {
        Some(ss) => enc_schema(v, ss),
        None => enc_untyped(v),
    }
}

/// `v` reads back from its bytes under `s`: well-formed in the untyped
/// form, or conforming to the schema where its encoding completes.
pub open spec fn fits(v: Value, s: Option<Schema>) -> bool {
    match s {
        Some(ss) => enc_ok(v, ss) && conforms_exact(v, ss),
        None => value_wf(v),
    }
}

/// An item whose bytes are the encoding of `v` under the item's schema.
pub open spec fn item_holds(b: Seq<u8>, it: ItemView, v: Value) -> bool {
    match it {
        ItemView::Enc(p, e, s) => 0 <= p <= e <= b.len() && b.subrange(p, e) == enc_opt(v, s) && fits(v, s),
        _ => false,
    }
}

/// The item of a member: its value's bytes under its schema.
pub open spec fn member_item(b: Seq<u8>, m: (Seq<char>, int, Option<Schema>)) -> ItemView {
    ItemView::Enc(m.1, dec_opt(b, m.1, m.2).1, m.2)
}

/// Members whose keys are those of the entries `ents`, in turn, and whose
/// bytes are the encodings of the entries' values.
pub open spec fn members_encode(b: Seq<u8>, ms: Seq<(Seq<char>, int, Option<Schema>)>, ents: Seq<(String, Value)>) -> bool {
    &&& ms.len() == ents.len()
    &&& forall|j: int|
        0 <= j < ms.len() ==> #[trigger] ms[j].0 == ents[j].0@ && item_holds(b, member_item(b, ms[j]), ents[j].1)
}

/// A schema with no `const` or `enum` in it, at any depth, that requires
/// each name once: its values are laid out in full, so a walk can reach
/// every part.
pub open spec fn schema_open(s: Schema) -> bool
    decreases s,
{
    proof { crate::ordered::lemma_schema_children_decrease(s); }
    &&& s.const_value is None
    &&& s.enum_values is None
    &&& forall|i: int, j: int| 0 <= i < j < required_of(s).len() ==> required_of(s)[i]@ != required_of(s)[j]@
    &&& s.properties matches Some(p) ==> forall|i: int| 0 <= i < p@.len() ==> schema_open(#[trigger] p@[i].1)
    &&& s.prefix_items matches Some(p) ==> forall|i: int| 0 <= i < p@.len() ==> schema_open(#[trigger] p@[i])
    &&& s.items matches Some(x) ==> schema_open(*x)
}

/// The schemas of the properties of an open schema are open.
proof fn lemma_prop_schema_open(s: Schema, k: Seq<char>)
    requires
        schema_open(s),
    ensures
        prop_schema(s, k) matches Some(ss) ==> schema_open(ss),
{
    lemma_prop_index_bounds(props_of(s), k);
    if let Some(j) = prop_index(props_of(s), k) {
        assert(props_of(s)[j].1 == s.properties->Some_0@[j].1);
    }
}

/// An item that holds `v` decodes to it.
pub(crate) proof fn lemma_item_decodes(b: Seq<u8>, it: ItemView, v: Value)
    requires
        item_holds(b, it, v),
    ensures
        it matches ItemView::Enc(p, e, s) && dec_opt(b, p, s) == (v@, e),
{
    let (p, e, s) = match it {
        ItemView::Enc(p, e, s) => (p, e, s),
        _ => (0, 0, None),
    };
    let pre = b.subrange(0, p);
    let rest = b.subrange(e, b.len() as int);
    assert(b =~= pre + enc_opt(v, s) + rest);
    match s {
        Some(ss) => lemma_schema_roundtrip(v, ss, pre, rest),
        None => lemma_untyped_roundtrip(v, pre, rest),
    }
}

/// The untyped members of untyped entries hold the entries' values.
proof fn lemma_untyped_members_encode(s: Seq<(String, Value)>, pre: Seq<u8>, rest: Seq<u8>)
    requires
        forall|i: int|
            0 <= i < s.len() ==> str_bytes(#[trigger] s[i].0).len() <= u64::MAX && value_wf(s[i].1),
    ensures
        members_encode(
            pre + enc_untyped_entries(s) + rest,
            untyped_members_from(pre + enc_untyped_entries(s) + rest, pre.len() as int, s.len()),
            s,
        ),
    decreases s.len(),
{
    let b = pre + enc_untyped_entries(s) + rest;
    let ms = untyped_members_from(b, pre.len() as int, s.len());
    if s.len() > 0 {
        let t = s.subrange(1, s.len() as int);
        lemma_enc_entries_front(s);
        let k = s[0].0;
        let x = s[0].1;
        lemma_key_roundtrip(pre, k, enc_untyped(x) + enc_untyped_entries(t) + rest);
        assert(pre + key_bytes(k) + (enc_untyped(x) + enc_untyped_entries(t) + rest) =~= b);
        let pre2 = pre + key_bytes(k);
        lemma_untyped_roundtrip(x, pre2, enc_untyped_entries(t) + rest);
        assert(pre2 + enc_untyped(x) + (enc_untyped_entries(t) + rest) =~= b);
        let pre3 = pre2 + enc_untyped(x);
        assert(pre3 + enc_untyped_entries(t) + rest =~= b);
        assert(b.subrange(pre2.len() as int, pre3.len() as int) =~= enc_untyped(x));
        assert forall|i: int| 0 <= i < t.len() implies str_bytes(#[trigger] t[i].0).len() <= u64::MAX && value_wf(t[i].1) by {
            assert(t[i] == s[i + 1]);
        }
        lemma_untyped_members_encode(t, pre3, rest);
        let mt = untyped_members_from(b, pre3.len() as int, t.len());
        assert(ms == seq![(k@, pre2.len() as int, None::<Schema>)] + mt);
        assert(item_holds(b, member_item(b, ms[0]), s[0].1));
        assert forall|j: int| 0 <= j < ms.len() implies #[trigger] ms[j].0 == s[j].0@ && item_holds(b, member_item(b, ms[j]), s[j].1) by {
            if j > 0 {
                assert(ms[j] == mt[j - 1]);
                assert(t[j - 1] == s[j]);
                assert(mt[j - 1].0 == t[j - 1].0@);
            }
        }
    }
}

/// The entries the required properties stand for: each required name with
/// the value of `o` under it.
pub open spec fn required_entries(o: Seq<(String, Value)>, s: Schema) -> Seq<(String, Value)> {
    Seq::new(required_of(s).len(), |j: int| (required_of(s)[j], entry_value(o, required_of(s)[j]@)))
}

/// The required members from the `i`-th on hold the values of `o` under the
/// required names.
#[verifier::spinoff_prover]
#[verifier::rlimit(40)]
proof fn lemma_required_members_encode(o: Seq<(String, Value)>, s: Schema, pre: Seq<u8>, rest: Seq<u8>, i: nat)
    requires
        i <= required_of(s).len(),
        required_ok(o, s),
        required_conform_in(o, s, true),
    ensures
        ({
            let n = required_of(s).len();
            let b = pre + enc_required(o, s, n) + rest;
            members_encode(
                b,
                required_members(b, (pre.len() + enc_required(o, s, i).len()) as int, s, i),
                required_entries(o, s).subrange(i as int, n as int),
            )
        }),
    decreases required_of(s).len() - i,
{
    let n = required_of(s).len();
    let en = enc_required(o, s, n);
    let b = pre + en + rest;
    let rv = required_entries(o, s);
    if i < n {
        let k = required_of(s)[i as int]@;
        let x = entry_value(o, k);
        let e_i = enc_required(o, s, i);
        let e_i1 = enc_required(o, s, i + 1);
        lemma_required_prefix(o, s, i + 1, n);
        let sub = prop_schema(s, k);
        let piece = enc_opt(x, sub);
        assert(e_i1 == e_i + piece);
        let pre1 = pre + e_i;
        let rest1 = b.subrange((pre.len() + e_i1.len()) as int, b.len() as int);
        assert(b =~= pre1 + piece + rest1) by {
            assert(en.subrange(0, e_i1.len() as int) == e_i1);
            assert forall|j: int| 0 <= j < b.len() implies b[j] == (pre1 + piece + rest1)[j] by {
                if pre.len() <= j < pre.len() + e_i1.len() {
                    assert(b[j] == en[j - pre.len()]);
                    assert(en[j - pre.len()] == e_i1[j - pre.len()]);
                }
            }
        }
        match sub {
            Some(ss) => {
                lemma_schema_roundtrip(x, ss, pre1, rest1);
            },
            None => {
                lemma_untyped_roundtrip(x, pre1, rest1);
            },
        }
        assert(dec_opt(b, pre1.len() as int, sub) == (x@, (pre.len() + e_i1.len()) as int));
        assert(b.subrange(pre1.len() as int, (pre.len() + e_i1.len()) as int) =~= piece);
        lemma_required_members_encode(o, s, pre, rest, i + 1);
        let ms = required_members(b, pre1.len() as int, s, i);
        let mt = required_members(b, (pre.len() + e_i1.len()) as int, s, i + 1);
        assert(pre1.len() as int == (pre.len() + enc_required(o, s, i).len()) as int);
        assert(ms == seq![(k, pre1.len() as int, sub)] + mt);
        let rs = rv.subrange(i as int, n as int);
        let rt = rv.subrange((i + 1) as int, n as int);
        assert(rs[0] == (required_of(s)[i as int], x));
        assert(ms.len() == rs.len());
        assert(item_holds(b, member_item(b, ms[0]), x));
        assert forall|j: int| 0 <= j < ms.len() implies #[trigger] ms[j].0 == rs[j].0@ && item_holds(b, member_item(b, ms[j]), rs[j].1) by {
            if j > 0 {
                assert(ms[j] == mt[j - 1]);
                assert(rs[j] == rt[j - 1]);
                assert(mt[j - 1].0 == rt[j - 1].0@);
            }
        }
        assert(members_encode(b, ms, rs));
    } else {
        assert(members_encode(b, required_members(b, (pre.len() + enc_required(o, s, i).len()) as int, s, i), rv.subrange(i as int, n as int)));
    }
}

/// The extra members from the `j`-th on hold the extra entries' values.
#[verifier::spinoff_prover]
#[verifier::rlimit(40)]
proof fn lemma_extra_members_encode(x: Seq<(String, Value)>, s: Schema, pre: Seq<u8>, rest: Seq<u8>, j: nat)
    requires
        j <= x.len(),
        extras_fit_in(x, s, true),
    ensures
        ({
            let b = pre + enc_extras(x, s) + rest;
            members_encode(
                b,
                extra_members(b, (pre.len() + enc_extras(x.subrange(0, j as int), s).len()) as int, s, (x.len() - j) as nat),
                x.subrange(j as int, x.len() as int),
            )
        }),
    decreases x.len() - j,
{
    let n = x.len();
    let en = enc_extras(x, s);
    let b = pre + en + rest;
    assert(x.subrange(0, n as int) =~= x);
    if j < n {
        let e_j = enc_extras(x.subrange(0, j as int), s);
        let e_j1 = enc_extras(x.subrange(0, (j + 1) as int), s);
        lemma_extras_prefix(x, s, j + 1, n);
        assert(x.subrange(0, (j + 1) as int).subrange(0, j as int) =~= x.subrange(0, j as int));
        let k = x[j as int].0;
        let val = x[j as int].1;
        assert(x.subrange(0, (j + 1) as int)[j as int] == x[j as int]);
        let sub = prop_schema(s, k@);
        let piece = enc_opt(val, sub);
        assert(e_j1 == e_j + key_bytes(k) + piece);
        let pre1 = pre + e_j;
        let rest1 = b.subrange((pre.len() + e_j1.len()) as int, b.len() as int);
        assert(b =~= pre1 + key_bytes(k) + (piece + rest1)) by {
            assert(en.subrange(0, e_j1.len() as int) == e_j1);
            assert forall|i: int| 0 <= i < b.len() implies b[i] == (pre1 + key_bytes(k) + (piece + rest1))[i] by {
                if pre.len() <= i < pre.len() + e_j1.len() {
                    assert(b[i] == en[i - pre.len()]);
                    assert(en[i - pre.len()] == e_j1[i - pre.len()]);
                }
            }
        }
        assert(str_bytes((x[j as int]).0).len() <= u64::MAX);
        lemma_key_roundtrip(pre1, k, piece + rest1);
        let pre2 = pre1 + key_bytes(k);
        assert(b =~= pre2 + piece + rest1);
        match sub {
            Some(ss) => {
                lemma_schema_roundtrip(val, ss, pre2, rest1);
            },
            None => {
                lemma_untyped_roundtrip(val, pre2, rest1);
            },
        }
        assert(dec_opt(b, pre2.len() as int, sub) == (val@, (pre.len() + e_j1.len()) as int));
        assert(b.subrange(pre2.len() as int, (pre.len() + e_j1.len()) as int) =~= piece);
        lemma_extra_members_encode(x, s, pre, rest, j + 1);
        let ms = extra_members(b, pre1.len() as int, s, (n - j) as nat);
        let mt = extra_members(b, (pre.len() + e_j1.len()) as int, s, (n - (j + 1)) as nat);
        assert(ms == seq![(k@, pre2.len() as int, sub)] + mt);
        let xs = x.subrange(j as int, n as int);
        let xt = x.subrange((j + 1) as int, n as int);
        assert(xs[0] == (k, val));
        assert(ms.len() == xs.len());
        assert(item_holds(b, member_item(b, ms[0]), val));
        assert forall|t: int| 0 <= t < ms.len() implies #[trigger] ms[t].0 == xs[t].0@ && item_holds(b, member_item(b, ms[t]), xs[t].1) by {
            if t > 0 {
                assert(ms[t] == mt[t - 1]);
                assert(xs[t] == xt[t - 1]);
                assert(mt[t - 1].0 == xt[t - 1].0@);
            }
        }
        assert(members_encode(b, ms, xs));
    }
}

/// Members for `e1` followed by members for `e2` hold both in turn.
proof fn lemma_members_encode_concat(
    b: Seq<u8>,
    m1: Seq<(Seq<char>, int, Option<Schema>)>,
    e1: Seq<(String, Value)>,
    m2: Seq<(Seq<char>, int, Option<Schema>)>,
    e2: Seq<(String, Value)>,
)
    requires
        members_encode(b, m1, e1),
        members_encode(b, m2, e2),
    ensures
        members_encode(b, m1 + m2, e1 + e2),
{
    let ms = m1 + m2;
    let es = e1 + e2;
    assert forall|j: int| 0 <= j < ms.len() implies #[trigger] ms[j].0 == es[j].0@ && item_holds(b, member_item(b, ms[j]), es[j].1) by {
        if j < m1.len() {
            assert(ms[j] == m1[j] && es[j] == e1[j]);
            assert(m1[j].0 == e1[j].0@);
        } else {
            let t = j - m1.len();
            assert(ms[j] == m2[t] && es[j] == e2[t]);
            assert(m2[t].0 == e2[t].0@);
        }
    }
}

/// The value of field `n` of `v`: the value of its entry keyed `n`, when
/// it is an object that has one.
pub open spec fn field_value(v: Value, n: Seq<char>) -> Option<Value> {
    match v {
        Value::Object(o) => match entry_index(o@, n) {
            Some(i) => Some(o@[i].1),
            None => None,
        },
        _ => None,
    }
}

/// An item encoded under no schema, or under an open one.
pub open spec fn item_open(it: ItemView) -> bool {
    match it {
        ItemView::Enc(_, _, s) => s matches Some(ss) ==> schema_open(ss),
        _ => false,
    }
}

/// The first member keyed `n` from index `i` on, when every entry keyed
/// `n` there has the value `w`, holds `w`; with no such member, nothing is
/// selected.
proof fn lemma_field_items_encode(
    b: Seq<u8>,
    ms: Seq<(Seq<char>, int, Option<Schema>)>,
    ents: Seq<(String, Value)>,
    n: Seq<char>,
    w: Value,
    i: int,
)
    requires
        0 <= i <= ms.len(),
        members_encode(b, ms, ents),
        forall|j: int| i <= j < ents.len() && (#[trigger] ents[j]).0@ == n ==> ents[j].1 == w,
        forall|j: int| 0 <= j < ms.len() ==> ((#[trigger] ms[j]).2 matches Some(ss) ==> schema_open(ss)),
    ensures
        (exists|j: int| i <= j < ents.len() && (#[trigger] ents[j]).0@ == n) ==> field_items(b, ms, n, i).len() == 1
            && item_holds(b, field_items(b, ms, n, i)[0], w) && item_open(field_items(b, ms, n, i)[0])
            && exists|j: int| i <= j < ms.len() && (#[trigger] ms[j]).0 == n && field_items(b, ms, n, i)[0] == member_item(b, ms[j]),
        !(exists|j: int| i <= j < ents.len() && (#[trigger] ents[j]).0@ == n) ==> field_items(b, ms, n, i).len() == 0,
    decreases ms.len() - i,
{
    if i < ms.len() {
        assert(ms[i].0 == ents[i].0@);
        if ms[i].0 == n {
            assert(field_items(b, ms, n, i)[0] == member_item(b, ms[i]));
            assert(ms[i].2 matches Some(ss) ==> schema_open(ss));
        } else {
            lemma_field_items_encode(b, ms, ents, n, w, i + 1);
            if exists|j: int| i <= j < ents.len() && (#[trigger] ents[j]).0@ == n {
                let j = choose|j: int| i <= j < ents.len() && (#[trigger] ents[j]).0@ == n;
                assert(j != i);
                assert(i + 1 <= j < ents.len() && ents[j].0@ == n);
            }
            if exists|j: int| i + 1 <= j < ents.len() && (#[trigger] ents[j]).0@ == n {
                let j = choose|j: int| i + 1 <= j < ents.len() && (#[trigger] ents[j]).0@ == n;
                assert(i <= j < ents.len() && ents[j].0@ == n);
            }
        }
    }
}

/// The entries that are not required keep the strictly increasing key
/// order of the object's entries.
proof fn lemma_extra_sorted(o: Seq<(String, Value)>, s: Schema)
    requires
        crate::objects::keys_sorted(crate::value::entry_views_of(o)),
    ensures
        forall|i: int, j: int| 0 <= i < j < extra_entries(o, s).len() ==> crate::spec_dec::key_lt(
            #[trigger] extra_entries(o, s)[i].0@, #[trigger] extra_entries(o, s)[j].0@),
    decreases o.len(),
{
    crate::value::lemma_entry_views_of(o);
    if o.len() > 0 {
        let p = o.subrange(0, o.len() - 1);
        crate::value::lemma_entry_views_of(p);
        assert(crate::objects::keys_sorted(crate::value::entry_views_of(p))) by {
            assert forall|i: int, j: int| 0 <= i < j < crate::value::entry_views_of(p).len() implies crate::spec_dec::key_lt(
                #[trigger] crate::value::entry_views_of(p)[i].0, #[trigger] crate::value::entry_views_of(p)[j].0) by {
                assert(crate::value::entry_views_of(o)[i].0 == o[i].0@ && crate::value::entry_views_of(o)[j].0 == o[j].0@);
                assert(p[i] == o[i] && p[j] == o[j]);
            }
        }
        lemma_extra_sorted(p, s);
        lemma_extra_entries(p, s);
        let xp = extra_entries(p, s);
        let x = extra_entries(o, s);
        let last = o[o.len() - 1];
        if !is_required(s, last.0@) {
            assert(x == xp.push(last));
            assert forall|i: int, j: int| 0 <= i < j < x.len() implies crate::spec_dec::key_lt(#[trigger] x[i].0@, #[trigger] x[j].0@) by {
                if j == x.len() - 1 {
                    assert(x[i] == xp[i]);
                    let k = choose|k: int| 0 <= k < p.len() && #[trigger] p[k] == #[trigger] xp[i] && !is_required(s, p[k].0@);
                    assert(p[k] == o[k]);
                    assert(crate::value::entry_views_of(o)[k].0 == o[k].0@);
                    assert(crate::value::entry_views_of(o)[o.len() - 1].0 == last.0@);
                } else {
                    assert(x[i] == xp[i] && x[j] == xp[j]);
                }
            }
        }
    }
}

/// The members of an object that an item holds, under an open object
/// schema, hold the object's entries: the required ones by place, then the
/// others; each entry keyed `n` has the value `o` holds under `n`.
#[verifier::spinoff_prover]
#[verifier::rlimit(60)]
pub(crate) proof fn lemma_typed_members(b: Seq<u8>, pos: int, e: int, ss: Schema, v: Value, n: Seq<char>)
    requires
        item_holds(b, ItemView::Enc(pos, e, Some(ss)), v),
        schema_open(ss),
        ss.instance_type == Some(SingleOrVec::Single(InstanceType::Object)),
        v is Object,
    ensures
        exists|ents: Seq<(String, Value)>| {
            &&& members_encode(b, members(b, pos, Some(ss)), ents)
            &&& (forall|j: int|
                0 <= j < ents.len() && (#[trigger] ents[j]).0@ == n ==> (entry_index(v->Object_0@, n) is Some
                    && ents[j].1 == v->Object_0@[entry_index(v->Object_0@, n).unwrap()].1))
            &&& (entry_index(v->Object_0@, n) is Some ==> exists|j: int| 0 <= j < ents.len() && (#[trigger] ents[j]).0@ == n)
        },
        forall|j: int|
            0 <= j < members(b, pos, Some(ss)).len() ==> ((#[trigger] members(b, pos, Some(ss))[j]).2 matches Some(sub)
                ==> schema_open(sub)),
        forall|i: int, j: int|
            0 <= i < j < members(b, pos, Some(ss)).len() ==> #[trigger] members(b, pos, Some(ss))[i].0
                != #[trigger] members(b, pos, Some(ss))[j].0,
{
    let o = v->Object_0@;
    let enc = enc_opt(v, Some(ss));
    let pre = b.subrange(0, pos);
    let rest = b.subrange(e, b.len() as int);
    assert(b =~= pre + enc + rest);
    let ms = members(b, pos, Some(ss));
    lemma_entry_index(o, n);
    let nreq = required_of(ss).len();
    let x = extra_entries(o, ss);
    let er = enc_required(o, ss, nreq);
    let u = uvarint_bytes(x.len() as u64);
    let ex = enc_extras(x, ss);
    assert(enc == er + u + ex);
    lemma_required_roundtrip(o, ss, true, pre, u + ex + rest, 0, Seq::empty());
    assert(pre + er + (u + ex + rest) =~= b);
    lemma_extra_entries(o, ss);
    lemma_uvarint_roundtrip(pre + er, x.len() as u64, ex + rest);
    assert(pre + er + u + (ex + rest) =~= b);
    let p2 = (pre.len() + er.len() + u.len()) as int;
    lemma_required_members_encode(o, ss, pre, u + ex + rest, 0);
    let re = required_entries(o, ss);
    assert(re.subrange(0, nreq as int) =~= re);
    assert forall|j: int| 0 <= j < x.len() implies str_bytes((#[trigger] x[j]).0).len() <= u64::MAX
        && match prop_schema(ss, x[j].0@) {
            Some(sub) => enc_ok(x[j].1, sub) && conforms_exact(x[j].1, sub),
            None => value_wf(x[j].1),
        } by {
        let i = choose|i: int| 0 <= i < o.len() && #[trigger] o[i] == #[trigger] x[j] && !is_required(ss, o[i].0@);
        assert(str_bytes(o[i].0).len() <= u64::MAX);
        let _ = prop_schema(ss, o[i].0@);
    }
    assert(x.subrange(0, 0) =~= Seq::<(String, Value)>::empty());
    lemma_extra_members_encode(x, ss, pre + er + u, rest, 0);
    assert(pre + er + u + ex + rest =~= b);
    assert(x.subrange(0, x.len() as int) =~= x);
    let m1 = required_members(b, pos, ss, 0);
    let m2 = extra_members(b, p2, ss, x.len() as nat);
    assert(ms == m1 + m2);
    lemma_members_encode_concat(b, m1, re, m2, x);
    let ents = re + x;
    lemma_entry_views_of(o);
    assert forall|j: int| 0 <= j < ents.len() && (#[trigger] ents[j]).0@ == n implies (entry_index(o, n) is Some && ents[j].1 == o[entry_index(o, n).unwrap()].1) by {
        if j < re.len() {
            assert(ents[j] == re[j]);
            let _ = prop_schema(ss, required_of(ss)[j]@);
        } else {
            let jx = j - re.len();
            assert(ents[j] == x[jx]);
            let i = choose|i: int| 0 <= i < o.len() && #[trigger] o[i] == #[trigger] x[jx] && !is_required(ss, o[i].0@);
            lemma_sole_entry(o, n, i);
        }
    }
    if let Some(i) = entry_index(o, n) {
        if is_required(ss, n) {
            let j = choose|j: int| 0 <= j < required_of(ss).len() && #[trigger] required_of(ss)[j]@ == n;
            assert(ents[j] == re[j]);
            assert(ents[j].0@ == n);
        } else {
            assert(o[i].0@ == n);
            assert(x.contains(o[i]));
            let jx = choose|jx: int| 0 <= jx < x.len() && x[jx] == o[i];
            assert(ents[re.len() + jx] == x[jx]);
            assert(ents[re.len() + jx].0@ == n);
        }
    }
    lemma_extra_sorted(o, ss);
    assert forall|i: int, j: int| 0 <= i < j < ms.len() implies #[trigger] ms[i].0 != #[trigger] ms[j].0 by {
        assert(ms[i].0 == ents[i].0@ && ms[j].0 == ents[j].0@);
        if j < re.len() {
            assert(ents[i] == re[i] && ents[j] == re[j]);
        } else if i >= re.len() {
            assert(ents[i] == x[i - re.len()] && ents[j] == x[j - re.len()]);
            crate::objects::lemma_key_order(x[i - re.len()].0@, x[j - re.len()].0@, x[j - re.len()].0@);
        } else {
            assert(ents[i] == re[i] && ents[j] == x[j - re.len()]);
            let jx = j - re.len();
            let k = choose|k: int| 0 <= k < o.len() && #[trigger] o[k] == #[trigger] x[jx] && !is_required(ss, o[k].0@);
            assert(re[i].0 == required_of(ss)[i]);
        }
    }
    assert forall|j: int| 0 <= j < ms.len() implies ((#[trigger] ms[j]).2 matches Some(sub) ==> schema_open(sub)) by {
        lemma_prop_schema_open(ss, ms[j].0);
        if j < m1.len() {
            assert(ms[j] == m1[j]);
            lemma_required_members_schema(b, pos, ss, 0, j);
        } else {
            assert(ms[j] == m2[j - m1.len()]);
            lemma_extra_members_schema(b, p2, ss, x.len() as nat, j - m1.len());
        }
    }
}

/// The members of an object that an item holds in the untyped form hold
/// its entries.
pub(crate) proof fn lemma_untyped_members_at(b: Seq<u8>, pos: int, e: int, s: Option<Schema>, v: Value)
    requires
        item_holds(b, ItemView::Enc(pos, e, s), v),
        crate::traverse::form_of(s) == crate::traverse::Form::Untyped,
        v is Object,
    ensures
        members_encode(b, members(b, pos, s), v->Object_0@),
        forall|j: int| 0 <= j < members(b, pos, s).len() ==> (#[trigger] members(b, pos, s)[j]).2 is None,
{
    let o = v->Object_0@;
    let enc = enc_opt(v, s);
    let pre = b.subrange(0, pos);
    let rest = b.subrange(e, b.len() as int);
    assert(b =~= pre + enc + rest);
    let ms = members(b, pos, s);
    assert(enc == enc_untyped(v));
    let u = uvarint_bytes(o.len() as u64);
    let en = enc_untyped_entries(o);
    let pre2 = pre.push(TAG_OBJECT) + u;
    lemma_uvarint_roundtrip(pre.push(TAG_OBJECT), o.len() as u64, en + rest);
    assert(pre.push(TAG_OBJECT) + u + (en + rest) =~= b);
    assert(pre2 + en + rest =~= b);
    assert(b[pos] == TAG_OBJECT);
    assert(value_wf(v));
    lemma_untyped_members_encode(o, pre2, rest);
    assert(ms == untyped_members_from(b, pre2.len() as int, o.len()));
    assert forall|j: int| 0 <= j < ms.len() implies (#[trigger] ms[j]).2 is None by {
        lemma_untyped_members_schema(b, pre2.len() as int, o.len(), j);
    }
}

/// The schema under which the value of field `n` is encoded inside a value
/// encoded under `s`: its property schema in an object of that type; none in
/// the untyped form.
pub open spec fn field_schema(s: Option<Schema>, n: Seq<char>) -> Option<Schema> {
    match s {
        Some(ss) => if ss.instance_type == Some(SingleOrVec::Single(InstanceType::Object)) {
            prop_schema(ss, n)
        } else {
            None
        },
        None => None,
    }
}

/// The schema under which the value nested under the field names of the
/// segments from index `k` on is encoded.
pub open spec fn nested_schema(s: Option<Schema>, paths: Seq<Path>, k: int) -> Option<Schema>
    decreases paths.len() - k,
{
    if k < 0 || k >= paths.len() {
        s
    } else {
        nested_schema(field_schema(s, field_name(paths[k]).unwrap()), paths, k + 1)
    }
}

/// The schema of an item.
pub open spec fn item_schema_of(it: ItemView) -> Option<Schema> {
    match it {
        ItemView::Enc(_, _, s) => s,
        ItemView::Val(_) => None,
    }
}

/// Stepping to field `n` from an item that holds `v`: one item that holds
/// the field's value, under the field's schema, or none when `v` has no
/// such field.
pub(crate) proof fn lemma_field_step(b: Seq<u8>, it: ItemView, v: Value, p: Path)
    requires
        item_holds(b, it, v),
        item_open(it),
        field_name(p) is Some,
    ensures
        step(b, it, p) matches Some(items) && match field_value(v, field_name(p).unwrap()) {
            Some(w) => items.len() == 1 && item_holds(b, items[0], w) && item_open(items[0])
                && item_schema_of(items[0]) == field_schema(item_schema_of(it), field_name(p).unwrap()),
            None => items.len() == 0,
        },
{
    let n = field_name(p).unwrap();
    let (pos, e, s) = match it {
        ItemView::Enc(p0, e0, s0) => (p0, e0, s0),
        _ => (0, 0, None),
    };
    let enc = enc_opt(v, s);
    let ms = members(b, pos, s);
    let typed_object = s matches Some(ss) && ss.instance_type == Some(SingleOrVec::Single(InstanceType::Object));
    if v is Object {
        let o = v->Object_0@;
        lemma_entry_index(o, n);
        let w = match entry_index(o, n) {
            Some(i) => o[i].1,
            None => Value::Null,
        };
        if typed_object {
            let ss = s.unwrap();
            lemma_typed_members(b, pos, e, ss, v, n);
            let ents = choose|ents: Seq<(String, Value)>| {
                &&& members_encode(b, ms, ents)
                &&& (forall|j: int| 0 <= j < ents.len() && (#[trigger] ents[j]).0@ == n ==> (entry_index(o, n) is Some && ents[j].1 == o[entry_index(o, n).unwrap()].1))
                &&& (entry_index(o, n) is Some ==> exists|j: int| 0 <= j < ents.len() && (#[trigger] ents[j]).0@ == n)
            };
            lemma_field_items_encode(b, ms, ents, n, w, 0);
            if entry_index(o, n) is Some {
                let j = choose|j: int| 0 <= j < ms.len() && (#[trigger] ms[j]).0 == n && field_items(b, ms, n, 0)[0] == member_item(b, ms[j]);
                let p1 = crate::spec_dec::dec_required(b, pos, ss, 0, Seq::empty()).1;
                let (c, p2) = crate::varint::read_uvarint_spec(b, p1);
                let rm = required_members(b, pos, ss, 0);
                assert(ms == rm + extra_members(b, p2, ss, c as nat));
                if j < rm.len() {
                    assert(ms[j] == rm[j]);
                    lemma_required_members_schema(b, pos, ss, 0, j);
                } else {
                    assert(ms[j] == extra_members(b, p2, ss, c as nat)[j - rm.len()]);
                    lemma_extra_members_schema(b, p2, ss, c as nat, j - rm.len());
                }
            }
        } else {
            lemma_untyped_members_at(b, pos, e, s, v);
            lemma_entry_views_of(o);
            assert forall|j: int| 0 <= j < o.len() && (#[trigger] o[j]).0@ == n implies o[j].1 == w by {
                lemma_sole_entry(o, n, j);
            }
            lemma_field_items_encode(b, ms, o, n, w, 0);
            if entry_index(o, n) is Some {
                let j = choose|j: int| 0 <= j < ms.len() && (#[trigger] ms[j]).0 == n && field_items(b, ms, n, 0)[0] == member_item(b, ms[j]);
                assert(ms[j].2 is None);
            }
            if let Some(i) = entry_index(o, n) {
                assert(o[i].0@ == n);
            }
        }
    } else {
        let pre = b.subrange(0, pos);
        let rest = b.subrange(e, b.len() as int);
        assert(b =~= pre + enc + rest);
        if typed_object {
            assert(false);
        }
        if crate::traverse::form_of(s) == crate::traverse::Form::Untyped && 0 <= pos < b.len() {
            assert(b[pos] == enc[0]);
        }
        assert(ms.len() == 0);
    }
}

/// Each required member is under the schema of its property.
pub(crate) proof fn lemma_required_members_schema(b: Seq<u8>, pos: int, s: Schema, i: nat, j: int)
    requires
        0 <= j < required_members(b, pos, s, i).len(),
    ensures
        required_members(b, pos, s, i)[j].2 == prop_schema(s, required_members(b, pos, s, i)[j].0),
    decreases required_of(s).len() - i,
{
    if i < required_of(s).len() && j > 0 {
        let k = required_of(s)[i as int]@;
        let sub = prop_schema(s, k);
        lemma_required_members_schema(b, dec_opt(b, pos, sub).1, s, i + 1, j - 1);
    }
}

/// Each extra member is under the schema of its property.
pub(crate) proof fn lemma_extra_members_schema(b: Seq<u8>, pos: int, s: Schema, n: nat, j: int)
    requires
        0 <= j < extra_members(b, pos, s, n).len(),
    ensures
        extra_members(b, pos, s, n)[j].2 == prop_schema(s, extra_members(b, pos, s, n)[j].0),
    decreases n,
{
    if n > 0 && j > 0 {
        let (k, p1) = crate::spec_dec::dec_key(b, pos);
        let sub = prop_schema(s, k);
        lemma_extra_members_schema(b, dec_opt(b, p1, sub).1, s, (n - 1) as nat, j - 1);
    }
}

/// Untyped members are under no schema.
proof fn lemma_untyped_members_schema(b: Seq<u8>, pos: int, n: nat, j: int)
    requires
        0 <= j < untyped_members_from(b, pos, n).len(),
    ensures
        untyped_members_from(b, pos, n)[j].2 is None,
    decreases n,
{
    if n > 0 && 0 <= pos <= b.len() && j > 0 {
        let (k, p1) = crate::spec_dec::dec_key(b, pos);
        let q = crate::spec_dec::advance(b, pos, p1);
        lemma_untyped_members_schema(b, crate::spec_dec::advance(b, q, crate::spec_dec::dec_untyped(b, q).1), (n - 1) as nat, j - 1);
    }
}

/// The value nested in `v` under the field names of the segments from
/// index `k` on, one after another; none when one of them is missing.
pub open spec fn nested_at(v: Value, paths: Seq<Path>, k: int) -> Option<Value>
    decreases paths.len() - k,
{
    if k < 0 || k >= paths.len() {
        Some(v)
    } else {
        match field_value(v, field_name(paths[k]).unwrap()) {
            Some(w) => nested_at(w, paths, k + 1),
            None => None,
        }
    }
}

/// Whether the segments from index `k` on all name fields.
pub open spec fn all_fields(paths: Seq<Path>, k: int) -> bool {
    forall|j: int| k <= j < paths.len() ==> (#[trigger] field_name(paths[j])) is Some
}

/// Field segments keep no items from none.
proof fn lemma_walk_none(b: Seq<u8>, root: ItemView, paths: Seq<Path>, k: int, top: bool)
    requires
        0 <= k <= paths.len(),
        all_fields(paths, k),
    ensures
        sel_paths(b, root, Seq::empty(), paths, k, top) == Some(Seq::<ItemView>::empty()),
    decreases paths.len() - k,
{
    if k < paths.len() {
        assert(field_name(paths[k]) is Some);
        lemma_walk_none(b, root, paths, k + 1, top);
    }
}

/// Walking field segments from an item that holds `v` reaches one item
/// that holds the nested value, under the nested schema, or none when a
/// field is missing.
pub(crate) proof fn lemma_walk(b: Seq<u8>, root: ItemView, it: ItemView, v: Value, paths: Seq<Path>, k: int, top: bool)
    requires
        0 <= k <= paths.len(),
        all_fields(paths, k),
        item_holds(b, it, v),
        item_open(it),
    ensures
        sel_paths(b, root, seq![it], paths, k, top) matches Some(items) && match nested_at(v, paths, k) {
            Some(w) => items.len() == 1 && item_holds(b, items[0], w) && item_open(items[0])
                && item_schema_of(items[0]) == nested_schema(item_schema_of(it), paths, k),
            None => items.len() == 0,
        },
    decreases paths.len() - k,
{
    if k < paths.len() {
        let p = paths[k];
        assert(field_name(p) is Some);
        lemma_field_step(b, it, v, p);
        let items = step(b, it, p).unwrap();
        assert(step_all(b, seq![it], p, 1) == Some(Seq::<ItemView>::empty()));
        assert(step_all(b, seq![it], p, 0) == Some(items + Seq::<ItemView>::empty()));
        assert(items + Seq::<ItemView>::empty() =~= items);
        match field_value(v, field_name(p).unwrap()) {
            Some(w) => {
                assert(items =~= seq![items[0]]);
                lemma_walk(b, root, items[0], w, paths, k + 1, top);
            },
            None => {
                assert(items =~= Seq::<ItemView>::empty());
                lemma_walk_none(b, root, paths, k + 1, top);
            },
        }
    }
}

/// A path of field names — `$.a.b`, `$:a`, `$["a"]` and the like — selects,
/// reading the encoding in place, exactly the value nested under those
/// names, or nothing when one is missing: for any well-formed value in the
/// untyped form, and for a value that conforms to a schema with no `const`
/// or `enum` in it, where the encoding completes.
pub proof fn lemma_select_nested(v: Value, s: Option<Schema>, jp: JsonPath)
    requires
        jp.paths@.len() >= 1,
        jp.paths@[0] is Root,
        all_fields(jp.paths@, 1),
        fits(v, s),
        s matches Some(ss) ==> schema_open(ss),
    ensures
        selected(enc_opt(v, s), s, jp) == Some(
            match nested_at(v, jp.paths@, 1) {
                Some(w) => seq![w@],
                None => Seq::<ValueView>::empty(),
            },
        ),
{
    let b = enc_opt(v, s);
    let paths = jp.paths@;
    let root = root_item(b, s);
    assert(b.subrange(0, b.len() as int) =~= b);
    assert(item_holds(b, root, v));
    lemma_walk(b, root, root, v, paths, 1, true);
    assert(sel_paths(b, root, seq![root], paths, 0, true) == sel_paths(b, root, seq![root], paths, 1, true));
    let items = sel_paths(b, root, seq![root], paths, 1, true).unwrap();
    match nested_at(v, paths, 1) {
        Some(w) => {
            lemma_item_decodes(b, items[0], w);
            assert(item_values(b, items) =~= seq![w@]);
        },
        None => {
            assert(item_values(b, items) =~= Seq::<ValueView>::empty());
        },
    }
}

/// A path of field names selects the same values from a value encoded
/// under a schema it conforms to (one with no `const` or `enum` in it) as
/// from the same value without a schema.
pub proof fn lemma_select_fields_agree(v: Value, s: Schema, jp: JsonPath)
    requires
        jp.paths@.len() >= 1,
        jp.paths@[0] is Root,
        all_fields(jp.paths@, 1),
        enc_ok(v, s),
        conforms_exact(v, s),
        schema_open(s),
        value_wf(v),
    ensures
        selected(enc_schema(v, s), Some(s), jp) == selected(enc_untyped(v), None, jp),
{
    lemma_select_nested(v, Some(s), jp);
    lemma_select_nested(v, None, jp);
}

} // verus!
