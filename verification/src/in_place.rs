//! Selecting reads values in place, in the encoding: a field, or the
//! elements of an array, come out as the encoded value holds them.

use vstd::prelude::*;
use crate::value::{Value, ValueView, entry_views_of, lemma_entry_views_of, views_of, lemma_views_of};
use crate::types::{InstanceType, Schema, SingleOrVec};
use crate::spec_enc::{
    enc_untyped_entries, enc_untyped, key_bytes, str_bytes, entry_index, entry_value, required_of,
    prop_schema, enc_required, enc_extras, enc_schema, enc_ok, enc_typed, extra_entries,
    is_required, required_ok, TAG_OBJECT, typed_ok, enc_untyped_seq, enc_items, item_schema,
    items_ok, adjusted_len, TAG_ARRAY,
};
use crate::spec_dec::{count_plus, dec_required};
use crate::varint::{uvarint_bytes, read_uvarint_spec, lemma_uvarint_roundtrip};
use crate::roundtrip::{value_wf, lemma_enc_entries_front, lemma_enc_seq_front, lemma_key_roundtrip,
    lemma_untyped_roundtrip};
use crate::traverse::{dec_opt, members, untyped_members_from, required_members, extra_members, elements,
    untyped_elements_from, typed_elements_from, is_array_at};
use crate::select_spec::{ItemView, item_values, item_value, field_items, field_name, step, step_all,
    root_item, sel_paths, element_items, select_listed};
use crate::jsonpath::{ArrayIndex, Index, JsonPath, Path, convert_index, index_positions};
use crate::selector::selected;
use crate::descent::{subvalues, lemma_descend_untyped};
use crate::select_spec::descend;
use crate::schema_roundtrip::{conforms_exact, typed_conforms_in, required_conform_in, required_views,
    extras_fit_in, items_conform_in, lemma_items_prefix, lemma_schema_roundtrip, lemma_required_prefix, lemma_extras_prefix, lemma_extra_entries,
    lemma_entry_index, lemma_required_roundtrip};

verus! {

/// Members that stand for the entries `e`: each member's key, and the value
/// that decoding its bytes gives, are those of the entry at its place.
pub open spec fn members_hold(b: Seq<u8>, ms: Seq<(Seq<char>, int, Option<Schema>)>, e: Seq<(Seq<char>, ValueView)>) -> bool {
    &&& ms.len() == e.len()
    &&& forall|j: int| 0 <= j < ms.len() ==> #[trigger] ms[j].0 == e[j].0 && dec_opt(b, ms[j].1, ms[j].2).0 == e[j].1
}

/// The first member keyed `n` from index `i` on, when every entry keyed `n`
/// there has the value `w`, decodes to `w`; with no such member, nothing is
/// selected.
proof fn lemma_field_items(
    b: Seq<u8>,
    ms: Seq<(Seq<char>, int, Option<Schema>)>,
    e: Seq<(Seq<char>, ValueView)>,
    n: Seq<char>,
    w: ValueView,
    i: int,
)
    requires
        0 <= i <= ms.len(),
        members_hold(b, ms, e),
        forall|j: int| i <= j < e.len() && (#[trigger] e[j]).0 == n ==> e[j].1 == w,
    ensures
        item_values(b, field_items(b, ms, n, i)) == if exists|j: int| i <= j < e.len() && (#[trigger] e[j]).0 == n {
            seq![w]
        } else {
            Seq::<ValueView>::empty()
        },
    decreases ms.len() - i,
{
    if i < ms.len() {
        assert(ms[i].0 == e[i].0);
        if ms[i].0 == n {
            let r = field_items(b, ms, n, i);
            assert(item_values(b, r) =~= seq![item_value(b, r[0])]);
            assert(e[i].0 == n);
        } else {
            lemma_field_items(b, ms, e, n, w, i + 1);
            if exists|j: int| i <= j < e.len() && (#[trigger] e[j]).0 == n {
                let j = choose|j: int| i <= j < e.len() && (#[trigger] e[j]).0 == n;
                assert(j != i);
                assert(i + 1 <= j < e.len() && e[j].0 == n);
            }
        }
    } else {
        assert(item_values(b, Seq::<ItemView>::empty()) =~= Seq::<ValueView>::empty());
    }
}

/// The untyped members of untyped entries stand for the entries.
proof fn lemma_untyped_members(s: Seq<(String, Value)>, pre: Seq<u8>, rest: Seq<u8>)
    requires
        forall|i: int|
            0 <= i < s.len() ==> str_bytes(#[trigger] s[i].0).len() <= u64::MAX && value_wf(s[i].1),
    ensures
        members_hold(
            pre + enc_untyped_entries(s) + rest,
            untyped_members_from(pre + enc_untyped_entries(s) + rest, pre.len() as int, s.len()),
            entry_views_of(s),
        ),
    decreases s.len(),
{
    lemma_entry_views_of(s);
    let b = pre + enc_untyped_entries(s) + rest;
    let ms = untyped_members_from(b, pre.len() as int, s.len());
    if s.len() > 0 {
        let t = s.subrange(1, s.len() as int);
        lemma_enc_entries_front(s);
        let k = s[0].0;
        let x = s[0].1;
        lemma_key_roundtrip(pre, k, enc_untyped(x) + enc_untyped_entries(t) + rest);
        assert(pre + key_bytes(k) + (enc_untyped(x) + enc_untyped_entries(t) + rest) =~= b);
        let pre2 = pre + key_bytes(k);
        lemma_untyped_roundtrip(x, pre2, enc_untyped_entries(t) + rest);
        assert(pre2 + enc_untyped(x) + (enc_untyped_entries(t) + rest) =~= b);
        let pre3 = pre2 + enc_untyped(x);
        assert(pre3 + enc_untyped_entries(t) + rest =~= b);
        assert forall|i: int| 0 <= i < t.len() implies str_bytes(#[trigger] t[i].0).len() <= u64::MAX && value_wf(t[i].1) by {
            assert(t[i] == s[i + 1]);
        }
        lemma_untyped_members(t, pre3, rest);
        lemma_entry_views_of(t);
        let mt = untyped_members_from(b, pre3.len() as int, t.len());
        assert(ms == seq![(k@, pre2.len() as int, None::<Schema>)] + mt);
        assert forall|j: int| 0 <= j < ms.len() implies #[trigger] ms[j].0 == entry_views_of(s)[j].0 && dec_opt(b, ms[j].1, ms[j].2).0 == entry_views_of(s)[j].1 by {
            if j > 0 {
                assert(ms[j] == mt[j - 1]);
                assert(t[j - 1] == s[j]);
            }
        }
    }
}

/// The required members from the `i`-th on stand for the required
/// properties with the values `o` holds under them.
#[verifier::spinoff_prover]
#[verifier::rlimit(40)]
proof fn lemma_required_members(o: Seq<(String, Value)>, s: Schema, pre: Seq<u8>, rest: Seq<u8>, i: nat)
    requires
        i <= required_of(s).len(),
        required_ok(o, s),
        required_conform_in(o, s, true),
    ensures
        ({
            let n = required_of(s).len();
            let b = pre + enc_required(o, s, n) + rest;
            members_hold(
                b,
                required_members(b, (pre.len() + enc_required(o, s, i).len()) as int, s, i),
                required_views(o, s).subrange(i as int, n as int),
            )
        }),
    decreases required_of(s).len() - i,
{
    let n = required_of(s).len();
    let en = enc_required(o, s, n);
    let b = pre + en + rest;
    let rv = required_views(o, s);
    if i < n {
        let k = required_of(s)[i as int]@;
        let x = entry_value(o, k);
        let e_i = enc_required(o, s, i);
        let e_i1 = enc_required(o, s, i + 1);
        lemma_required_prefix(o, s, i + 1, n);
        let sub = prop_schema(s, k);
        let piece = match sub {
            Some(ss) => enc_schema(x, ss),
            None => enc_untyped(x),
        };
        assert(e_i1 == e_i + piece);
        let pre1 = pre + e_i;
        let rest1 = b.subrange((pre.len() + e_i1.len()) as int, b.len() as int);
        assert(b =~= pre1 + piece + rest1) by {
            assert(en.subrange(0, e_i1.len() as int) == e_i1);
            assert forall|j: int| 0 <= j < b.len() implies b[j] == (pre1 + piece + rest1)[j] by {
                if pre.len() <= j < pre.len() + e_i1.len() {
                    assert(b[j] == en[j - pre.len()]);
                    assert(en[j - pre.len()] == e_i1[j - pre.len()]);
                }
            }
        }
        match sub {
            Some(ss) => {
                lemma_schema_roundtrip(x, ss, pre1, rest1);
            },
            None => {
                lemma_untyped_roundtrip(x, pre1, rest1);
            },
        }
        assert(dec_opt(b, pre1.len() as int, sub) == (x@, (pre.len() + e_i1.len()) as int));
        lemma_required_members(o, s, pre, rest, i + 1);
        let ms = required_members(b, pre1.len() as int, s, i);
        let mt = required_members(b, (pre.len() + e_i1.len()) as int, s, i + 1);
        assert(pre1.len() as int == (pre.len() + enc_required(o, s, i).len()) as int);
        assert(ms == seq![(k, pre1.len() as int, sub)] + mt);
        let rs = rv.subrange(i as int, n as int);
        let rt = rv.subrange((i + 1) as int, n as int);
        assert(rs[0] == (k, x@));
        assert(ms.len() == rs.len());
        assert forall|j: int| 0 <= j < ms.len() implies #[trigger] ms[j].0 == rs[j].0 && dec_opt(b, ms[j].1, ms[j].2).0 == rs[j].1 by {
            if j > 0 {
                assert(ms[j] == mt[j - 1]);
                assert(rs[j] == rt[j - 1]);
            }
        }
        assert(members_hold(b, ms, rs));
    } else {
        assert(members_hold(b, required_members(b, (pre.len() + enc_required(o, s, i).len()) as int, s, i), rv.subrange(i as int, n as int)));
    }
}

/// The extra members from the `j`-th on stand for the extra entries.
#[verifier::spinoff_prover]
#[verifier::rlimit(40)]
proof fn lemma_extra_members(x: Seq<(String, Value)>, s: Schema, pre: Seq<u8>, rest: Seq<u8>, j: nat)
    requires
        j <= x.len(),
        extras_fit_in(x, s, true),
    ensures
        ({
            let b = pre + enc_extras(x, s) + rest;
            members_hold(
                b,
                extra_members(b, (pre.len() + enc_extras(x.subrange(0, j as int), s).len()) as int, s, (x.len() - j) as nat),
                entry_views_of(x).subrange(j as int, x.len() as int),
            )
        }),
    decreases x.len() - j,
{
    let n = x.len();
    let en = enc_extras(x, s);
    let b = pre + en + rest;
    let xv = entry_views_of(x);
    lemma_entry_views_of(x);
    assert(x.subrange(0, n as int) =~= x);
    if j < n {
        let e_j = enc_extras(x.subrange(0, j as int), s);
        let e_j1 = enc_extras(x.subrange(0, (j + 1) as int), s);
        lemma_extras_prefix(x, s, j + 1, n);
        assert(x.subrange(0, (j + 1) as int).subrange(0, j as int) =~= x.subrange(0, j as int));
        let k = x[j as int].0;
        let val = x[j as int].1;
        assert(x.subrange(0, (j + 1) as int)[j as int] == x[j as int]);
        let sub = prop_schema(s, k@);
        let piece = match sub {
            Some(ss) => enc_schema(val, ss),
            None => enc_untyped(val),
        };
        assert(e_j1 == e_j + key_bytes(k) + piece);
        let pre1 = pre + e_j;
        let rest1 = b.subrange((pre.len() + e_j1.len()) as int, b.len() as int);
        assert(b =~= pre1 + key_bytes(k) + (piece + rest1)) by {
            assert(en.subrange(0, e_j1.len() as int) == e_j1);
            assert forall|i: int| 0 <= i < b.len() implies b[i] == (pre1 + key_bytes(k) + (piece + rest1))[i] by {
                if pre.len() <= i < pre.len() + e_j1.len() {
                    assert(b[i] == en[i - pre.len()]);
                    assert(en[i - pre.len()] == e_j1[i - pre.len()]);
                }
            }
        }
        assert(str_bytes((x[j as int]).0).len() <= u64::MAX);
        lemma_key_roundtrip(pre1, k, piece + rest1);
        let pre2 = pre1 + key_bytes(k);
        assert(b =~= pre2 + piece + rest1);
        match sub {
            Some(ss) => {
                lemma_schema_roundtrip(val, ss, pre2, rest1);
            },
            None => {
                lemma_untyped_roundtrip(val, pre2, rest1);
            },
        }
        assert(dec_opt(b, pre2.len() as int, sub) == (val@, (pre.len() + e_j1.len()) as int));
        lemma_extra_members(x, s, pre, rest, j + 1);
        let ms = extra_members(b, pre1.len() as int, s, (n - j) as nat);
        let mt = extra_members(b, (pre.len() + e_j1.len()) as int, s, (n - (j + 1)) as nat);
        assert(ms == seq![(k@, pre2.len() as int, sub)] + mt);
        let xs = xv.subrange(j as int, n as int);
        let xt = xv.subrange((j + 1) as int, n as int);
        assert(xs[0] == (k@, val@));
        assert(ms.len() == xs.len());
        assert forall|t: int| 0 <= t < ms.len() implies #[trigger] ms[t].0 == xs[t].0 && dec_opt(b, ms[t].1, ms[t].2).0 == xs[t].1 by {
            if t > 0 {
                assert(ms[t] == mt[t - 1]);
                assert(xs[t] == xt[t - 1]);
            }
        }
    }
}

/// Members that stand for `e1` followed by members that stand for `e2`
/// stand for both in turn.
proof fn lemma_members_hold_concat(
    b: Seq<u8>,
    m1: Seq<(Seq<char>, int, Option<Schema>)>,
    e1: Seq<(Seq<char>, ValueView)>,
    m2: Seq<(Seq<char>, int, Option<Schema>)>,
    e2: Seq<(Seq<char>, ValueView)>,
)
    requires
        members_hold(b, m1, e1),
        members_hold(b, m2, e2),
    ensures
        members_hold(b, m1 + m2, e1 + e2),
{
    let ms = m1 + m2;
    let es = e1 + e2;
    assert forall|j: int| 0 <= j < ms.len() implies #[trigger] ms[j].0 == es[j].0 && dec_opt(b, ms[j].1, ms[j].2).0 == es[j].1 by {
        if j < m1.len() {
            assert(ms[j] == m1[j] && es[j] == e1[j]);
            assert(m1[j].0 == e1[j].0);
        } else {
            let t = j - m1.len();
            assert(ms[j] == m2[t] && es[j] == e2[t]);
            assert(m2[t].0 == e2[t].0);
        }
    }
}

/// The values a field name selects from a value: the value of its entry
/// with that key, if it is an object that has one.
pub open spec fn field_of(v: Value, n: Seq<char>) -> Seq<ValueView> {
    match v {
        Value::Object(o) => match entry_index(o@, n) {
            Some(i) => seq![o@[i].1@],
            None => Seq::empty(),
        },
        _ => Seq::empty(),
    }
}

/// In entries with strictly increasing keys, the found entry of a key is
/// the only one with that key.
pub(crate) proof fn lemma_sole_entry(o: Seq<(String, Value)>, n: Seq<char>, j: int)
    requires
        crate::objects::keys_sorted(entry_views_of(o)),
        0 <= j < o.len(),
        o[j].0@ == n,
    ensures
        entry_index(o, n) == Some(j),
{
    lemma_entry_index(o, n);
    lemma_entry_views_of(o);
    let i = entry_index(o, n).unwrap();
    crate::objects::lemma_key_order(o[i].0@, o[j].0@, o[j].0@);
    if i < j {
        assert(crate::spec_dec::key_lt(entry_views_of(o)[i].0, entry_views_of(o)[j].0));
    } else if j < i {
        assert(crate::spec_dec::key_lt(entry_views_of(o)[j].0, entry_views_of(o)[i].0));
    }
}

/// Selecting field `n` from an object in the untyped form picks its entry.
proof fn lemma_untyped_object_field(v: Value, n: Seq<char>)
    requires
        value_wf(v),
        v is Object,
    ensures
        item_values(enc_untyped(v), field_items(enc_untyped(v), members(enc_untyped(v), 0, None), n, 0))
            == field_of(v, n),
{
    let o = v->Object_0@;
    let b = enc_untyped(v);
    let u = uvarint_bytes(o.len() as u64);
    let en = enc_untyped_entries(o);
    let pre = seq![TAG_OBJECT] + u;
    lemma_uvarint_roundtrip(seq![TAG_OBJECT], o.len() as u64, en);
    assert(seq![TAG_OBJECT] + u + en =~= b);
    assert(pre + en + Seq::<u8>::empty() =~= b);
    lemma_untyped_members(o, pre, Seq::empty());
    let ms = members(b, 0, None);
    assert(ms == untyped_members_from(b, pre.len() as int, o.len()));
    let e = entry_views_of(o);
    lemma_entry_views_of(o);
    lemma_entry_index(o, n);
    let w = match entry_index(o, n) {
        Some(i) => o[i].1@,
        None => ValueView::Null,
    };
    assert forall|j: int| 0 <= j < e.len() && (#[trigger] e[j]).0 == n implies e[j].1 == w by {
        lemma_sole_entry(o, n, j);
    }
    lemma_field_items(b, ms, e, n, w, 0);
    if let Some(i) = entry_index(o, n) {
        assert(e[i].0 == n);
    }
}

/// Selecting field `n` from an object in the typed form picks its entry:
/// a required property by its place, another by its key.
proof fn lemma_typed_object_field(v: Value, s: Schema, n: Seq<char>)
    requires
        v is Object,
        typed_ok(v, InstanceType::Object, s),
        typed_conforms_in(v, InstanceType::Object, s, true),
    ensures
        ({
            let b = enc_typed(v, InstanceType::Object, s);
            let ms = required_members(b, 0, s, 0) + extra_members(
                b,
                read_uvarint_spec(b, dec_required(b, 0, s, 0, Seq::empty()).1).1,
                s,
                read_uvarint_spec(b, dec_required(b, 0, s, 0, Seq::empty()).1).0 as nat,
            );
            item_values(b, field_items(b, ms, n, 0)) == field_of(v, n)
        }),
{
    let o = v->Object_0@;
    let nreq = required_of(s).len();
    let x = extra_entries(o, s);
    let er = enc_required(o, s, nreq);
    let u = uvarint_bytes(x.len() as u64);
    let ex = enc_extras(x, s);
    let b = enc_typed(v, InstanceType::Object, s);
    assert(b == er + u + ex);
    let e0 = Seq::<u8>::empty();
    lemma_required_roundtrip(o, s, true, e0, u + ex, 0, Seq::empty());
    assert(e0 + er + (u + ex) =~= b);
    lemma_extra_entries(o, s);
    lemma_uvarint_roundtrip(er, x.len() as u64, ex);
    assert(er + u + ex =~= b);
    let p2 = (er.len() + u.len()) as int;
    lemma_required_members(o, s, e0, u + ex, 0);
    let rv = required_views(o, s);
    assert(rv.subrange(0, nreq as int) =~= rv);
    assert forall|j: int| 0 <= j < x.len() implies str_bytes((#[trigger] x[j]).0).len() <= u64::MAX
        && match prop_schema(s, x[j].0@) {
            Some(ss) => enc_ok(x[j].1, ss) && conforms_exact(x[j].1, ss),
            None => value_wf(x[j].1),
        } by {
        let i = choose|i: int| 0 <= i < o.len() && #[trigger] o[i] == #[trigger] x[j] && !is_required(s, o[i].0@);
        assert(str_bytes(o[i].0).len() <= u64::MAX);
        let _ = prop_schema(s, o[i].0@);
    }
    assert(x.subrange(0, 0) =~= Seq::<(String, Value)>::empty());
    lemma_extra_members(x, s, er + u, e0, 0);
    assert(er + u + ex + e0 =~= b);
    let xv = entry_views_of(x);
    lemma_entry_views_of(x);
    assert(xv.subrange(0, x.len() as int) =~= xv);
    let m1 = required_members(b, 0, s, 0);
    let m2 = extra_members(b, p2, s, x.len() as nat);
    lemma_members_hold_concat(b, m1, rv, m2, xv);
    let e = rv + xv;
    lemma_entry_index(o, n);
    lemma_entry_views_of(o);
    let w = match entry_index(o, n) {
        Some(i) => o[i].1@,
        None => ValueView::Null,
    };
    assert forall|j: int| 0 <= j < e.len() && (#[trigger] e[j]).0 == n implies e[j].1 == w by {
        if j < rv.len() {
            assert(e[j] == rv[j]);
            let _ = prop_schema(s, required_of(s)[j]@);
        } else {
            let jx = j - rv.len();
            assert(e[j] == xv[jx]);
            let i = choose|i: int| 0 <= i < o.len() && #[trigger] o[i] == #[trigger] x[jx] && !is_required(s, o[i].0@);
            lemma_sole_entry(o, n, i);
        }
    }
    lemma_field_items(b, m1 + m2, e, n, w, 0);
    match entry_index(o, n) {
        Some(i) => {
            if is_required(s, n) {
                let j = choose|j: int| 0 <= j < required_of(s).len() && #[trigger] required_of(s)[j]@ == n;
                assert(e[j] == rv[j]);
            } else {
                assert(o[i].0@ == n);
                assert(x.contains(o[i]));
                let jx = choose|jx: int| 0 <= jx < x.len() && x[jx] == o[i];
                assert(e[rv.len() + jx] == xv[jx]);
            }
        },
        None => {
            assert forall|j: int| 0 <= j < e.len() implies (#[trigger] e[j]).0 != n by {
                if j < rv.len() {
                    assert(e[j] == rv[j]);
                    let _ = prop_schema(s, required_of(s)[j]@);
                } else {
                    let jx = j - rv.len();
                    assert(e[j] == xv[jx]);
                    let i = choose|i: int| 0 <= i < o.len() && #[trigger] o[i] == #[trigger] x[jx] && !is_required(s, o[i].0@);
                }
            }
        },
    }
}

/// Selecting a field reads, in the encoding itself, the value the encoded
/// value holds under that key, and nothing when it is not an object or has
/// no such key: for any well-formed value in the untyped form, and for a
/// value that conforms to its schema (one with no `const` or `enum`), where
/// the encoding completes.
pub proof fn lemma_field_select(v: Value, s: Option<Schema>, p: Path)
    requires
        field_name(p) is Some,
        match s {
            Some(ss) => enc_ok(v, ss) && conforms_exact(v, ss) && ss.const_value is None && ss.enum_values is None,
            None => value_wf(v),
        },
    ensures
        ({
            let b = match s {
                Some(ss) => enc_schema(v, ss),
                None => enc_untyped(v),
            };
            step(b, root_item(b, s), p) matches Some(items) && item_values(b, items) == field_of(
                v,
                field_name(p).unwrap(),
            )
        }),
{
    let n = field_name(p).unwrap();
    let b = match s {
        Some(ss) => enc_schema(v, ss),
        None => enc_untyped(v),
    };
    let empty_items = Seq::<ItemView>::empty();
    assert(item_values(b, empty_items) =~= Seq::<ValueView>::empty());
    match s {
        None => {
            if v is Object {
                lemma_untyped_object_field(v, n);
            }
        },
        Some(ss) => {
            match ss.instance_type {
                Some(SingleOrVec::Single(t)) => {
                    if t == InstanceType::Object {
                        lemma_typed_object_field(v, ss, n);
                    }
                },
                _ => {
                    if v is Object {
                        assert(b == enc_untyped(v));
                        lemma_untyped_object_field(v, n);
                        assert(members(b, 0, Some(ss)) == members(b, 0, None));
                    }
                },
            }
        },
    }
}

/// The path `$.name` (or `$:name`, `$["name"]`) selects, from a value
/// encoded in the untyped form or under a schema it conforms to (one with
/// no `const` or `enum`), exactly the value it holds under `name`, if any.
pub proof fn lemma_select_field_path(v: Value, s: Option<Schema>, jp: JsonPath)
    requires
        jp.paths@.len() == 2,
        jp.paths@[0] is Root,
        field_name(jp.paths@[1]) is Some,
        match s {
            Some(ss) => enc_ok(v, ss) && conforms_exact(v, ss) && ss.const_value is None && ss.enum_values is None,
            None => value_wf(v),
        },
    ensures
        ({
            let b = match s {
                Some(ss) => enc_schema(v, ss),
                None => enc_untyped(v),
            };
            selected(b, s, jp) == Some(field_of(v, field_name(jp.paths@[1]).unwrap()))
        }),
{
    let b = match s {
        Some(ss) => enc_schema(v, ss),
        None => enc_untyped(v),
    };
    let p = jp.paths@[1];
    let root = root_item(b, s);
    lemma_field_select(v, s, p);
    let items = step(b, root, p).unwrap();
    assert(step_all(b, seq![root], p, 1) == Some(Seq::<ItemView>::empty()));
    assert(step_all(b, seq![root], p, 0) == Some(items + Seq::<ItemView>::empty()));
    assert(items + Seq::<ItemView>::empty() =~= items);
    let paths = jp.paths@;
    assert(sel_paths(b, root, items, paths, 2, true) == Some(items));
    assert(sel_paths(b, root, seq![root], paths, 1, true) == Some(items));
    assert(sel_paths(b, root, seq![root], paths, 0, true) == Some(items));
}

/// Elements that stand for the views `vs`: decoding each one's bytes gives
/// the view at its place.
pub open spec fn elements_hold(b: Seq<u8>, es: Seq<(int, Option<Schema>)>, vs: Seq<ValueView>) -> bool {
    &&& es.len() == vs.len()
    &&& forall|j: int| 0 <= j < es.len() ==> dec_opt(b, (#[trigger] es[j]).0, es[j].1).0 == vs[j]
}

/// The untyped elements of untyped values stand for their views.
proof fn lemma_untyped_elements(s: Seq<Value>, pre: Seq<u8>, rest: Seq<u8>)
    requires
        forall|i: int| 0 <= i < s.len() ==> value_wf(#[trigger] s[i]),
    ensures
        elements_hold(
            pre + enc_untyped_seq(s) + rest,
            untyped_elements_from(pre + enc_untyped_seq(s) + rest, pre.len() as int, s.len()),
            views_of(s),
        ),
    decreases s.len(),
{
    lemma_views_of(s);
    let b = pre + enc_untyped_seq(s) + rest;
    if s.len() > 0 {
        let t = s.subrange(1, s.len() as int);
        lemma_enc_seq_front(s);
        lemma_untyped_roundtrip(s[0], pre, enc_untyped_seq(t) + rest);
        assert(pre + enc_untyped(s[0]) + (enc_untyped_seq(t) + rest) =~= b);
        let pre2 = pre + enc_untyped(s[0]);
        assert(pre2 + enc_untyped_seq(t) + rest =~= b);
        assert forall|i: int| 0 <= i < t.len() implies value_wf(#[trigger] t[i]) by {
            assert(t[i] == s[i + 1]);
        }
        lemma_untyped_elements(t, pre2, rest);
        lemma_views_of(t);
        let es = untyped_elements_from(b, pre.len() as int, s.len());
        let et = untyped_elements_from(b, pre2.len() as int, t.len());
        assert(es == seq![(pre.len() as int, None::<Schema>)] + et);
        assert forall|j: int| 0 <= j < es.len() implies dec_opt(b, (#[trigger] es[j]).0, es[j].1).0 == views_of(s)[j] by {
            if j > 0 {
                assert(es[j] == et[j - 1]);
                assert(t[j - 1] == s[j]);
            }
        }
    }
}

/// The typed elements from the `i`-th on stand for the elements' views.
#[verifier::spinoff_prover]
#[verifier::rlimit(40)]
proof fn lemma_typed_elements(a: Seq<Value>, s: Schema, pre: Seq<u8>, rest: Seq<u8>, i: nat)
    requires
        i <= a.len(),
        items_ok(a, s),
        items_conform_in(a, s, true),
    ensures
        ({
            let n = a.len();
            let b = pre + enc_items(a, s, n) + rest;
            elements_hold(
                b,
                typed_elements_from(b, (pre.len() + enc_items(a, s, i).len()) as int, s, i, n),
                views_of(a).subrange(i as int, n as int),
            )
        }),
    decreases a.len() - i,
{
    let n = a.len();
    let en = enc_items(a, s, n);
    let b = pre + en + rest;
    lemma_views_of(a);
    if i < n {
        let e_i = enc_items(a, s, i);
        let e_i1 = enc_items(a, s, i + 1);
        lemma_items_prefix(a, s, i + 1, n);
        let x = a[i as int];
        let sub = item_schema(s, i as int);
        let piece = match sub {
            Some(ss) => enc_schema(x, ss),
            None => enc_untyped(x),
        };
        assert(e_i1 == e_i + piece);
        let pre1 = pre + e_i;
        let rest1 = b.subrange((pre.len() + e_i1.len()) as int, b.len() as int);
        assert(b =~= pre1 + piece + rest1) by {
            assert(en.subrange(0, e_i1.len() as int) == e_i1);
            assert forall|j: int| 0 <= j < b.len() implies b[j] == (pre1 + piece + rest1)[j] by {
                if pre.len() <= j < pre.len() + e_i1.len() {
                    assert(b[j] == en[j - pre.len()]);
                    assert(en[j - pre.len()] == e_i1[j - pre.len()]);
                }
            }
        }
        match sub {
            Some(ss) => {
                lemma_schema_roundtrip(x, ss, pre1, rest1);
            },
            None => {
                lemma_untyped_roundtrip(x, pre1, rest1);
            },
        }
        assert(dec_opt(b, pre1.len() as int, sub) == (x@, (pre.len() + e_i1.len()) as int));
        lemma_typed_elements(a, s, pre, rest, i + 1);
        let es = typed_elements_from(b, pre1.len() as int, s, i, n);
        let et = typed_elements_from(b, (pre.len() + e_i1.len()) as int, s, i + 1, n);
        assert(pre1.len() as int == (pre.len() + enc_items(a, s, i).len()) as int);
        assert(es == seq![(pre1.len() as int, sub)] + et);
        let vs = views_of(a).subrange(i as int, n as int);
        let vt = views_of(a).subrange((i + 1) as int, n as int);
        assert(vs[0] == x@);
        assert forall|j: int| 0 <= j < es.len() implies dec_opt(b, (#[trigger] es[j]).0, es[j].1).0 == vs[j] by {
            if j > 0 {
                assert(es[j] == et[j - 1]);
                assert(vs[j] == vt[j - 1]);
            }
        }
        assert(elements_hold(b, es, vs));
    } else {
        assert(elements_hold(b, typed_elements_from(b, (pre.len() + enc_items(a, s, i).len()) as int, s, i, n), views_of(a).subrange(i as int, n as int)));
    }
}

/// The elements of an array encoded in the untyped form, or under a schema
/// it conforms to, stand for its elements.
proof fn lemma_array_elements(v: Value, s: Option<Schema>)
    requires
        v is Array,
        match s {
            Some(ss) => enc_ok(v, ss) && conforms_exact(v, ss) && ss.const_value is None && ss.enum_values is None,
            None => value_wf(v),
        },
    ensures
        ({
            let b = match s {
                Some(ss) => enc_schema(v, ss),
                None => enc_untyped(v),
            };
            is_array_at(b, 0, s) && elements_hold(b, elements(b, 0, s), views_of(v->Array_0@))
        }),
{
    let b = match s {
        Some(ss) => enc_schema(v, ss),
        None => enc_untyped(v),
    };
    let e0 = Seq::<u8>::empty();
    let a = v->Array_0@;
    let typed_array = s matches Some(ss) && ss.instance_type == Some(SingleOrVec::Single(InstanceType::Array));
    if typed_array {
        let ss = s.unwrap();
        let n = a.len();
        let adj = adjusted_len(n, ss.min_items);
        let u = uvarint_bytes(adj as u64);
        let ei = enc_items(a, ss, n);
        assert(b == u + ei);
        lemma_uvarint_roundtrip(e0, adj as u64, ei);
        assert(e0 + u + ei =~= b);
        assert(count_plus(adj as u64, ss.min_items) == n);
        lemma_typed_elements(a, ss, u, e0, 0);
        assert(u + ei + e0 =~= b);
        lemma_views_of(a);
        assert(views_of(a).subrange(0, n as int) =~= views_of(a));
    } else {
        let u = uvarint_bytes(a.len() as u64);
        let pre = seq![TAG_ARRAY] + u;
        assert(b == enc_untyped(v));
        lemma_uvarint_roundtrip(seq![TAG_ARRAY], a.len() as u64, enc_untyped_seq(a));
        assert(seq![TAG_ARRAY] + u + enc_untyped_seq(a) =~= b);
        assert(pre + enc_untyped_seq(a) + e0 =~= b);
        lemma_untyped_elements(a, pre, e0);
    }
}

/// What `[*]` selects from a value: the elements of an array, else the
/// value itself.
pub open spec fn wildcard_of(v: Value) -> Seq<ValueView> {
    match v {
        Value::Array(a) => views_of(a@),
        _ => seq![v@],
    }
}

/// `[*]` reads, in the encoding itself, each element of an array in order,
/// and any other value whole: for any well-formed value in the untyped
/// form, and for a value that conforms to its schema (one with no `const`
/// or `enum`), where the encoding completes.
pub proof fn lemma_wildcard_select(v: Value, s: Option<Schema>)
    requires
        match s {
            Some(ss) => enc_ok(v, ss) && conforms_exact(v, ss) && ss.const_value is None && ss.enum_values is None,
            None => value_wf(v),
        },
    ensures
        ({
            let b = match s {
                Some(ss) => enc_schema(v, ss),
                None => enc_untyped(v),
            };
            step(b, root_item(b, s), Path::BracketWildcard) matches Some(items) && item_values(b, items)
                == wildcard_of(v)
        }),
{
    let b = match s {
        Some(ss) => enc_schema(v, ss),
        None => enc_untyped(v),
    };
    let root = root_item(b, s);
    let e0 = Seq::<u8>::empty();
    match s {
        Some(ss) => {
            lemma_schema_roundtrip(v, ss, e0, e0);
            assert(e0 + b + e0 =~= b);
        },
        None => {
            lemma_untyped_roundtrip(v, e0, e0);
            assert(e0 + b + e0 =~= b);
        },
    }
    assert(item_values(b, seq![root]) =~= seq![v@]);
    if v is Array {
        lemma_array_elements(v, s);
        let es = elements(b, 0, s);
        let items = element_items(b, es);
        assert(item_values(b, items) =~= wildcard_of(v));
    } else if is_array_at(b, 0, s) {
        assert(false);
    }
}

/// What `[i]` selects from a value: the element the index names, when the
/// value is an array that has it.
pub open spec fn index_of(v: Value, i: Index) -> Seq<ValueView> {
    match v {
        Value::Array(a) => match convert_index(i, a@.len() as int) {
            Some(k) => seq![a@[k]@],
            None => Seq::empty(),
        },
        _ => Seq::empty(),
    }
}

/// `[i]` reads, in the encoding itself, the element the index names, and
/// nothing when the value is not an array or has no such element: for any
/// well-formed value in the untyped form, and for a value that conforms to
/// its schema (one with no `const` or `enum`), where the encoding
/// completes.
pub proof fn lemma_index_select(v: Value, s: Option<Schema>, p: Path, i: Index)
    requires
        p matches Path::ArrayIndices(idx) && idx@ == seq![ArrayIndex::Index(i)],
        match s {
            Some(ss) => enc_ok(v, ss) && conforms_exact(v, ss) && ss.const_value is None && ss.enum_values is None,
            None => value_wf(v),
        },
    ensures
        ({
            let b = match s {
                Some(ss) => enc_schema(v, ss),
                None => enc_untyped(v),
            };
            step(b, root_item(b, s), p) matches Some(items) && item_values(b, items) == index_of(v, i)
        }),
{
    let b = match s {
        Some(ss) => enc_schema(v, ss),
        None => enc_untyped(v),
    };
    let idx = p->ArrayIndices_0;
    let a = ArrayIndex::Index(i);
    let empty_items = Seq::<ItemView>::empty();
    assert(item_values(b, empty_items) =~= Seq::<ValueView>::empty());
    if v is Array {
        lemma_array_elements(v, s);
        let es = elements(b, 0, s);
        let items = element_items(b, es);
        let vs = views_of(v->Array_0@);
        lemma_views_of(v->Array_0@);
        assert(item_values(b, items) =~= vs);
        let len = items.len() as int;
        let ps = index_positions(a, len);
        let chosen = match convert_index(i, len) {
            Some(k) => seq![items[k]],
            None => Seq::<ItemView>::empty(),
        };
        match convert_index(i, len) {
            Some(k) => {
                assert(item_values(b, seq![items[k]]) =~= seq![item_values(b, items)[k]]);
            },
            None => {},
        }
        assert(idx@[0] == a);
        assert(select_listed(items, idx@, 1) == Seq::<ItemView>::empty());
        assert(ps.map_values(|k: int| items[k]) =~= chosen);
        assert(select_listed(items, idx@, 0) =~= chosen);
    } else if is_array_at(b, 0, s) {
        assert(false);
    }
}

/// The path `$.**` selects, from a well-formed value in the untyped form,
/// the value and every value inside it, in document order.
pub proof fn lemma_select_descent_path(v: Value, jp: JsonPath)
    requires
        jp.paths@.len() == 2,
        jp.paths@[0] is Root,
        jp.paths@[1] == Path::RecursiveDotWildcard(None),
        value_wf(v),
    ensures
        selected(enc_untyped(v), None, jp) == Some(subvalues(v@)),
{
    let b = enc_untyped(v);
    let p = jp.paths@[1];
    let root = root_item(b, None);
    assert(b.subrange(0, b.len() as int) =~= b);
    lemma_descend_untyped(b, 0, v, 0);
    let items = step(b, root, p).unwrap();
    assert(items == descend(b, 0, None, 0, None));
    assert(step_all(b, seq![root], p, 1) == Some(Seq::<ItemView>::empty()));
    assert(step_all(b, seq![root], p, 0) == Some(items + Seq::<ItemView>::empty()));
    assert(items + Seq::<ItemView>::empty() =~= items);
    let paths = jp.paths@;
    assert(sel_paths(b, root, items, paths, 2, true) == Some(items));
    assert(sel_paths(b, root, seq![root], paths, 1, true) == Some(items));
    assert(sel_paths(b, root, seq![root], paths, 0, true) == Some(items));
}

/// `[*]`, and `[i]`, select the same values from a value encoded under a
/// schema it conforms to (one with no `const` or `enum`) as from the same
/// value without a schema.
pub proof fn lemma_elements_agree(v: Value, s: Schema, p: Path, i: Index)
    requires
        p matches Path::ArrayIndices(idx) && idx@ == seq![ArrayIndex::Index(i)],
        enc_ok(v, s),
        conforms_exact(v, s),
        s.const_value is None,
        s.enum_values is None,
        value_wf(v),
    ensures
        ({
            let bt = enc_schema(v, s);
            let bu = enc_untyped(v);
            &&& item_values(bt, step(bt, root_item(bt, Some(s)), Path::BracketWildcard).unwrap())
                == item_values(bu, step(bu, root_item(bu, None), Path::BracketWildcard).unwrap())
            &&& item_values(bt, step(bt, root_item(bt, Some(s)), p).unwrap())
                == item_values(bu, step(bu, root_item(bu, None), p).unwrap())
        }),
{
    lemma_wildcard_select(v, Some(s));
    lemma_wildcard_select(v, None);
    lemma_index_select(v, Some(s), p, i);
    lemma_index_select(v, None, p, i);
}

} // verus!
