//! Selecting with a schema gives the same values as selecting without one:
//! a path of field names, `.*`, `[*]`, `[i, j, ...]` and `.**` steps reads, from a
//! value encoded under a schema it conforms to, the values it reads from the
//! same value in the untyped form.

use vstd::prelude::*;
use crate::value::{Value, ValueView};
use crate::types::{InstanceType, Schema, SingleOrVec};
use crate::spec_enc::{enc_schema, enc_untyped, enc_untyped_seq, enc_items, enc_ok, item_schema, items_ok,
    adjusted_len, TAG_ARRAY};
use crate::spec_dec::count_plus;
use crate::varint::{uvarint_bytes, lemma_uvarint_roundtrip};
use crate::roundtrip::{value_wf, lemma_untyped_roundtrip};
use crate::traverse::{dec_opt, elements, is_array_at, typed_elements_from, untyped_elements_from};
use crate::select_spec::{ItemView, item_values, element_items, member_items, select_listed, field_name, step,
    step_all, sel_paths, root_item, insert_pos, sort_members, visit_members, descend, descend_all, span, level_of,
    next_level};
use crate::roundtrip::lemma_value_children_decrease;
use crate::jsonpath::{RecursiveLevel, RecursiveLevelEnd, level_check};
use crate::spec_dec::key_lt;
use crate::spec_enc::{entry_index, entry_value, extra_entries, enc_required, enc_extras, required_of, prop_schema,
    is_required, key_bytes, str_bytes, enc_untyped_entries, lemma_prop_schema_decreases_all};
use crate::schema_roundtrip::{required_conform_in, lemma_required_prefix, lemma_extras_prefix, lemma_extra_entries};
use crate::varint::lemma_uvarint_len;
use crate::traverse::untyped_members_from;
use crate::value::{entry_views_of, lemma_entry_views_of};
use crate::objects::{keys_sorted, lemma_sorted_unique};
use crate::schema_roundtrip::lemma_entry_index;
use crate::traverse::members;
use crate::jsonpath::{ArrayIndex, JsonPath, Path, index_positions};
use crate::selector::selected;
use crate::schema_roundtrip::{conforms_exact, items_conform_in, lemma_items_prefix, lemma_schema_roundtrip};
use crate::nested::{item_schema_of, item_holds, item_open, enc_opt, schema_open, field_value, lemma_field_step, lemma_item_decodes,
    lemma_typed_members, lemma_untyped_members_at, members_encode, member_item};

verus! {

/// Open items that hold the values `ws`, in turn.
pub open spec fn items_hold(b: Seq<u8>, its: Seq<ItemView>, ws: Seq<Value>) -> bool {
    &&& its.len() == ws.len()
    &&& forall|j: int| 0 <= j < its.len() ==> item_holds(b, #[trigger] its[j], ws[j]) && item_open(its[j])
}

/// Items whose values take fewer bytes than `bound`, each under its item's
/// schema.
pub open spec fn items_smaller(its: Seq<ItemView>, ws: Seq<Value>, bound: int) -> bool {
    forall|j: int| 0 <= j < its.len() ==> enc_opt(ws[j], item_schema_of(#[trigger] its[j])).len() < bound
}

/// The values the indices pick from `ws`, index by index from the `a`-th,
/// in the order each index lists them.
pub open spec fn listed_values(ws: Seq<Value>, idx: Seq<ArrayIndex>, a: int) -> Seq<Value>
    decreases idx.len() - a,
{
    if a < 0 || a >= idx.len() {
        Seq::empty()
    } else {
        index_positions(idx[a], ws.len() as int).map_values(|k: int| ws[k]) + listed_values(ws, idx, a + 1)
    }
}

/// Whether a segment is one this law covers: a field name, `.*`, `[*]`,
/// `[i, j, ...]` or `.**`.
pub open spec fn plain_step(p: Path) -> bool {
    field_name(p) is Some || p is DotWildcard || p is BracketWildcard || p is ArrayIndices
        || p is RecursiveDotWildcard
}

/// The values one segment selects from `w`.
pub open spec fn sem_step(w: Value, p: Path) -> Seq<Value> {
    match p {
        Path::RecursiveDotWildcard(lvl) => sem_descend(w, 0, lvl),
        Path::DotWildcard => match w {
            Value::Object(o) => o@.map_values(|e: (String, Value)| e.1),
            _ => Seq::empty(),
        },
        Path::BracketWildcard => match w {
            Value::Array(a) => a@,
            _ => seq![w],
        },
        Path::ArrayIndices(idx) => match w {
            Value::Array(a) => listed_values(a@, idx@, 0),
            _ => Seq::empty(),
        },
        _ => match field_name(p) {
            Some(n) => match field_value(w, n) {
                Some(x) => seq![x],
                None => Seq::empty(),
            },
            None => Seq::empty(),
        },
    }
}

/// The values one segment selects from each of `ws` from the `i`-th on.
pub open spec fn sem_all(ws: Seq<Value>, p: Path, i: int) -> Seq<Value>
    decreases ws.len() - i,
{
    if i < 0 || i >= ws.len() {
        Seq::empty()
    } else {
        sem_step(ws[i], p) + sem_all(ws, p, i + 1)
    }
}

/// The values the segments from the `k`-th on select from `ws`.
pub open spec fn sem_paths(ws: Seq<Value>, paths: Seq<Path>, k: int) -> Seq<Value>
    decreases paths.len() - k,
{
    if k < 0 || k >= paths.len() {
        ws
    } else {
        sem_paths(sem_all(ws, paths[k], 0), paths, k + 1)
    }
}

/// Items that hold values in turn, joined, hold the joined values.
proof fn lemma_items_hold_concat(b: Seq<u8>, x: Seq<ItemView>, wx: Seq<Value>, y: Seq<ItemView>, wy: Seq<Value>)
    requires
        items_hold(b, x, wx),
        items_hold(b, y, wy),
    ensures
        items_hold(b, x + y, wx + wy),
{
    assert forall|j: int| 0 <= j < (x + y).len() implies item_holds(b, #[trigger] (x + y)[j], (wx + wy)[j]) && item_open((x + y)[j]) by {
        if j >= x.len() {
            assert((x + y)[j] == y[j - x.len()]);
            assert((wx + wy)[j] == wy[j - x.len()]);
        } else {
            assert((x + y)[j] == x[j]);
            assert((wx + wy)[j] == wx[j]);
        }
    }
}

/// The schema of each element of an open schema is open.
proof fn lemma_item_schema_open(s: Schema, i: int)
    requires
        schema_open(s),
    ensures
        item_schema(s, i) matches Some(ss) ==> schema_open(ss),
{
    if s.prefix_items is Some && 0 <= i < s.prefix_items.unwrap()@.len() {
        assert(schema_open(s.prefix_items->Some_0@[i]));
    }
}

/// The typed elements from the `i`-th on hold the array's elements.
#[verifier::spinoff_prover]
#[verifier::rlimit(40)]
proof fn lemma_typed_elements_hold(a: Seq<Value>, s: Schema, pre: Seq<u8>, rest: Seq<u8>, i: nat)
    requires
        i <= a.len(),
        items_ok(a, s),
        items_conform_in(a, s, true),
        schema_open(s),
    ensures
        ({
            let n = a.len();
            let b = pre + enc_items(a, s, n) + rest;
            items_hold(
                b,
                element_items(b, typed_elements_from(b, (pre.len() + enc_items(a, s, i).len()) as int, s, i, n)),
                a.subrange(i as int, n as int),
            )
        }),
    decreases a.len() - i,
{
    let n = a.len();
    let en = enc_items(a, s, n);
    let b = pre + en + rest;
    if i < n {
        let e_i = enc_items(a, s, i);
        let e_i1 = enc_items(a, s, i + 1);
        lemma_items_prefix(a, s, i + 1, n);
        let x = a[i as int];
        let sub = item_schema(s, i as int);
        let piece = enc_opt(x, sub);
        assert(e_i1 == e_i + piece);
        let pre1 = pre + e_i;
        let rest1 = b.subrange((pre.len() + e_i1.len()) as int, b.len() as int);
        assert(b =~= pre1 + piece + rest1) by {
            assert(en.subrange(0, e_i1.len() as int) == e_i1);
            assert forall|j: int| 0 <= j < b.len() implies b[j] == (pre1 + piece + rest1)[j] by {
                if pre.len() <= j < pre.len() + e_i1.len() {
                    assert(b[j] == en[j - pre.len()]);
                    assert(en[j - pre.len()] == e_i1[j - pre.len()]);
                }
            }
        }
        match sub {
            Some(ss) => {
                lemma_schema_roundtrip(x, ss, pre1, rest1);
            },
            None => {
                lemma_untyped_roundtrip(x, pre1, rest1);
            },
        }
        assert(dec_opt(b, pre1.len() as int, sub) == (x@, (pre.len() + e_i1.len()) as int));
        assert(b.subrange(pre1.len() as int, (pre.len() + e_i1.len()) as int) =~= piece);
        lemma_item_schema_open(s, i as int);
        lemma_typed_elements_hold(a, s, pre, rest, i + 1);
        let es = typed_elements_from(b, pre1.len() as int, s, i, n);
        let et = typed_elements_from(b, (pre.len() + e_i1.len()) as int, s, i + 1, n);
        assert(es == seq![(pre1.len() as int, sub)] + et);
        let its = element_items(b, es);
        let itt = element_items(b, et);
        assert(its =~= seq![its[0]] + itt);
        assert(a.subrange(i as int, n as int) =~= seq![x] + a.subrange((i + 1) as int, n as int));
        assert(items_hold(b, seq![its[0]], seq![x]));
        lemma_items_hold_concat(b, seq![its[0]], seq![x], itt, a.subrange((i + 1) as int, n as int));
    } else {
        assert(a.subrange(i as int, n as int) =~= Seq::<Value>::empty());
    }
}

/// The untyped elements of untyped values hold them.
proof fn lemma_untyped_elements_hold(s: Seq<Value>, pre: Seq<u8>, rest: Seq<u8>)
    requires
        forall|i: int| 0 <= i < s.len() ==> value_wf(#[trigger] s[i]),
    ensures
        ({
            let b = pre + enc_untyped_seq(s) + rest;
            items_hold(b, element_items(b, untyped_elements_from(b, pre.len() as int, s.len())), s)
        }),
{
    let b = pre + enc_untyped_seq(s) + rest;
    crate::descent::lemma_element_starts(s, pre, rest);
    let es = untyped_elements_from(b, pre.len() as int, s.len());
    let its = element_items(b, es);
    assert forall|j: int| 0 <= j < its.len() implies item_holds(b, #[trigger] its[j], s[j]) && item_open(its[j]) by {
        let p = es[j].0;
        let e = enc_untyped(s[j]);
        let pre1 = b.subrange(0, p);
        let rest1 = b.subrange(p + e.len(), b.len() as int);
        assert(b =~= pre1 + e + rest1);
        lemma_untyped_roundtrip(s[j], pre1, rest1);
    }
}

/// Each typed element is under its item schema.
proof fn lemma_typed_elements_schema(b: Seq<u8>, pos: int, s: Schema, i: nat, n: nat, j: int)
    requires
        0 <= j < typed_elements_from(b, pos, s, i, n).len(),
    ensures
        typed_elements_from(b, pos, s, i, n)[j].1 == item_schema(s, i + j),
    decreases n - i,
{
    if i < n && j > 0 {
        let sub = item_schema(s, i as int);
        lemma_typed_elements_schema(b, dec_opt(b, pos, sub).1, s, i + 1, n, j - 1);
    }
}

/// Untyped elements are under no schema.
proof fn lemma_untyped_elements_schema(b: Seq<u8>, pos: int, n: nat, j: int)
    requires
        0 <= j < untyped_elements_from(b, pos, n).len(),
    ensures
        untyped_elements_from(b, pos, n)[j].1 is None,
    decreases n,
{
    if n > 0 && 0 <= pos <= b.len() && j > 0 {
        lemma_untyped_elements_schema(b, crate::spec_dec::advance(b, pos, crate::spec_dec::dec_untyped(b, pos).1), (n - 1) as nat, j - 1);
    }
}

/// The elements of an array that an open item holds hold its elements; an
/// item that holds anything else is not an array.
#[verifier::spinoff_prover]
proof fn lemma_elements_hold(b: Seq<u8>, it: ItemView, v: Value)
    requires
        item_holds(b, it, v),
        item_open(it),
    ensures
        it matches ItemView::Enc(pos, _, s) && is_array_at(b, pos, s) == (v is Array)
            && (v is Array ==> items_hold(b, element_items(b, elements(b, pos, s)), v->Array_0@)
                && items_smaller(element_items(b, elements(b, pos, s)), v->Array_0@, enc_opt(v, s).len() as int))
            && (!(v is Array) ==> elements(b, pos, s).len() == 0),
{
    let (pos, e, s) = match it {
        ItemView::Enc(p, e, s) => (p, e, s),
        _ => (0, 0, None),
    };
    let enc = enc_opt(v, s);
    let pre = b.subrange(0, pos);
    let rest = b.subrange(e, b.len() as int);
    assert(b =~= pre + enc + rest);
    let typed_array = s matches Some(ss) && ss.instance_type == Some(SingleOrVec::Single(InstanceType::Array));
    if typed_array {
        let ss = s.unwrap();
        if v is Array {
            let a = v->Array_0@;
            let n = a.len();
            let adj = adjusted_len(n, ss.min_items);
            let u = uvarint_bytes(adj as u64);
            let ei = enc_items(a, ss, n);
            assert(enc == u + ei);
            lemma_uvarint_roundtrip(pre, adj as u64, ei + rest);
            assert(pre + u + (ei + rest) =~= b);
            assert(count_plus(adj as u64, ss.min_items) == n);
            lemma_typed_elements_hold(a, ss, pre + u, rest, 0);
            assert(pre + u + ei + rest =~= b);
            assert(a.subrange(0, n as int) =~= a);
            let its = element_items(b, elements(b, pos, s));
            assert forall|j: int| 0 <= j < its.len() implies enc_opt(a[j], item_schema_of(#[trigger] its[j])).len() < enc.len() as int by {
                lemma_typed_elements_schema(b, (pre.len() + u.len()) as int, ss, 0, n, j);
                lemma_typed_element_smaller(a, ss, j);
            }
        }
    } else {
        if crate::traverse::form_of(s) == crate::traverse::Form::Untyped {
            if !(v is Array) {
                if s is Some && v is Number && enc != enc_untyped(v) {
                    assert(enc[0] == crate::spec_enc::TAG_NUMBER);
                } else {
                    assert(enc == enc_untyped(v));
                }
                assert(b[pos] == enc[0]);
            } else {
                assert(enc == enc_untyped(v));
                assert(b[pos] == enc[0]);
                let a = v->Array_0@;
                let u = uvarint_bytes(a.len() as u64);
                let pre1 = pre.push(TAG_ARRAY);
                lemma_uvarint_roundtrip(pre1, a.len() as u64, enc_untyped_seq(a) + rest);
                assert(pre1 + u + (enc_untyped_seq(a) + rest) =~= b);
                assert(pre1 + u + enc_untyped_seq(a) + rest =~= b);
                lemma_untyped_elements_hold(a, pre1 + u, rest);
                let its = element_items(b, elements(b, pos, s));
                assert forall|j: int| 0 <= j < its.len() implies enc_opt(a[j], item_schema_of(#[trigger] its[j])).len() < enc.len() as int by {
                    lemma_untyped_elements_schema(b, (pre1.len() + u.len()) as int, a.len(), j);
                    lemma_untyped_child_smaller(v, j);
                }
            }
        }
    }
}

/// The indices pick, from items that hold values, items that hold the
/// picked values.
proof fn lemma_listed_hold(b: Seq<u8>, its: Seq<ItemView>, ws: Seq<Value>, idx: Seq<ArrayIndex>, a: int)
    requires
        items_hold(b, its, ws),
    ensures
        items_hold(b, select_listed(its, idx, a), listed_values(ws, idx, a)),
    decreases idx.len() - a,
{
    if 0 <= a < idx.len() {
        let ps = index_positions(idx[a], its.len() as int);
        assert(forall|j: int| 0 <= j < ps.len() ==> 0 <= #[trigger] ps[j] < its.len());
        let x = ps.map_values(|k: int| its[k]);
        let wx = ps.map_values(|k: int| ws[k]);
        assert(items_hold(b, x, wx)) by {
            assert forall|j: int| 0 <= j < x.len() implies item_holds(b, #[trigger] x[j], wx[j]) && item_open(x[j]) by {
                assert(x[j] == its[ps[j]]);
                assert(wx[j] == ws[ps[j]]);
            }
        }
        lemma_listed_hold(b, its, ws, idx, a + 1);
        lemma_items_hold_concat(b, x, wx, select_listed(its, idx, a + 1), listed_values(ws, idx, a + 1));
    }
}

/// Where a key goes into members: after those whose keys sort before it.
proof fn lemma_insert_pos(t: Seq<(Seq<char>, int, Option<Schema>)>, k: Seq<char>, i: int)
    requires
        0 <= i <= t.len(),
        forall|j: int| 0 <= j < i ==> key_lt(#[trigger] t[j].0, k),
    ensures
        i <= insert_pos(t, k, i) <= t.len(),
        forall|j: int| 0 <= j < insert_pos(t, k, i) ==> key_lt(#[trigger] t[j].0, k),
        insert_pos(t, k, i) < t.len() ==> !key_lt(t[insert_pos(t, k, i)].0, k),
    decreases t.len() - i,
{
    if i < t.len() && key_lt(t[i].0, k) {
        lemma_insert_pos(t, k, i + 1);
    }
}

/// Members whose keys strictly increase.
pub open spec fn members_sorted(t: Seq<(Seq<char>, int, Option<Schema>)>) -> bool {
    forall|i: int, j: int| 0 <= i < j < t.len() ==> key_lt(#[trigger] t[i].0, #[trigger] t[j].0)
}

/// Putting members in key order keeps exactly the members, and, where no
/// two share a key, orders them strictly by key.
proof fn lemma_sort_members(ms: Seq<(Seq<char>, int, Option<Schema>)>)
    ensures
        sort_members(ms).len() == ms.len(),
        forall|x: (Seq<char>, int, Option<Schema>)| #[trigger] sort_members(ms).contains(x) <==> ms.contains(x),
        (forall|i: int, j: int| 0 <= i < j < ms.len() ==> #[trigger] ms[i].0 != #[trigger] ms[j].0) ==> members_sorted(sort_members(ms)),
    decreases ms.len(),
{
    if ms.len() > 0 {
        let tail = ms.subrange(1, ms.len() as int);
        lemma_sort_members(tail);
        let t = sort_members(tail);
        let m = ms[0];
        let k = m.0;
        lemma_insert_pos(t, k, 0);
        let p = insert_pos(t, k, 0);
        let r = t.insert(p, m);
        assert(sort_members(ms) == r);
        assert forall|x: (Seq<char>, int, Option<Schema>)| #[trigger] r.contains(x) <==> ms.contains(x) by {
            if r.contains(x) {
                let a = choose|a: int| 0 <= a < r.len() && r[a] == x;
                if a < p {
                    assert(t[a] == x);
                    assert(t.contains(x));
                } else if a > p {
                    assert(t[a - 1] == x);
                    assert(t.contains(x));
                }
                if x != m {
                    assert(tail.contains(x));
                    let c = choose|c: int| 0 <= c < tail.len() && tail[c] == x;
                    assert(ms[c + 1] == x);
                }
            }
            if ms.contains(x) {
                let a = choose|a: int| 0 <= a < ms.len() && ms[a] == x;
                if a == 0 {
                    assert(r[p] == m);
                } else {
                    assert(tail[a - 1] == x);
                    assert(tail.contains(x));
                    assert(t.contains(x));
                    let c = choose|c: int| 0 <= c < t.len() && t[c] == x;
                    if c < p {
                        assert(r[c] == x);
                    } else {
                        assert(r[c + 1] == x);
                    }
                }
            }
        }
        if forall|i: int, j: int| 0 <= i < j < ms.len() ==> #[trigger] ms[i].0 != #[trigger] ms[j].0 {
            assert forall|i: int, j: int| 0 <= i < j < tail.len() implies #[trigger] tail[i].0 != #[trigger] tail[j].0 by {
                assert(tail[i] == ms[i + 1] && tail[j] == ms[j + 1]);
            }
            assert forall|c: int| 0 <= c < t.len() implies #[trigger] t[c].0 != k by {
                assert(t.contains(t[c]));
                assert(tail.contains(t[c]));
                let a = choose|a: int| 0 <= a < tail.len() && tail[a] == t[c];
                assert(ms[a + 1] == t[c]);
            }
            if p < t.len() {
                crate::objects::lemma_key_order(t[p].0, k, k);
            }
            assert forall|i: int, j: int| 0 <= i < j < r.len() implies key_lt(#[trigger] r[i].0, #[trigger] r[j].0) by {
                if j < p {
                    assert(r[i] == t[i] && r[j] == t[j]);
                } else if j == p {
                    assert(r[i] == t[i] && r[j] == m);
                } else if i < p {
                    assert(r[i] == t[i] && r[j] == t[j - 1]);
                } else if i == p {
                    assert(r[i] == m && r[j] == t[j - 1]);
                    if j - 1 > p {
                        crate::objects::lemma_key_order(k, t[p].0, t[j - 1].0);
                    }
                } else {
                    assert(r[i] == t[i - 1] && r[j] == t[j - 1]);
                }
            }
        }
    } else {
        assert forall|x: (Seq<char>, int, Option<Schema>)| #[trigger] sort_members(ms).contains(x) <==> ms.contains(x) by {}
    }
}

/// Members in strict key order, with the keys of sorted entries, follow the
/// entries' order.
proof fn lemma_members_follow(r: Seq<(Seq<char>, int, Option<Schema>)>, o: Seq<(String, Value)>)
    requires
        members_sorted(r),
        keys_sorted(entry_views_of(o)),
        forall|j: int| 0 <= j < r.len() ==> entry_index(o, #[trigger] r[j].0) is Some,
        forall|i: int| 0 <= i < o.len() ==> exists|j: int| 0 <= j < r.len() && #[trigger] r[j].0 == (#[trigger] o[i]).0@,
    ensures
        r.len() == o.len(),
        forall|j: int| 0 <= j < r.len() ==> #[trigger] r[j].0 == o[j].0@,
{
    let rk = r.map_values(|m: (Seq<char>, int, Option<Schema>)| (m.0, ValueView::Null));
    let ok = entry_views_of(o).map_values(|e: (Seq<char>, ValueView)| (e.0, ValueView::Null));
    lemma_entry_views_of(o);
    assert forall|a: int, c: int| 0 <= a < c < rk.len() implies key_lt(#[trigger] rk[a].0, #[trigger] rk[c].0) by {
        assert(rk[a].0 == r[a].0 && rk[c].0 == r[c].0);
    }
    assert forall|a: int, c: int| 0 <= a < c < ok.len() implies key_lt(#[trigger] ok[a].0, #[trigger] ok[c].0) by {
        assert(ok[a].0 == entry_views_of(o)[a].0 && ok[c].0 == entry_views_of(o)[c].0);
    }
    assert forall|x: (Seq<char>, ValueView)| rk.contains(x) <==> ok.contains(x) by {
        if rk.contains(x) {
            let j = choose|j: int| 0 <= j < rk.len() && rk[j] == x;
            assert(entry_index(o, r[j].0) is Some);
            lemma_entry_index(o, r[j].0);
            let i = entry_index(o, r[j].0).unwrap();
            assert(ok[i] == x);
        }
        if ok.contains(x) {
            let i = choose|i: int| 0 <= i < ok.len() && ok[i] == x;
            assert(o.len() == ok.len());
            let j = choose|j: int| 0 <= j < r.len() && #[trigger] r[j].0 == (#[trigger] o[i]).0@;
            assert(rk[j] == x);
        }
    }
    lemma_sorted_unique(rk, ok);
    assert forall|j: int| 0 <= j < r.len() implies #[trigger] r[j].0 == o[j].0@ by {
        assert(rk[j] == ok[j]);
    }
}

/// `.*` from an open item that holds an object reaches items that hold its
/// entries' values, in key order, each taking fewer bytes than the object;
/// from any other value, none.
#[verifier::spinoff_prover]
#[verifier::rlimit(80)]
proof fn lemma_members_hold(b: Seq<u8>, it: ItemView, w: Value)
    requires
        item_holds(b, it, w),
        item_open(it),
    ensures
        it matches ItemView::Enc(pos, _, s) && items_hold(
            b,
            member_items(b, visit_members(b, pos, s)),
            sem_step(w, Path::DotWildcard),
        ) && items_smaller(member_items(b, visit_members(b, pos, s)), sem_step(w, Path::DotWildcard), enc_opt(w, s).len() as int),
{
    let (pos, e, s) = match it {
        ItemView::Enc(p, e, s) => (p, e, s),
        _ => (0, 0, None),
    };
    let enc = enc_opt(w, s);
    let pre = b.subrange(0, pos);
    let rest = b.subrange(e, b.len() as int);
    assert(b =~= pre + enc + rest);
    let ms = members(b, pos, s);
    let vm = visit_members(b, pos, s);
    let typed_object = s matches Some(ss) && ss.instance_type == Some(SingleOrVec::Single(InstanceType::Object));
    lemma_sort_members(ms);
    if w is Object {
        let o = w->Object_0@;
        let ws = o.map_values(|x: (String, Value)| x.1);
        assert(sem_step(w, Path::DotWildcard) == ws);
        if typed_object {
            let ss = s.unwrap();
            lemma_typed_members(b, pos, e, ss, w, Seq::empty());
            assert(vm == sort_members(ms));
            assert(keys_sorted(entry_views_of(o)));
            assert forall|j: int| 0 <= j < vm.len() implies entry_index(o, #[trigger] vm[j].0) is Some by {
                assert(vm.contains(vm[j]));
                let i = choose|i: int| 0 <= i < ms.len() && ms[i] == vm[j];
                let n = vm[j].0;
                lemma_typed_members(b, pos, e, ss, w, n);
                let ents = choose|ents: Seq<(String, Value)>| {
                    &&& members_encode(b, ms, ents)
                    &&& (forall|a: int| 0 <= a < ents.len() && (#[trigger] ents[a]).0@ == n ==> (entry_index(o, n) is Some && ents[a].1 == o[entry_index(o, n).unwrap()].1))
                    &&& (entry_index(o, n) is Some ==> exists|a: int| 0 <= a < ents.len() && (#[trigger] ents[a]).0@ == n)
                };
                assert(ms[i].0 == ents[i].0@);
            }
            assert forall|i: int| 0 <= i < o.len() implies exists|j: int| 0 <= j < vm.len() && #[trigger] vm[j].0 == (#[trigger] o[i]).0@ by {
                let n = o[i].0@;
                lemma_entry_views_of(o);
                crate::in_place::lemma_sole_entry(o, n, i);
                lemma_typed_members(b, pos, e, ss, w, n);
                let ents = choose|ents: Seq<(String, Value)>| {
                    &&& members_encode(b, ms, ents)
                    &&& (forall|a: int| 0 <= a < ents.len() && (#[trigger] ents[a]).0@ == n ==> (entry_index(o, n) is Some && ents[a].1 == o[entry_index(o, n).unwrap()].1))
                    &&& (entry_index(o, n) is Some ==> exists|a: int| 0 <= a < ents.len() && (#[trigger] ents[a]).0@ == n)
                };
                let a = choose|a: int| 0 <= a < ents.len() && (#[trigger] ents[a]).0@ == n;
                assert(ms[a].0 == n);
                assert(ms.contains(ms[a]));
                assert(vm.contains(ms[a]));
                let j = choose|j: int| 0 <= j < vm.len() && vm[j] == ms[a];
                assert(vm[j].0 == o[i].0@);
            }
            lemma_members_follow(vm, o);
            let its = member_items(b, vm);
            assert forall|j: int| 0 <= j < its.len() implies item_holds(b, #[trigger] its[j], ws[j]) && item_open(its[j]) by {
                assert(vm.contains(vm[j]));
                let i = choose|i: int| 0 <= i < ms.len() && ms[i] == vm[j];
                let n = vm[j].0;
                lemma_typed_members(b, pos, e, ss, w, n);
                let ents = choose|ents: Seq<(String, Value)>| {
                    &&& members_encode(b, ms, ents)
                    &&& (forall|a: int| 0 <= a < ents.len() && (#[trigger] ents[a]).0@ == n ==> (entry_index(o, n) is Some && ents[a].1 == o[entry_index(o, n).unwrap()].1))
                    &&& (entry_index(o, n) is Some ==> exists|a: int| 0 <= a < ents.len() && (#[trigger] ents[a]).0@ == n)
                };
                assert(ms[i].0 == ents[i].0@);
                lemma_entry_views_of(o);
                crate::in_place::lemma_sole_entry(o, n, j);
                assert(ents[i].1 == o[j].1);
                assert(its[j] == member_item(b, ms[i]));
                assert(ms[i].2 matches Some(sub) ==> schema_open(sub));
            }
            assert forall|j: int| 0 <= j < its.len() implies enc_opt(ws[j], item_schema_of(#[trigger] its[j])).len() < enc.len() by {
                assert(vm.contains(vm[j]));
                let i = choose|i: int| 0 <= i < ms.len() && ms[i] == vm[j];
                assert(its[j] == member_item(b, ms[i]));
                assert(vm[j].0 == o[j].0@);
                let p1 = crate::spec_dec::dec_required(b, pos, ss, 0, Seq::empty()).1;
                let (c, p2) = crate::varint::read_uvarint_spec(b, p1);
                let rm = crate::traverse::required_members(b, pos, ss, 0);
                assert(ms == rm + crate::traverse::extra_members(b, p2, ss, c as nat));
                if i < rm.len() {
                    assert(ms[i] == rm[i]);
                    crate::nested::lemma_required_members_schema(b, pos, ss, 0, i);
                } else {
                    assert(ms[i] == crate::traverse::extra_members(b, p2, ss, c as nat)[i - rm.len()]);
                    crate::nested::lemma_extra_members_schema(b, p2, ss, c as nat, i - rm.len());
                }
                assert(ms[i].2 == prop_schema(ss, o[j].0@));
                lemma_typed_entry_smaller(o, ss, j);
                assert(ws[j] == o[j].1);
            }
        } else {
            if crate::traverse::form_of(s) == crate::traverse::Form::Untyped {
                lemma_untyped_members_at(b, pos, e, s, w);
                lemma_entry_views_of(o);
                let its = member_items(b, vm);
                if s is Some {
                    assert(vm == sort_members(ms));
                    assert forall|i: int, j: int| 0 <= i < j < ms.len() implies #[trigger] ms[i].0 != #[trigger] ms[j].0 by {
                        assert(ms[i].0 == o[i].0@ && ms[j].0 == o[j].0@);
                        assert(entry_views_of(o)[i].0 == o[i].0@ && entry_views_of(o)[j].0 == o[j].0@);
                        crate::objects::lemma_key_order(o[i].0@, o[j].0@, o[j].0@);
                    }
                    assert forall|j: int| 0 <= j < vm.len() implies entry_index(o, #[trigger] vm[j].0) is Some by {
                        assert(vm.contains(vm[j]));
                        let i = choose|i: int| 0 <= i < ms.len() && ms[i] == vm[j];
                        lemma_entry_index(o, vm[j].0);
                        assert(o[i].0@ == vm[j].0);
                    }
                    assert forall|i: int| 0 <= i < o.len() implies exists|j: int| 0 <= j < vm.len() && #[trigger] vm[j].0 == (#[trigger] o[i]).0@ by {
                        assert(ms.contains(ms[i]));
                        assert(vm.contains(ms[i]));
                        let j = choose|j: int| 0 <= j < vm.len() && vm[j] == ms[i];
                        assert(vm[j].0 == o[i].0@);
                    }
                    lemma_members_follow(vm, o);
                    assert forall|j: int| 0 <= j < its.len() implies item_holds(b, #[trigger] its[j], ws[j]) && item_open(its[j]) by {
                        assert(vm.contains(vm[j]));
                        let i = choose|i: int| 0 <= i < ms.len() && ms[i] == vm[j];
                        assert(ms[i].0 == o[i].0@);
                        assert(vm[j].0 == o[j].0@);
                        crate::in_place::lemma_sole_entry(o, o[i].0@, j);
                        crate::in_place::lemma_sole_entry(o, o[i].0@, i);
                        assert(i == j);
                        assert(its[j] == member_item(b, vm[j]));
                        assert(ms[i].0 == o[i].0@);
                        assert(item_holds(b, member_item(b, ms[i]), o[i].1));
                        assert(ws[j] == o[j].1);
                        assert(ms[i].2 is None);
                    }
                    assert forall|j: int| 0 <= j < its.len() implies enc_opt(ws[j], item_schema_of(#[trigger] its[j])).len() < enc.len() by {
                        assert(vm.contains(vm[j]));
                        let i = choose|i: int| 0 <= i < ms.len() && ms[i] == vm[j];
                        assert(ms[i].0 == o[i].0@);
                        assert(vm[j].0 == o[j].0@);
                        crate::in_place::lemma_sole_entry(o, o[i].0@, j);
                        crate::in_place::lemma_sole_entry(o, o[i].0@, i);
                        assert(its[j] == member_item(b, ms[j]));
                        assert(ms[j].2 is None);
                        lemma_untyped_child_smaller(w, j);
                        assert(enc == enc_untyped(w));
                    }
                } else {
                    assert(vm == ms);
                    assert forall|j: int| 0 <= j < its.len() implies item_holds(b, #[trigger] its[j], ws[j]) && item_open(its[j]) by {
                        assert(its[j] == member_item(b, ms[j]));
                        assert(ms[j].0 == o[j].0@);
                        assert(item_holds(b, member_item(b, ms[j]), o[j].1));
                        assert(ws[j] == o[j].1);
                        assert(ms[j].2 is None);
                    }
                    assert forall|j: int| 0 <= j < its.len() implies enc_opt(ws[j], item_schema_of(#[trigger] its[j])).len() < enc.len() by {
                        assert(its[j] == member_item(b, ms[j]));
                        assert(ms[j].0 == o[j].0@);
                        assert(ms[j].2 is None);
                        lemma_untyped_child_smaller(w, j);
                    }
                }
            } else {
                assert(false);
            }
        }
    } else {
        if typed_object {
            assert(false);
        }
        if crate::traverse::form_of(s) == crate::traverse::Form::Untyped && 0 <= pos < b.len() {
            if s is Some && w is Number && enc != enc_untyped(w) {
                assert(enc[0] == crate::spec_enc::TAG_NUMBER);
            } else {
                assert(enc == enc_untyped(w));
            }
            assert(b[pos] == enc[0]);
        }
        assert(ms.len() == 0);
        assert(vm.len() == 0);
    }
}

/// The bytes of an entry's value, under its property schema, are fewer
/// than those of the typed object that holds it.
#[verifier::spinoff_prover]
#[verifier::rlimit(40)]
proof fn lemma_typed_entry_smaller(o: Seq<(String, Value)>, s: Schema, j: int)
    requires
        0 <= j < o.len(),
        keys_sorted(entry_views_of(o)),
        required_conform_in(o, s, true),
    ensures
        ({
            let x = extra_entries(o, s);
            enc_opt(o[j].1, prop_schema(s, o[j].0@)).len() < enc_required(o, s, required_of(s).len()).len()
                + uvarint_bytes(x.len() as u64).len() + enc_extras(x, s).len()
        }),
{
    let k = o[j].0@;
    let n = required_of(s).len();
    let x = extra_entries(o, s);
    let piece = enc_opt(o[j].1, prop_schema(s, k));
    lemma_uvarint_len(x.len() as u64);
    if is_required(s, k) {
        let i = choose|i: int| 0 <= i < required_of(s).len() && #[trigger] required_of(s)[i]@ == k;
        lemma_prop_schema_decreases_all(s);
        assert(entry_index(o, required_of(s)[i]@) is Some);
        crate::in_place::lemma_sole_entry(o, k, j);
        assert(entry_value(o, k) == o[j].1);
        assert(enc_required(o, s, (i + 1) as nat) == enc_required(o, s, i as nat) + piece);
        lemma_required_prefix(o, s, (i + 1) as nat, n);
    } else {
        lemma_extra_entries(o, s);
        assert(x.contains(o[j]));
        let kk = choose|kk: int| 0 <= kk < x.len() && x[kk] == o[j];
        let xs = x.subrange(0, kk + 1);
        assert(xs.subrange(0, kk) =~= x.subrange(0, kk));
        assert(xs[kk] == o[j]);
        assert(enc_extras(xs, s) == enc_extras(x.subrange(0, kk), s) + key_bytes(o[j].0) + piece);
        lemma_extras_prefix(x, s, (kk + 1) as nat, x.len());
        assert(x.subrange(0, x.len() as int) =~= x);
    }
}

/// The bytes of an element, under its item schema, are fewer than those of
/// the typed array that holds it.
proof fn lemma_typed_element_smaller(a: Seq<Value>, s: Schema, i: int)
    requires
        0 <= i < a.len(),
    ensures
        enc_opt(a[i], item_schema(s, i)).len() < uvarint_bytes(adjusted_len(a.len(), s.min_items) as u64).len()
            + enc_items(a, s, a.len()).len(),
{
    lemma_uvarint_len(adjusted_len(a.len(), s.min_items) as u64);
    assert(enc_items(a, s, (i + 1) as nat) == enc_items(a, s, i as nat) + enc_opt(a[i], item_schema(s, i)));
    lemma_items_prefix(a, s, (i + 1) as nat, a.len());
}

/// The untyped bytes of an entry's value, or an element, are fewer than
/// those of the value that holds it.
proof fn lemma_untyped_child_smaller(w: Value, j: int)
    requires
        value_wf(w),
    ensures
        w is Object && 0 <= j < w->Object_0@.len() ==> enc_untyped(w->Object_0@[j].1).len() < enc_untyped(w).len(),
        w is Array && 0 <= j < w->Array_0@.len() ==> enc_untyped(w->Array_0@[j]).len() < enc_untyped(w).len(),
{
    let e0 = Seq::<u8>::empty();
    match w {
        Value::Object(o) => {
            if 0 <= j < o@.len() {
                crate::descent::lemma_member_starts(o@, e0, e0);
                assert(str_bytes(o@[j].0).len() <= u64::MAX && value_wf(o@[j].1));
                assert(untyped_members_from(e0 + enc_untyped_entries(o@) + e0, 0, o@.len())[j].1 >= 0);
            }
        },
        Value::Array(a) => {
            if 0 <= j < a@.len() {
                crate::descent::lemma_element_starts(a@, e0, e0);
                assert(untyped_elements_from(e0 + enc_untyped_seq(a@) + e0, 0, a@.len())[j].0 >= 0);
            }
        },
        _ => {},
    }
}

/// How many values lie directly inside `w`: its entries' values, or its
/// elements.
pub open spec fn child_count(w: Value) -> int {
    match w {
        Value::Object(o) => o@.len() as int,
        Value::Array(a) => a@.len() as int,
        _ => 0,
    }
}

/// The `i`-th value directly inside `w`.
pub open spec fn child_at(w: Value, i: int) -> Value {
    match w {
        Value::Object(o) => o@[i].1,
        Value::Array(a) => a@[i],
        _ => w,
    }
}

/// The values `.**` selects from `w` at depth `level`: `w` itself where the
/// depth is selected, then, where the descent goes on, what it selects
/// inside each value directly inside `w`, in turn.
pub open spec fn sem_descend(w: Value, level: u8, lvl: Option<RecursiveLevel>) -> Seq<Value>
    decreases w, 1nat, 0nat,
{
    let (m, c) = level_of(lvl, level);
    let head = if m {
        seq![w]
    } else {
        Seq::empty()
    };
    if !c {
        head
    } else {
        head + sem_descend_from(w, 0, next_level(level), lvl)
    }
}

/// What `.**` selects inside the values directly inside `w`, from the
/// `i`-th on.
pub open spec fn sem_descend_from(w: Value, i: int, level: u8, lvl: Option<RecursiveLevel>) -> Seq<Value>
    decreases w, 0nat, child_count(w) - i,
{
    proof { lemma_value_children_decrease(w); }
    if 0 <= i < child_count(w) {
        sem_descend(child_at(w, i), level, lvl) + sem_descend_from(w, i + 1, level, lvl)
    } else {
        Seq::empty()
    }
}

/// A descent below children whose items hold the values inside `w` selects
/// what `.**` selects inside them.
#[verifier::spinoff_prover]
proof fn lemma_descend_all_hold(
    b: Seq<u8>,
    w: Value,
    bound: int,
    kids: Seq<(int, Option<Schema>)>,
    its: Seq<ItemView>,
    i: int,
    level: u8,
    lvl: Option<RecursiveLevel>,
)
    requires
        0 <= i <= kids.len(),
        kids.len() == its.len(),
        its.len() == child_count(w),
        forall|j: int| 0 <= j < its.len() ==> #[trigger] its[j] == ItemView::Enc(kids[j].0, dec_opt(b, kids[j].0, kids[j].1).1, kids[j].1),
        items_hold(b, its, Seq::new(its.len(), |j: int| child_at(w, j))),
        items_smaller(its, Seq::new(its.len(), |j: int| child_at(w, j)), bound),
    ensures
        items_hold(b, descend_all(b, bound, kids, i, level, lvl), sem_descend_from(w, i, level, lvl)),
    decreases w, 0nat, kids.len() - i,
{
    lemma_value_children_decrease(w);
    let cs = Seq::new(its.len(), |j: int| child_at(w, j));
    if i < kids.len() {
        let (st, ks) = kids[i];
        let c = child_at(w, i);
        assert(cs[i] == c);
        assert(item_holds(b, its[i], c) && item_open(its[i]));
        lemma_item_decodes(b, its[i], c);
        assert(enc_opt(c, ks).len() < bound);
        assert(span(b, st, ks) == enc_opt(c, ks).len());
        assert(decreases_to!(w => c));
        lemma_descend_hold(b, its[i], c, level, lvl);
        lemma_descend_all_hold(b, w, bound, kids, its, i + 1, level, lvl);
        lemma_items_hold_concat(b, descend(b, st, ks, level, lvl), sem_descend(c, level, lvl),
            descend_all(b, bound, kids, i + 1, level, lvl), sem_descend_from(w, i + 1, level, lvl));
    }
}

/// `.**` from an open item that holds `w` reaches items that hold what it
/// selects from `w`.
#[verifier::spinoff_prover]
#[verifier::rlimit(40)]
proof fn lemma_descend_hold(b: Seq<u8>, it: ItemView, w: Value, level: u8, lvl: Option<RecursiveLevel>)
    requires
        item_holds(b, it, w),
        item_open(it),
    ensures
        it matches ItemView::Enc(pos, _, s) && items_hold(b, descend(b, pos, s, level, lvl), sem_descend(w, level, lvl)),
    decreases w, 1nat, 0nat,
{
    let (pos, e, s) = match it {
        ItemView::Enc(p, e, s) => (p, e, s),
        _ => (0, 0, None),
    };
    lemma_item_decodes(b, it, w);
    let (m, c) = level_of(lvl, level);
    let head = if m { seq![ItemView::Enc(pos, dec_opt(b, pos, s).1, s)] } else { Seq::empty() };
    let hw = if m { seq![w] } else { Seq::<Value>::empty() };
    assert(items_hold(b, head, hw));
    if c && 0 <= pos <= b.len() {
        let n = span(b, pos, s);
        assert(n == enc_opt(w, s).len());
        let vm = visit_members(b, pos, s);
        let kids_m = vm.map_values(|mm: (Seq<char>, int, Option<Schema>)| (mm.1, mm.2));
        let es = elements(b, pos, s);
        let nl = next_level(level);
        lemma_members_hold(b, it, w);
        lemma_elements_hold(b, it, w);
        let dm = descend_all(b, n, kids_m, 0, nl, lvl);
        let de = descend_all(b, n, es, 0, nl, lvl);
        assert(descend(b, pos, s, level, lvl) == head + dm + de);
        let cs = Seq::new(child_count(w) as nat, |j: int| child_at(w, j));
        if w is Object {
            let its = member_items(b, vm);
            assert(cs =~= sem_step(w, Path::DotWildcard));
            assert forall|j: int| 0 <= j < its.len() implies #[trigger] its[j] == ItemView::Enc(kids_m[j].0, dec_opt(b, kids_m[j].0, kids_m[j].1).1, kids_m[j].1) by {}
            lemma_descend_all_hold(b, w, n, kids_m, its, 0, nl, lvl);
            assert(de =~= Seq::<ItemView>::empty());
            assert(items_hold(b, de, Seq::<Value>::empty()));
            lemma_items_hold_concat(b, head, hw, dm, sem_descend_from(w, 0, nl, lvl));
            lemma_items_hold_concat(b, head + dm, hw + sem_descend_from(w, 0, nl, lvl), de, Seq::<Value>::empty());
            assert(hw + sem_descend_from(w, 0, nl, lvl) + Seq::<Value>::empty() =~= hw + sem_descend_from(w, 0, nl, lvl));
        } else if w is Array {
            let its = element_items(b, es);
            assert(cs =~= w->Array_0@);
            assert forall|j: int| 0 <= j < its.len() implies #[trigger] its[j] == ItemView::Enc(es[j].0, dec_opt(b, es[j].0, es[j].1).1, es[j].1) by {}
            lemma_descend_all_hold(b, w, n, es, its, 0, nl, lvl);
            assert(vm.len() == 0);
            assert(dm =~= Seq::<ItemView>::empty());
            assert(items_hold(b, dm, Seq::<Value>::empty()));
            lemma_items_hold_concat(b, head, hw, dm, Seq::<Value>::empty());
            lemma_items_hold_concat(b, head + dm, hw + Seq::<Value>::empty(), de, sem_descend_from(w, 0, nl, lvl));
            assert(hw + Seq::<Value>::empty() =~= hw);
        } else {
            assert(vm.len() == 0);
            assert(dm =~= Seq::<ItemView>::empty());
            assert(de =~= Seq::<ItemView>::empty());
            assert(sem_descend_from(w, 0, nl, lvl) =~= Seq::<Value>::empty());
            assert(head + dm + de =~= head);
            assert(hw + sem_descend_from(w, 0, nl, lvl) =~= hw);
        }
    } else {
        if c {
            assert(item_holds(b, it, w));
            assert(false);
        }
    }
}

/// One covered segment from an open item that holds `w` reaches items that
/// hold what the segment selects from `w`.
proof fn lemma_step_hold(b: Seq<u8>, it: ItemView, w: Value, p: Path)
    requires
        item_holds(b, it, w),
        item_open(it),
        plain_step(p),
    ensures
        step(b, it, p) matches Some(items) && items_hold(b, items, sem_step(w, p)),
{
    if let Path::RecursiveDotWildcard(lvl) = p {
        lemma_descend_hold(b, it, w, 0, lvl);
    } else if p is DotWildcard {
        lemma_members_hold(b, it, w);
    } else if field_name(p) is Some {
        lemma_field_step(b, it, w, p);
        let items = step(b, it, p).unwrap();
        match field_value(w, field_name(p).unwrap()) {
            Some(x) => {
                assert(items_hold(b, items, seq![x]));
            },
            None => {},
        }
    } else {
        lemma_elements_hold(b, it, w);
        let (pos, s) = match it {
            ItemView::Enc(p0, _, s0) => (p0, s0),
            _ => (0, None),
        };
        match p {
            Path::BracketWildcard => {
                if !(w is Array) {
                    assert(items_hold(b, seq![it], seq![w]));
                }
            },
            Path::ArrayIndices(idx) => {
                if w is Array {
                    lemma_listed_hold(b, element_items(b, elements(b, pos, s)), w->Array_0@, idx@, 0);
                }
            },
            _ => {},
        }
    }
}

/// A covered segment from items that hold values reaches items that hold
/// what it selects from each, in turn.
proof fn lemma_step_all_hold(b: Seq<u8>, its: Seq<ItemView>, ws: Seq<Value>, p: Path, i: int)
    requires
        items_hold(b, its, ws),
        plain_step(p),
        0 <= i <= its.len(),
    ensures
        step_all(b, its, p, i) matches Some(r) && items_hold(b, r, sem_all(ws, p, i)),
    decreases its.len() - i,
{
    if i < its.len() {
        lemma_step_hold(b, its[i], ws[i], p);
        lemma_step_all_hold(b, its, ws, p, i + 1);
        lemma_items_hold_concat(b, step(b, its[i], p).unwrap(), sem_step(ws[i], p), step_all(b, its, p, i + 1).unwrap(), sem_all(ws, p, i + 1));
    }
}

/// Whether the segments from the `k`-th on are all covered.
pub open spec fn plain_steps(paths: Seq<Path>, k: int) -> bool {
    forall|j: int| k <= j < paths.len() ==> plain_step(#[trigger] paths[j])
}

/// Covered segments from items that hold values reach items that hold what
/// they select.
proof fn lemma_paths_hold(b: Seq<u8>, root: ItemView, its: Seq<ItemView>, ws: Seq<Value>, paths: Seq<Path>, k: int, top: bool)
    requires
        items_hold(b, its, ws),
        plain_steps(paths, k),
        0 <= k <= paths.len(),
    ensures
        sel_paths(b, root, its, paths, k, top) matches Some(r) && items_hold(b, r, sem_paths(ws, paths, k)),
    decreases paths.len() - k,
{
    if k < paths.len() {
        let p = paths[k];
        assert(plain_step(p));
        lemma_step_all_hold(b, its, ws, p, 0);
        let next = step_all(b, its, p, 0).unwrap();
        lemma_paths_hold(b, root, next, sem_all(ws, p, 0), paths, k + 1, top);
    }
}

/// A path of field names, `.*`, `[*]`, `[i, j, ...]` and `.**` segments after `$`
/// selects the same values, in the same order and with the same repeats,
/// from a value encoded under a schema it conforms to (one with no `const`
/// or `enum` in it) as from the same value without a schema: the values
/// `sem_paths` gives.
pub proof fn lemma_select_agrees(v: Value, s: Schema, jp: JsonPath)
    requires
        jp.paths@.len() >= 1,
        jp.paths@[0] is Root,
        plain_steps(jp.paths@, 1),
        enc_ok(v, s),
        conforms_exact(v, s),
        schema_open(s),
        value_wf(v),
    ensures
        selected(enc_schema(v, s), Some(s), jp) == selected(enc_untyped(v), None, jp),
        selected(enc_untyped(v), None, jp) == Some(sem_paths(seq![v], jp.paths@, 1).map_values(|x: Value| x@)),
{
    lemma_select_side(v, Some(s), jp);
    lemma_select_side(v, None, jp);
}

/// What such a path selects from one encoding.
proof fn lemma_select_side(v: Value, s: Option<Schema>, jp: JsonPath)
    requires
        jp.paths@.len() >= 1,
        jp.paths@[0] is Root,
        plain_steps(jp.paths@, 1),
        match s {
            Some(ss) => enc_ok(v, ss) && conforms_exact(v, ss) && schema_open(ss),
            None => value_wf(v),
        },
    ensures
        selected(enc_opt(v, s), s, jp) == Some(sem_paths(seq![v], jp.paths@, 1).map_values(|x: Value| x@)),
{
    let b = enc_opt(v, s);
    let paths = jp.paths@;
    let root = root_item(b, s);
    assert(b.subrange(0, b.len() as int) =~= b);
    assert(item_holds(b, root, v));
    assert(items_hold(b, seq![root], seq![v]));
    lemma_paths_hold(b, root, seq![root], seq![v], paths, 1, true);
    assert(sel_paths(b, root, seq![root], paths, 0, true) == sel_paths(b, root, seq![root], paths, 1, true));
    let r = sel_paths(b, root, seq![root], paths, 1, true).unwrap();
    let ws = sem_paths(seq![v], paths, 1);
    assert forall|j: int| 0 <= j < r.len() implies #[trigger] item_values(b, r)[j] == ws.map_values(|x: Value| x@)[j] by {
        lemma_item_decodes(b, r[j], ws[j]);
    }
    assert(item_values(b, r) =~= ws.map_values(|x: Value| x@));
}

/// A level range `{m to n}` selects exactly the depths from `m` to `n`,
/// both included, and the descent goes on while a selected depth may
/// still come; `{m to last}` selects every depth from `m` on; `{m}` selects
/// depth `m` alone.
pub proof fn lemma_level_check(r: RecursiveLevel, d: u8)
    ensures
        r.end matches Some(RecursiveLevelEnd::Index(n)) ==> level_check(r, d) == (r.start <= d && d <= n, d < r.start
            || d <= n),
        r.end matches Some(RecursiveLevelEnd::Last) ==> level_check(r, d) == (r.start <= d, true),
        r.end is None ==> level_check(r, d) == (d == r.start, d < r.start),
{
}

/// The values at depths `lo` to `hi` in `w`, which stands at depth `d`:
/// `w` itself where `d` is in range, then those inside each value directly
/// inside it, in document order.
pub open spec fn at_depths(w: Value, d: int, lo: int, hi: int) -> Seq<Value>
    decreases w, 1nat, 0nat,
{
    (if lo <= d && d <= hi { seq![w] } else { Seq::empty() }) + at_depths_from(w, 0, d + 1, lo, hi)
}

/// The values at depths `lo` to `hi` inside the values directly inside
/// `w`, from the `i`-th on, each standing at depth `d`.
pub open spec fn at_depths_from(w: Value, i: int, d: int, lo: int, hi: int) -> Seq<Value>
    decreases w, 0nat, child_count(w) - i,
{
    proof { lemma_value_children_decrease(w); }
    if 0 <= i < child_count(w) {
        at_depths(child_at(w, i), d, lo, hi) + at_depths_from(w, i + 1, d, lo, hi)
    } else {
        Seq::empty()
    }
}

/// Nothing lies at depths up to `hi` below depth `d` past `hi`.
proof fn lemma_at_depths_past(w: Value, d: int, lo: int, hi: int)
    requires
        d > hi,
    ensures
        at_depths(w, d, lo, hi) == Seq::<Value>::empty(),
        at_depths_from(w, 0, d, lo, hi) == Seq::<Value>::empty(),
    decreases w, 2nat,
{
    lemma_at_depths_from_past(w, 0, d, lo, hi);
    lemma_at_depths_from_past(w, 0, d + 1, lo, hi);
    assert(at_depths(w, d, lo, hi) =~= Seq::<Value>::empty());
}

proof fn lemma_at_depths_from_past(w: Value, i: int, d: int, lo: int, hi: int)
    requires
        d > hi,
        0 <= i,
    ensures
        at_depths_from(w, i, d, lo, hi) == Seq::<Value>::empty(),
    decreases w, 1nat, child_count(w) - i,
{
    lemma_value_children_decrease(w);
    if i < child_count(w) {
        assert(decreases_to!(w => child_at(w, i)));
        lemma_at_depths_past(child_at(w, i), d, lo, hi);
        lemma_at_depths_from_past(w, i + 1, d, lo, hi);
        assert(at_depths_from(w, i, d, lo, hi) =~= Seq::<Value>::empty());
    }
}

/// Whether a level bound selects exactly depths `lo` to `hi`, goes on only
/// below depths short of the largest, and stops only from `hi` on.
pub open spec fn selects_depths(lvl: Option<RecursiveLevel>, lo: int, hi: int) -> bool {
    forall|d: u8| {
        &&& (#[trigger] level_of(lvl, d)).0 == (lo <= d && d <= hi)
        &&& level_of(lvl, d).1 ==> d < 255
        &&& !level_of(lvl, d).1 ==> d >= hi
    }
}

/// Under such a bound, `.**` selects the values at depths `lo` to `hi`.
proof fn lemma_descend_depths(w: Value, d: u8, lvl: Option<RecursiveLevel>, lo: int, hi: int)
    requires
        selects_depths(lvl, lo, hi),
    ensures
        sem_descend(w, d, lvl) == at_depths(w, d as int, lo, hi),
    decreases w, 1nat, 0nat,
{
    let (m, c) = level_of(lvl, d);
    assert(level_of(lvl, d).0 == (lo <= d && d <= hi));
    if c {
        assert(next_level(d) == d + 1);
        lemma_descend_depths_from(w, 0, next_level(d), lvl, lo, hi);
    } else {
        lemma_at_depths_from_past(w, 0, d + 1, lo, hi);
    }
    assert(sem_descend(w, d, lvl) =~= at_depths(w, d as int, lo, hi));
}

proof fn lemma_descend_depths_from(w: Value, i: int, d: u8, lvl: Option<RecursiveLevel>, lo: int, hi: int)
    requires
        selects_depths(lvl, lo, hi),
        0 <= i,
    ensures
        sem_descend_from(w, i, d, lvl) == at_depths_from(w, i, d as int, lo, hi),
    decreases w, 0nat, child_count(w) - i,
{
    lemma_value_children_decrease(w);
    if i < child_count(w) {
        assert(decreases_to!(w => child_at(w, i)));
        lemma_descend_depths(child_at(w, i), d, lvl, lo, hi);
        lemma_descend_depths_from(w, i + 1, d, lvl, lo, hi);
    }
}

/// `$.**{m to n}` selects, from a value in the untyped form (or under a
/// schema it conforms to), exactly the values at depths `m` to `n`, both
/// included, in document order; `$.**{m}` those at depth `m`.
pub proof fn lemma_select_depths(v: Value, jp: JsonPath, r: RecursiveLevel)
    requires
        value_wf(v),
        jp.paths@.len() == 2,
        jp.paths@[0] is Root,
        jp.paths@[1] == Path::RecursiveDotWildcard(Some(r)),
        r.end matches Some(RecursiveLevelEnd::Index(n)) ==> n < 255,
        !(r.end matches Some(RecursiveLevelEnd::Last)),
    ensures
        ({
            let hi: int = match r.end {
                Some(RecursiveLevelEnd::Index(n)) => n as int,
                _ => r.start as int,
            };
            selected(enc_untyped(v), None, jp) == Some(at_depths(v, 0, r.start as int, hi).map_values(|x: Value| x@))
        }),
{
    let hi: int = match r.end {
        Some(RecursiveLevelEnd::Index(n)) => n as int,
        _ => r.start as int,
    };
    let lvl = Some(r);
    assert forall|d: u8| {
        &&& (#[trigger] level_of(lvl, d)).0 == (r.start <= d && d <= hi)
        &&& level_of(lvl, d).1 ==> d < 255
        &&& !level_of(lvl, d).1 ==> d >= hi
    } by {
        lemma_level_check(r, d);
    }
    lemma_select_side(v, None, jp);
    let paths = jp.paths@;
    lemma_descend_depths(v, 0, lvl, r.start as int, hi);
    assert(sem_all(seq![v], paths[1], 1) == Seq::<Value>::empty());
    assert(sem_all(seq![v], paths[1], 0) =~= sem_descend(v, 0, lvl));
    assert(sem_paths(sem_all(seq![v], paths[1], 0), paths, 2) == sem_all(seq![v], paths[1], 0));
}

} // verus!
