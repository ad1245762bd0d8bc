//! Decoding builds every object with its keys in strictly increasing
//! order, so each key once, at every depth.

use vstd::prelude::*;
use crate::value::ValueView;
use crate::types::{InstanceType, Schema, SingleOrVec};
use crate::objects::{keys_sorted, lemma_insert_sorted};
use crate::spec_dec::{
    obj_insert, dec_untyped, dec_untyped_items, dec_untyped_entries, dec_schema, dec_typed,
    dec_required, dec_extras, dec_items, advance,
};
use crate::spec_enc::{
    prop_schema, item_schema, required_of, props_of, prop_index, lemma_prop_index_bounds,
    lemma_prop_schema_decreases, lemma_item_schema_decreases,
};

verus! {

/// A view whose objects hold their keys in strictly increasing order, at
/// every depth.
pub open spec fn view_sorted(v: ValueView) -> bool
    decreases v, 1nat,
{
    match v {
        ValueView::Array(a) => items_sorted(a),
        ValueView::Object(m) => keys_sorted(m) && values_sorted(m),
        _ => true,
    }
}

/// Each view in `a` has its objects in order.
pub open spec fn items_sorted(a: Seq<ValueView>) -> bool
    decreases a, 0nat,
{
    if a.len() == 0 {
        true
    } else {
        view_sorted(a[0]) && items_sorted(a.subrange(1, a.len() as int))
    }
}

/// Each value of the entries `m` has its objects in order.
pub open spec fn values_sorted(m: Seq<(Seq<char>, ValueView)>) -> bool
    decreases m, 0nat,
{
    if m.len() == 0 {
        true
    } else {
        view_sorted(m[0].1) && values_sorted(m.subrange(1, m.len() as int))
    }
}

/// `items_sorted` holds exactly when each view has its objects in order.
pub proof fn lemma_items_sorted(a: Seq<ValueView>)
    ensures
        items_sorted(a) <==> forall|i: int| 0 <= i < a.len() ==> #[trigger] view_sorted(a[i]),
    decreases a.len(),
{
    if a.len() > 0 {
        let t = a.subrange(1, a.len() as int);
        lemma_items_sorted(t);
        assert(items_sorted(a) == (view_sorted(a[0]) && items_sorted(t)));
        if forall|i: int| 0 <= i < a.len() ==> #[trigger] view_sorted(a[i]) {
            assert forall|i: int| 0 <= i < t.len() implies #[trigger] view_sorted(t[i]) by {
                assert(t[i] == a[i + 1]);
            }
        }
        if items_sorted(a) {
            assert forall|i: int| 0 <= i < a.len() implies #[trigger] view_sorted(a[i]) by {
                if i > 0 {
                    assert(a[i] == t[i - 1]);
                }
            }
        }
    }
}

/// `values_sorted` holds exactly when each value has its objects in order.
pub proof fn lemma_values_sorted(m: Seq<(Seq<char>, ValueView)>)
    ensures
        values_sorted(m) <==> forall|i: int| 0 <= i < m.len() ==> #[trigger] view_sorted(m[i].1),
    decreases m.len(),
{
    if m.len() > 0 {
        let t = m.subrange(1, m.len() as int);
        lemma_values_sorted(t);
        assert(values_sorted(m) == (view_sorted(m[0].1) && values_sorted(t)));
        if forall|i: int| 0 <= i < m.len() ==> #[trigger] view_sorted(m[i].1) {
            assert forall|i: int| 0 <= i < t.len() implies #[trigger] view_sorted(t[i].1) by {
                assert(t[i] == m[i + 1]);
            }
        }
        if values_sorted(m) {
            assert forall|i: int| 0 <= i < m.len() implies #[trigger] view_sorted(m[i].1) by {
                if i > 0 {
                    assert(m[i] == t[i - 1]);
                }
            }
        }
    }
}

/// Object entries in key order whose values are in order too.
pub open spec fn entries_sorted(m: Seq<(Seq<char>, ValueView)>) -> bool {
    keys_sorted(m) && values_sorted(m)
}

/// A schema whose `const` and `enum` values, and those of the schemas
/// inside it, hold their keys in order.
pub open spec fn schema_values_sorted(s: Schema) -> bool
    decreases s,
{
    proof { lemma_schema_children_decrease(s); }
    &&& s.const_value matches Some(c) ==> view_sorted(c@)
    &&& s.enum_values matches Some(e) ==> forall|i: int| 0 <= i < e@.len() ==> view_sorted(#[trigger] e@[i]@)
    &&& s.properties matches Some(p) ==> forall|i: int|
        0 <= i < p@.len() ==> schema_values_sorted(#[trigger] p@[i].1)
    &&& s.prefix_items matches Some(p) ==> forall|i: int|
        0 <= i < p@.len() ==> schema_values_sorted(#[trigger] p@[i])
    &&& s.items matches Some(b) ==> schema_values_sorted(*b)
}

/// The schemas inside a schema lie below it.
pub proof fn lemma_schema_children_decrease(s: Schema)
    ensures
        s.properties is Some ==> forall|i: int|
            0 <= i < s.properties->Some_0@.len() ==> decreases_to!(s => #[trigger] s.properties->Some_0@[i].1),
        s.prefix_items is Some ==> forall|i: int|
            0 <= i < s.prefix_items->Some_0@.len() ==> decreases_to!(s => #[trigger] s.prefix_items->Some_0@[i]),
        s.items is Some ==> decreases_to!(s => *s.items->Some_0),
{
    if let Some(p) = s.properties {
        assert forall|i: int| 0 <= i < s.properties->Some_0@.len() implies decreases_to!(s => #[trigger] s.properties->Some_0@[i].1) by {
            assert(decreases_to!(s => s.properties));
            assert(decreases_to!(s.properties => s.properties->Some_0));
            assert(decreases_to!(s.properties->Some_0 => s.properties->Some_0@));
            assert(decreases_to!(s.properties->Some_0@ => s.properties->Some_0@[i]));
            assert(decreases_to!(s.properties->Some_0@[i] => s.properties->Some_0@[i].1));
        }
    }
    if let Some(p) = s.prefix_items {
        assert forall|i: int| 0 <= i < s.prefix_items->Some_0@.len() implies decreases_to!(s => #[trigger] s.prefix_items->Some_0@[i]) by {
            assert(decreases_to!(s => s.prefix_items));
            assert(decreases_to!(s.prefix_items => s.prefix_items->Some_0));
            assert(decreases_to!(s.prefix_items->Some_0 => s.prefix_items->Some_0@));
            assert(decreases_to!(s.prefix_items->Some_0@ => s.prefix_items->Some_0@[i]));
        }
    }
    if let Some(b) = s.items {
        assert(decreases_to!(s => s.items));
        assert(decreases_to!(s.items => s.items->Some_0));
    }
}

/// Putting an entry with an ordered value into ordered entries keeps them
/// ordered.
proof fn lemma_insert_entries_sorted(m: Seq<(Seq<char>, ValueView)>, k: Seq<char>, v: ValueView)
    requires
        entries_sorted(m),
        view_sorted(v),
    ensures
        entries_sorted(obj_insert(m, k, v)),
{
    lemma_insert_sorted(m, k, v);
    let r = obj_insert(m, k, v);
    lemma_values_sorted(m);
    lemma_values_sorted(r);
    assert forall|i: int| 0 <= i < r.len() implies #[trigger] view_sorted(r[i].1) by {
        assert(r.contains(r[i]));
        if r[i] != (k, v) {
            let j = choose|j: int| 0 <= j < m.len() && m[j] == r[i];
        }
    }
}

/// The untyped value at any position decodes with its objects in order.
pub proof fn lemma_untyped_sorted(b: Seq<u8>, pos: int)
    ensures
        view_sorted(dec_untyped(b, pos).0),
    decreases 2 * ((b.len() - pos) as nat) + 1, 0nat,
{
    if 0 <= pos < b.len() {
        let tag = b[pos];
        let p1 = pos + 1;
        let (len, p2) = crate::varint::read_uvarint_spec(b, p1);
        if tag == crate::spec_enc::TAG_ARRAY {
            let q = advance(b, p1, p2);
            lemma_untyped_items_sorted(b, q, len as nat);
            let items = dec_untyped_items(b, q, len as nat).0;
            lemma_items_sorted(items);
        } else if tag == crate::spec_enc::TAG_OBJECT {
            let q = advance(b, p1, p2);
            lemma_untyped_entries_sorted(b, q, len as nat, Seq::empty());
        }
    }
}

/// Untyped values in a row decode with their objects in order.
proof fn lemma_untyped_items_sorted(b: Seq<u8>, pos: int, n: nat)
    ensures
        forall|i: int|
            0 <= i < dec_untyped_items(b, pos, n).0.len() ==> #[trigger] view_sorted(dec_untyped_items(b, pos, n).0[i]),
    decreases 2 * ((b.len() - pos) as nat) + 2, n,
{
    if n > 0 && 0 <= pos <= b.len() {
        let (v, p1) = dec_untyped(b, pos);
        lemma_untyped_sorted(b, pos);
        let q = advance(b, pos, p1);
        lemma_untyped_items_sorted(b, q, (n - 1) as nat);
        let rest = dec_untyped_items(b, q, (n - 1) as nat).0;
        let all = dec_untyped_items(b, pos, n).0;
        assert(all == seq![v] + rest);
        assert forall|i: int| 0 <= i < all.len() implies #[trigger] view_sorted(all[i]) by {
            if i > 0 {
                assert(all[i] == rest[i - 1]);
            }
        }
    }
}

/// Untyped entries in a row, put into ordered entries, leave them ordered.
proof fn lemma_untyped_entries_sorted(b: Seq<u8>, pos: int, n: nat, m: Seq<(Seq<char>, ValueView)>)
    requires
        entries_sorted(m),
    ensures
        entries_sorted(dec_untyped_entries(b, pos, n, m).0),
    decreases 2 * ((b.len() - pos) as nat) + 2, n,
{
    if n > 0 && 0 <= pos <= b.len() {
        let (k, p1) = crate::spec_dec::dec_key(b, pos);
        let q = advance(b, pos, p1);
        let (v, p2) = dec_untyped(b, q);
        lemma_untyped_sorted(b, q);
        lemma_insert_entries_sorted(m, k, v);
        lemma_untyped_entries_sorted(b, advance(b, q, p2), (n - 1) as nat, obj_insert(m, k, v));
    }
}

/// A property schema of a schema whose values are in order has its values
/// in order.
proof fn lemma_prop_schema_sorted(s: Schema, k: Seq<char>)
    requires
        schema_values_sorted(s),
    ensures
        prop_schema(s, k) matches Some(ss) ==> schema_values_sorted(ss),
{
    lemma_prop_index_bounds(props_of(s), k);
    if let Some(j) = prop_index(props_of(s), k) {
        assert(props_of(s)[j].1 == s.properties->Some_0@[j].1);
    }
}

/// An item schema of a schema whose values are in order has its values in
/// order.
proof fn lemma_item_schema_sorted(s: Schema, i: int)
    requires
        schema_values_sorted(s),
    ensures
        item_schema(s, i) matches Some(ss) ==> schema_values_sorted(ss),
{
}

/// Decoding under a schema whose `const` and `enum` values hold their keys
/// in order gives a value whose objects hold their keys in order, each key
/// once, whatever the bytes.
pub proof fn lemma_decode_sorted(b: Seq<u8>, pos: int, s: Schema)
    requires
        schema_values_sorted(s),
    ensures
        view_sorted(dec_schema(b, pos, s).0),
    decreases s, 4nat, 0nat,
{
    if s.const_value is Some {
    } else if s.enum_values is Some {
        let (idx, p1) = crate::varint::read_uvarint_spec(b, pos);
        let e = s.enum_values.unwrap()@;
        if idx < e.len() {
            assert(view_sorted(e[idx as int]@));
        }
    } else {
        match s.instance_type {
            Some(SingleOrVec::Single(t)) => {
                lemma_typed_sorted(b, pos, t, s);
            },
            Some(SingleOrVec::Vec(ts)) => {
                lemma_untyped_sorted(b, pos);
            },
            None => {
                lemma_untyped_sorted(b, pos);
            },
        }
    }
}

/// Decoding a value of single type `t` gives its objects in order.
proof fn lemma_typed_sorted(b: Seq<u8>, pos: int, t: InstanceType, s: Schema)
    requires
        schema_values_sorted(s),
    ensures
        view_sorted(dec_typed(b, pos, t, s).0),
    decreases s, 3nat, 0nat,
{
    match t {
        InstanceType::Object => {
            lemma_required_sorted(b, pos, s, 0, Seq::empty());
            let (m, p1) = dec_required(b, pos, s, 0, Seq::empty());
            let (count, p2) = crate::varint::read_uvarint_spec(b, p1);
            lemma_extras_sorted(b, p2, s, count as nat, m);
        },
        InstanceType::Array => {
            let (len, p1) = crate::varint::read_uvarint_spec(b, pos);
            let n = crate::spec_dec::count_plus(len, s.min_items);
            lemma_dec_items_sorted(b, p1, s, 0, n);
            lemma_items_sorted(dec_items(b, p1, s, 0, n).0);
        },
        _ => {},
    }
}

/// Decoding the required properties from the `i`-th on keeps the entries
/// in order.
proof fn lemma_required_sorted(b: Seq<u8>, pos: int, s: Schema, i: nat, m: Seq<(Seq<char>, ValueView)>)
    requires
        schema_values_sorted(s),
        entries_sorted(m),
    ensures
        entries_sorted(dec_required(b, pos, s, i, m).0),
    decreases s, 2nat, required_of(s).len() - i,
{
    if i < required_of(s).len() {
        let k = required_of(s)[i as int]@;
        lemma_prop_schema_decreases(s, k);
        lemma_prop_schema_sorted(s, k);
        let (v, p1) = match prop_schema(s, k) {
            Some(ss) => dec_schema(b, pos, ss),
            None => dec_untyped(b, pos),
        };
        match prop_schema(s, k) {
            Some(ss) => lemma_decode_sorted(b, pos, ss),
            None => lemma_untyped_sorted(b, pos),
        }
        lemma_insert_entries_sorted(m, k, v);
        lemma_required_sorted(b, p1, s, i + 1, obj_insert(m, k, v));
    }
}

/// Decoding `n` extra entries keeps the entries in order.
proof fn lemma_extras_sorted(b: Seq<u8>, pos: int, s: Schema, n: nat, m: Seq<(Seq<char>, ValueView)>)
    requires
        schema_values_sorted(s),
        entries_sorted(m),
    ensures
        entries_sorted(dec_extras(b, pos, s, n, m).0),
    decreases s, 2nat, n,
{
    if n > 0 {
        let (k, p1) = crate::spec_dec::dec_key(b, pos);
        lemma_prop_schema_decreases(s, k);
        lemma_prop_schema_sorted(s, k);
        let (v, p2) = match prop_schema(s, k) {
            Some(ss) => dec_schema(b, p1, ss),
            None => dec_untyped(b, p1),
        };
        match prop_schema(s, k) {
            Some(ss) => lemma_decode_sorted(b, p1, ss),
            None => lemma_untyped_sorted(b, p1),
        }
        lemma_insert_entries_sorted(m, k, v);
        lemma_extras_sorted(b, p2, s, (n - 1) as nat, obj_insert(m, k, v));
    }
}

/// Decoding the array elements from the `i`-th up to `n` gives each with
/// its objects in order.
proof fn lemma_dec_items_sorted(b: Seq<u8>, pos: int, s: Schema, i: nat, n: nat)
    requires
        schema_values_sorted(s),
    ensures
        forall|j: int|
            0 <= j < dec_items(b, pos, s, i, n).0.len() ==> #[trigger] view_sorted(dec_items(b, pos, s, i, n).0[j]),
    decreases s, 2nat, n - i,
{
    if i < n {
        lemma_item_schema_decreases(s, i as int);
        lemma_item_schema_sorted(s, i as int);
        let (v, p1) = match item_schema(s, i as int) {
            Some(ss) => dec_schema(b, pos, ss),
            None => dec_untyped(b, pos),
        };
        match item_schema(s, i as int) {
            Some(ss) => lemma_decode_sorted(b, pos, ss),
            None => lemma_untyped_sorted(b, pos),
        }
        lemma_dec_items_sorted(b, p1, s, i + 1, n);
        let rest = dec_items(b, p1, s, i + 1, n).0;
        let all = dec_items(b, pos, s, i, n).0;
        assert(all == seq![v] + rest);
        assert forall|j: int| 0 <= j < all.len() implies #[trigger] view_sorted(all[j]) by {
            if j > 0 {
                assert(all[j] == rest[j - 1]);
            }
        }
    }
}

} // verus!
