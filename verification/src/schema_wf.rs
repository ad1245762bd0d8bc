//! A schema read from its JSON form lists each property, and each required
//! name, once and in name order, at every depth.

use vstd::prelude::*;
use crate::value::ValueView;
use crate::types::SchemaView;
use crate::spec_dec::key_lt;
use crate::objects::lemma_key_order;
use crate::from_json::{
    empty_view, name_insert, prop_insert, names_of, json_schema, keywords, keyword, props_schemas,
    item_schemas,
};

verus! {

/// Names in strictly increasing order, so each once.
pub open spec fn names_sorted(n: Seq<Seq<char>>) -> bool {
    forall|i: int, j: int| 0 <= i < j < n.len() ==> key_lt(#[trigger] n[i], #[trigger] n[j])
}

/// Named schemas in strictly increasing name order, so each name once.
pub open spec fn props_sorted(p: Seq<(Seq<char>, SchemaView)>) -> bool {
    forall|i: int, j: int| 0 <= i < j < p.len() ==> key_lt(#[trigger] p[i].0, #[trigger] p[j].0)
}

/// A schema whose `properties` list each name once, in order, whose
/// `required` list each name once, in order, and whose inner schemas are
/// the same.
pub open spec fn schema_view_wf(sv: SchemaView) -> bool
    decreases sv, 1nat,
{
    &&& sv.properties matches Some(p) ==> props_sorted(p) && props_wf(p)
    &&& sv.required matches Some(r) ==> names_sorted(r)
    &&& sv.prefix_items matches Some(a) ==> list_wf(a)
    &&& sv.items matches Some(b) ==> schema_view_wf(*b)
}

/// Each named schema of `p` is well-formed.
pub open spec fn props_wf(p: Seq<(Seq<char>, SchemaView)>) -> bool
    decreases p, 0nat,
{
    if p.len() == 0 {
        true
    } else {
        schema_view_wf(p[0].1) && props_wf(p.subrange(1, p.len() as int))
    }
}

/// Each schema of `a` is well-formed.
pub open spec fn list_wf(a: Seq<SchemaView>) -> bool
    decreases a, 0nat,
{
    if a.len() == 0 {
        true
    } else {
        schema_view_wf(a[0]) && list_wf(a.subrange(1, a.len() as int))
    }
}

/// `props_wf` holds exactly when each named schema is well-formed.
pub proof fn lemma_props_wf(p: Seq<(Seq<char>, SchemaView)>)
    ensures
        props_wf(p) <==> forall|i: int| 0 <= i < p.len() ==> #[trigger] schema_view_wf(p[i].1),
    decreases p.len(),
{
    if p.len() > 0 {
        let t = p.subrange(1, p.len() as int);
        lemma_props_wf(t);
        assert(props_wf(p) == (schema_view_wf(p[0].1) && props_wf(t)));
        if forall|i: int| 0 <= i < p.len() ==> #[trigger] schema_view_wf(p[i].1) {
            assert forall|i: int| 0 <= i < t.len() implies #[trigger] schema_view_wf(t[i].1) by {
                assert(t[i] == p[i + 1]);
            }
        }
        if props_wf(p) {
            assert forall|i: int| 0 <= i < p.len() implies #[trigger] schema_view_wf(p[i].1) by {
                if i > 0 {
                    assert(p[i] == t[i - 1]);
                }
            }
        }
    }
}

/// `list_wf` holds exactly when each schema is well-formed.
pub proof fn lemma_list_wf(a: Seq<SchemaView>)
    ensures
        list_wf(a) <==> forall|i: int| 0 <= i < a.len() ==> #[trigger] schema_view_wf(a[i]),
    decreases a.len(),
{
    if a.len() > 0 {
        let t = a.subrange(1, a.len() as int);
        lemma_list_wf(t);
        assert(list_wf(a) == (schema_view_wf(a[0]) && list_wf(t)));
        if forall|i: int| 0 <= i < a.len() ==> #[trigger] schema_view_wf(a[i]) {
            assert forall|i: int| 0 <= i < t.len() implies #[trigger] schema_view_wf(t[i]) by {
                assert(t[i] == a[i + 1]);
            }
        }
        if list_wf(a) {
            assert forall|i: int| 0 <= i < a.len() implies #[trigger] schema_view_wf(a[i]) by {
                if i > 0 {
                    assert(a[i] == t[i - 1]);
                }
            }
        }
    }
}

/// Putting a name into sorted names keeps them sorted; afterwards they
/// hold the new name and the old ones.
proof fn lemma_name_insert_sorted(m: Seq<Seq<char>>, k: Seq<char>)
    requires
        names_sorted(m),
    ensures
        names_sorted(name_insert(m, k)),
        forall|i: int|
            0 <= i < name_insert(m, k).len() ==> #[trigger] name_insert(m, k)[i] == k || m.contains(name_insert(m, k)[i]),
    decreases m.len(),
{
    let r = name_insert(m, k);
    if m.len() == 0 {
    } else if m[0] == k {
        assert forall|i: int| 0 <= i < r.len() implies #[trigger] r[i] == k || m.contains(r[i]) by {
            assert(m[i] == r[i]);
        }
    } else if key_lt(k, m[0]) {
        assert forall|i: int, j: int| 0 <= i < j < r.len() implies key_lt(#[trigger] r[i], #[trigger] r[j]) by {
            if i == 0 {
                lemma_key_order(k, m[0], m[j - 1]);
                if j - 1 > 0 {
                    assert(key_lt(m[0], m[j - 1]));
                }
            } else {
                assert(r[i] == m[i - 1] && r[j] == m[j - 1]);
            }
        }
        assert forall|i: int| 0 <= i < r.len() implies #[trigger] r[i] == k || m.contains(r[i]) by {
            if i > 0 {
                assert(r[i] == m[i - 1]);
            }
        }
    } else {
        let t = m.subrange(1, m.len() as int);
        assert forall|i: int, j: int| 0 <= i < j < t.len() implies key_lt(#[trigger] t[i], #[trigger] t[j]) by {
            assert(t[i] == m[i + 1] && t[j] == m[j + 1]);
        }
        lemma_name_insert_sorted(t, k);
        let rt = name_insert(t, k);
        assert(r == seq![m[0]] + rt);
        lemma_key_order(k, m[0], m[0]);
        assert forall|i: int| 0 <= i < rt.len() implies key_lt(m[0], #[trigger] rt[i]) by {
            if rt[i] != k {
                let j = choose|j: int| 0 <= j < t.len() && t[j] == rt[i];
                assert(t[j] == m[j + 1]);
            }
        }
        assert forall|i: int, j: int| 0 <= i < j < r.len() implies key_lt(#[trigger] r[i], #[trigger] r[j]) by {
            if i == 0 {
                assert(r[j] == rt[j - 1]);
            } else {
                assert(r[i] == rt[i - 1] && r[j] == rt[j - 1]);
            }
        }
        assert forall|i: int| 0 <= i < r.len() implies #[trigger] r[i] == k || m.contains(r[i]) by {
            if i == 0 {
                assert(m[0] == r[0]);
            } else {
                assert(r[i] == rt[i - 1]);
                if rt[i - 1] != k {
                    let j = choose|j: int| 0 <= j < t.len() && t[j] == rt[i - 1];
                    assert(m[j + 1] == t[j]);
                }
            }
        }
    }
}

/// Putting a named schema into sorted named schemas keeps them sorted;
/// afterwards they hold the new one and old ones.
proof fn lemma_prop_insert_sorted(m: Seq<(Seq<char>, SchemaView)>, k: Seq<char>, v: SchemaView)
    requires
        props_sorted(m),
    ensures
        props_sorted(prop_insert(m, k, v)),
        forall|i: int|
            0 <= i < prop_insert(m, k, v).len() ==> #[trigger] prop_insert(m, k, v)[i] == (k, v) || m.contains(
                prop_insert(m, k, v)[i],
            ),
    decreases m.len(),
{
    let r = prop_insert(m, k, v);
    if m.len() == 0 {
    } else if m[0].0 == k {
        assert forall|i: int, j: int| 0 <= i < j < r.len() implies key_lt(#[trigger] r[i].0, #[trigger] r[j].0) by {
            assert(r[j] == m[j]);
            if i > 0 {
                assert(r[i] == m[i]);
            }
        }
        assert forall|i: int| 0 <= i < r.len() implies #[trigger] r[i] == (k, v) || m.contains(r[i]) by {
            if i > 0 {
                assert(m[i] == r[i]);
            }
        }
    } else if key_lt(k, m[0].0) {
        assert forall|i: int, j: int| 0 <= i < j < r.len() implies key_lt(#[trigger] r[i].0, #[trigger] r[j].0) by {
            if i == 0 {
                lemma_key_order(k, m[0].0, m[j - 1].0);
                if j - 1 > 0 {
                    assert(key_lt(m[0].0, m[j - 1].0));
                }
            } else {
                assert(r[i] == m[i - 1] && r[j] == m[j - 1]);
            }
        }
        assert forall|i: int| 0 <= i < r.len() implies #[trigger] r[i] == (k, v) || m.contains(r[i]) by {
            if i > 0 {
                assert(r[i] == m[i - 1]);
            }
        }
    } else {
        let t = m.subrange(1, m.len() as int);
        assert forall|i: int, j: int| 0 <= i < j < t.len() implies key_lt(#[trigger] t[i].0, #[trigger] t[j].0) by {
            assert(t[i] == m[i + 1] && t[j] == m[j + 1]);
        }
        lemma_prop_insert_sorted(t, k, v);
        let rt = prop_insert(t, k, v);
        assert(r == seq![m[0]] + rt);
        lemma_key_order(k, m[0].0, m[0].0);
        assert forall|i: int| 0 <= i < rt.len() implies key_lt(m[0].0, #[trigger] rt[i].0) by {
            if rt[i] != (k, v) {
                let j = choose|j: int| 0 <= j < t.len() && t[j] == rt[i];
                assert(t[j] == m[j + 1]);
            }
        }
        assert forall|i: int, j: int| 0 <= i < j < r.len() implies key_lt(#[trigger] r[i].0, #[trigger] r[j].0) by {
            if i == 0 {
                assert(r[j] == rt[j - 1]);
            } else {
                assert(r[i] == rt[i - 1] && r[j] == rt[j - 1]);
            }
        }
        assert forall|i: int| 0 <= i < r.len() implies #[trigger] r[i] == (k, v) || m.contains(r[i]) by {
            if i == 0 {
                assert(m[0] == r[0]);
            } else {
                assert(r[i] == rt[i - 1]);
                if rt[i - 1] != (k, v) {
                    let j = choose|j: int| 0 <= j < t.len() && t[j] == rt[i - 1];
                    assert(m[j + 1] == t[j]);
                }
            }
        }
    }
}

/// The names of a `required` array come out sorted, each once.
proof fn lemma_names_of_sorted(a: Seq<ValueView>, i: int, acc: Seq<Seq<char>>)
    requires
        names_sorted(acc),
    ensures
        names_of(a, i, acc) matches Ok(ns) ==> names_sorted(ns),
    decreases a.len() - i,
{
    if 0 <= i < a.len() {
        if let ValueView::String(s) = a[i] {
            lemma_name_insert_sorted(acc, s);
            lemma_names_of_sorted(a, i + 1, name_insert(acc, s));
        }
    }
}

/// A schema read from its JSON form lists each property, and each required
/// name, once and in name order, and so do the schemas inside it.
pub proof fn lemma_json_schema_wf(v: ValueView)
    ensures
        json_schema(v) matches Ok(sv) ==> schema_view_wf(sv),
    decreases v, 0nat, 0nat,
{
    match v {
        ValueView::Object(m) => {
            lemma_keywords_wf(m, 0, empty_view());
        },
        _ => {},
    }
}

/// Applying keywords to a well-formed schema leaves it well-formed.
proof fn lemma_keywords_wf(m: Seq<(Seq<char>, ValueView)>, i: int, acc: SchemaView)
    requires
        schema_view_wf(acc),
    ensures
        keywords(m, i, acc) matches Ok(sv) ==> schema_view_wf(sv),
    decreases m, 2nat, m.len() - i,
{
    if 0 <= i < m.len() {
        assert(decreases_to!(m => m[i]));
        assert(decreases_to!(m[i] => m[i].1));
        lemma_keyword_wf(m[i].0, m[i].1, acc);
        if let Ok(next) = keyword(m[i].0, m[i].1, acc) {
            lemma_keywords_wf(m, i + 1, next);
        }
    }
}

/// Applying one keyword to a well-formed schema leaves it well-formed.
proof fn lemma_keyword_wf(k: Seq<char>, val: ValueView, acc: SchemaView)
    requires
        schema_view_wf(acc),
    ensures
        keyword(k, val, acc) matches Ok(sv) ==> schema_view_wf(sv),
    decreases val, 1nat, 0nat,
{
    if k == "properties"@ {
        if let ValueView::Object(ps) = val {
            lemma_props_schemas_wf(ps, 0, Seq::empty());
            lemma_props_wf(Seq::empty());
        }
    } else if k == "required"@ {
        if let ValueView::Array(a) = val {
            lemma_names_of_sorted(a, 0, Seq::empty());
        }
    } else if k == "prefixItems"@ {
        if let ValueView::Array(a) = val {
            lemma_item_schemas_wf(a, 0, Seq::empty());
            lemma_list_wf(Seq::empty());
        }
    } else if k == "items"@ {
        lemma_json_schema_wf(val);
    }
}

/// Reading the schemas of `properties` into sorted well-formed named
/// schemas leaves them sorted and well-formed.
proof fn lemma_props_schemas_wf(ps: Seq<(Seq<char>, ValueView)>, j: int, acc: Seq<(Seq<char>, SchemaView)>)
    requires
        props_sorted(acc),
        props_wf(acc),
    ensures
        props_schemas(ps, j, acc) matches Ok(m) ==> props_sorted(m) && props_wf(m),
    decreases ps, 0nat, ps.len() - j,
{
    if 0 <= j < ps.len() {
        assert(decreases_to!(ps => ps[j]));
        assert(decreases_to!(ps[j] => ps[j].1));
        lemma_json_schema_wf(ps[j].1);
        if let Ok(sv) = json_schema(ps[j].1) {
            lemma_prop_insert_sorted(acc, ps[j].0, sv);
            let r = prop_insert(acc, ps[j].0, sv);
            lemma_props_wf(acc);
            lemma_props_wf(r);
            assert forall|i: int| 0 <= i < r.len() implies #[trigger] schema_view_wf(r[i].1) by {
                if r[i] != (ps[j].0, sv) {
                    let q = choose|q: int| 0 <= q < acc.len() && acc[q] == r[i];
                }
            }
            lemma_props_schemas_wf(ps, j + 1, r);
        }
    }
}

/// Reading the schemas of `prefixItems` after well-formed schemas leaves
/// them well-formed.
proof fn lemma_item_schemas_wf(a: Seq<ValueView>, j: int, acc: Seq<SchemaView>)
    requires
        list_wf(acc),
    ensures
        item_schemas(a, j, acc) matches Ok(l) ==> list_wf(l),
    decreases a, 0nat, a.len() - j,
{
    if 0 <= j < a.len() {
        assert(decreases_to!(a => a[j]));
        lemma_json_schema_wf(a[j]);
        if let Ok(sv) = json_schema(a[j]) {
            let r = acc.push(sv);
            lemma_list_wf(acc);
            lemma_list_wf(r);
            assert forall|i: int| 0 <= i < r.len() implies #[trigger] schema_view_wf(r[i]) by {
                if i < acc.len() {
                    assert(r[i] == acc[i]);
                }
            }
            lemma_item_schemas_wf(a, j + 1, r);
        }
    }
}

} // verus!
