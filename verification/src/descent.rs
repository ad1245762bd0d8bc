//! A recursive descent `.**` over a value in the untyped form selects the
//! value and every value inside it, in document order.

use vstd::prelude::*;
use crate::value::{Value, ValueView, entry_views_of, lemma_entry_views_of, views_of, lemma_views_of};
use crate::spec_enc::{enc_untyped, enc_untyped_entries, enc_untyped_seq, key_bytes, str_bytes, TAG_ARRAY,
    TAG_OBJECT};
use crate::varint::{uvarint_bytes, lemma_uvarint_roundtrip};
use crate::roundtrip::{value_wf, lemma_enc_entries_front, lemma_enc_seq_front, lemma_key_roundtrip,
    lemma_untyped_roundtrip, lemma_value_children_decrease};
use crate::traverse::{members, elements, untyped_members_from, untyped_elements_from};
use crate::select_spec::{ItemView, item_values, descend, descend_all, visit_members, span};
use crate::types::Schema;

verus! {

/// A value and every value inside it, in document order: the value itself,
/// then those inside each member's value, or each element, in turn.
pub open spec fn subvalues(w: ValueView) -> Seq<ValueView>
    decreases w, 1nat, 0nat,
{
    seq![w] + match w {
        ValueView::Object(es) => entry_subvalues(es, 0),
        ValueView::Array(vs) => list_subvalues(vs, 0),
        _ => Seq::empty(),
    }
}

/// The values inside each of `vs` from index `i` on, in turn.
pub open spec fn list_subvalues(vs: Seq<ValueView>, i: int) -> Seq<ValueView>
    decreases vs, 0nat, vs.len() - i,
{
    if 0 <= i < vs.len() {
        subvalues(vs[i]) + list_subvalues(vs, i + 1)
    } else {
        Seq::empty()
    }
}

/// The values inside each entry's value of `es` from index `i` on, in turn.
pub open spec fn entry_subvalues(es: Seq<(Seq<char>, ValueView)>, i: int) -> Seq<ValueView>
    decreases es, 0nat, es.len() - i,
{
    if 0 <= i < es.len() {
        subvalues(es[i].1) + entry_subvalues(es, i + 1)
    } else {
        Seq::empty()
    }
}

/// The values inside each of the values `c` from index `i` on, in turn.
spec fn children_subvalues(c: Seq<Value>, i: int) -> Seq<ValueView>
    decreases c.len() - i,
{
    if 0 <= i < c.len() {
        subvalues(c[i]@) + children_subvalues(c, i + 1)
    } else {
        Seq::empty()
    }
}

proof fn lemma_list_children(a: Seq<Value>, i: int)
    requires
        0 <= i <= a.len(),
    ensures
        list_subvalues(views_of(a), i) == children_subvalues(a, i),
    decreases a.len() - i,
{
    lemma_views_of(a);
    if i < a.len() {
        lemma_list_children(a, i + 1);
    }
}

proof fn lemma_entry_children(o: Seq<(String, Value)>, i: int)
    requires
        0 <= i <= o.len(),
    ensures
        entry_subvalues(entry_views_of(o), i) == children_subvalues(o.map_values(|e: (String, Value)| e.1), i),
    decreases o.len() - i,
{
    lemma_entry_views_of(o);
    if i < o.len() {
        lemma_entry_children(o, i + 1);
    }
}

/// The bytes of `v` stand at `pos` in `b`.
pub open spec fn encoded_at(b: Seq<u8>, pos: int, v: Value) -> bool {
    &&& 0 <= pos
    &&& pos + enc_untyped(v).len() <= b.len()
    &&& b.subrange(pos, pos + enc_untyped(v).len()) == enc_untyped(v)
}

/// The untyped members of untyped entries start at the entries' values.
#[verifier::spinoff_prover]
#[verifier::rlimit(50)]
pub(crate) proof fn lemma_member_starts(s: Seq<(String, Value)>, pre: Seq<u8>, rest: Seq<u8>)
    requires
        forall|i: int|
            0 <= i < s.len() ==> str_bytes(#[trigger] s[i].0).len() <= u64::MAX && value_wf(s[i].1),
    ensures
        ({
            let b = pre + enc_untyped_entries(s) + rest;
            let ms = untyped_members_from(b, pre.len() as int, s.len());
            &&& ms.len() == s.len()
            &&& forall|j: int|
                0 <= j < s.len() ==> pre.len() <= (#[trigger] ms[j]).1 && encoded_at(b, ms[j].1, s[j].1)
                    && ms[j].1 + enc_untyped(s[j].1).len() <= pre.len() + enc_untyped_entries(s).len()
                    && ms[j].2 is None
        }),
    decreases s.len(),
{
    let b = pre + enc_untyped_entries(s) + rest;
    let ms = untyped_members_from(b, pre.len() as int, s.len());
    if s.len() > 0 {
        let t = s.subrange(1, s.len() as int);
        lemma_enc_entries_front(s);
        let k = s[0].0;
        let x = s[0].1;
        lemma_key_roundtrip(pre, k, enc_untyped(x) + enc_untyped_entries(t) + rest);
        assert(pre + key_bytes(k) + (enc_untyped(x) + enc_untyped_entries(t) + rest) =~= b);
        let pre2 = pre + key_bytes(k);
        lemma_untyped_roundtrip(x, pre2, enc_untyped_entries(t) + rest);
        assert(pre2 + enc_untyped(x) + (enc_untyped_entries(t) + rest) =~= b);
        let pre3 = pre2 + enc_untyped(x);
        assert(pre3 + enc_untyped_entries(t) + rest =~= b);
        assert forall|i: int| 0 <= i < t.len() implies str_bytes(#[trigger] t[i].0).len() <= u64::MAX && value_wf(t[i].1) by {
            assert(t[i] == s[i + 1]);
        }
        lemma_member_starts(t, pre3, rest);
        let mt = untyped_members_from(b, pre3.len() as int, t.len());
        assert(ms == seq![(k@, pre2.len() as int, None::<Schema>)] + mt);
        assert(b.subrange(pre2.len() as int, (pre2.len() + enc_untyped(x).len()) as int) =~= enc_untyped(x));
        assert(pre3.len() + enc_untyped_entries(t).len() == pre.len() + enc_untyped_entries(s).len());
        assert forall|j: int| 0 <= j < s.len() implies pre.len() <= (#[trigger] ms[j]).1 && encoded_at(b, ms[j].1, s[j].1)
            && ms[j].1 + enc_untyped(s[j].1).len() <= pre.len() + enc_untyped_entries(s).len() && ms[j].2 is None by {
            if j > 0 {
                assert(ms[j] == mt[j - 1]);
                assert(t[j - 1] == s[j]);
            }
        }
    }
}

/// The untyped elements of untyped values start at the values.
#[verifier::spinoff_prover]
#[verifier::rlimit(50)]
pub(crate) proof fn lemma_element_starts(s: Seq<Value>, pre: Seq<u8>, rest: Seq<u8>)
    requires
        forall|i: int| 0 <= i < s.len() ==> value_wf(#[trigger] s[i]),
    ensures
        ({
            let b = pre + enc_untyped_seq(s) + rest;
            let es = untyped_elements_from(b, pre.len() as int, s.len());
            &&& es.len() == s.len()
            &&& forall|j: int| 0 <= j < s.len() ==> pre.len() <= (#[trigger] es[j]).0 && encoded_at(b, es[j].0, s[j])
                && es[j].0 + enc_untyped(s[j]).len() <= pre.len() + enc_untyped_seq(s).len() && es[j].1 is None
        }),
    decreases s.len(),
{
    let b = pre + enc_untyped_seq(s) + rest;
    if s.len() > 0 {
        let t = s.subrange(1, s.len() as int);
        lemma_enc_seq_front(s);
        lemma_untyped_roundtrip(s[0], pre, enc_untyped_seq(t) + rest);
        assert(pre + enc_untyped(s[0]) + (enc_untyped_seq(t) + rest) =~= b);
        let pre2 = pre + enc_untyped(s[0]);
        assert(pre2 + enc_untyped_seq(t) + rest =~= b);
        assert forall|i: int| 0 <= i < t.len() implies value_wf(#[trigger] t[i]) by {
            assert(t[i] == s[i + 1]);
        }
        lemma_element_starts(t, pre2, rest);
        let es = untyped_elements_from(b, pre.len() as int, s.len());
        let et = untyped_elements_from(b, pre2.len() as int, t.len());
        assert(es == seq![(pre.len() as int, None::<Schema>)] + et);
        assert(b.subrange(pre.len() as int, (pre.len() + enc_untyped(s[0]).len()) as int) =~= enc_untyped(s[0]));
        assert(pre2.len() + enc_untyped_seq(t).len() == pre.len() + enc_untyped_seq(s).len());
        assert forall|j: int| 0 <= j < s.len() implies pre.len() <= (#[trigger] es[j]).0 && encoded_at(b, es[j].0, s[j])
            && es[j].0 + enc_untyped(s[j]).len() <= pre.len() + enc_untyped_seq(s).len() && es[j].1 is None by {
            if j > 0 {
                assert(es[j] == et[j - 1]);
                assert(t[j - 1] == s[j]);
            }
        }
    }
}

/// `item_values` of a concatenation is the concatenation.
proof fn lemma_item_values_concat(b: Seq<u8>, x: Seq<ItemView>, y: Seq<ItemView>)
    ensures
        item_values(b, x + y) == item_values(b, x) + item_values(b, y),
{
    assert(item_values(b, x + y) =~= item_values(b, x) + item_values(b, y));
}

/// Descending below each child from index `i` on selects what lies inside
/// each child in turn.
proof fn lemma_descend_children(
    b: Seq<u8>,
    v: Value,
    bound: int,
    kids: Seq<(int, Option<Schema>)>,
    c: Seq<Value>,
    i: int,
    level: u8,
)
    requires
        0 <= i <= c.len(),
        kids.len() == c.len(),
        forall|j: int| 0 <= j < c.len() ==> decreases_to!(v => #[trigger] c[j]),
        forall|j: int|
            0 <= j < c.len() ==> (#[trigger] kids[j]).1 is None && encoded_at(b, kids[j].0, c[j]) && value_wf(c[j])
                && enc_untyped(c[j]).len() < bound,
    ensures
        item_values(b, descend_all(b, bound, kids, i, level, None)) == children_subvalues(c, i),
    decreases v, 0nat, c.len() - i,
{
    if i < c.len() {
        assert(decreases_to!(v => c[i]));
        let (st, cs) = kids[i];
        let pre = b.subrange(0, st);
        let rest = b.subrange(st + enc_untyped(c[i]).len(), b.len() as int);
        assert(b =~= pre + enc_untyped(c[i]) + rest);
        lemma_untyped_roundtrip(c[i], pre, rest);
        assert(span(b, st, cs) == enc_untyped(c[i]).len());
        lemma_descend_untyped(b, st, c[i], level);
        lemma_descend_children(b, v, bound, kids, c, i + 1, level);
        lemma_item_values_concat(b, descend(b, st, None, level, None), descend_all(b, bound, kids, i + 1, level, None));
    } else {
        assert(item_values(b, descend_all(b, bound, kids, i, level, None)) =~= Seq::<ValueView>::empty());
    }
}

/// The children a descent visits below the value at `pos` in the untyped
/// form: its members' values, then its elements.
spec fn member_kids(b: Seq<u8>, pos: int) -> Seq<(int, Option<Schema>)> {
    visit_members(b, pos, None).map_values(|m: (Seq<char>, int, Option<Schema>)| (m.1, m.2))
}

/// Below an object, a descent visits each member's value in turn.
#[verifier::spinoff_prover]
proof fn lemma_descend_object(b: Seq<u8>, pos: int, v: Value, level: u8)
    requires
        v is Object,
        value_wf(v),
        encoded_at(b, pos, v),
    ensures
        item_values(b, descend_all(b, enc_untyped(v).len() as int, member_kids(b, pos), 0, level, None))
            == entry_subvalues(entry_views_of(v->Object_0@), 0),
        elements(b, pos, None).len() == 0,
    decreases v, 0nat, v->Object_0@.len() + 1,
{
    let e = enc_untyped(v);
    let pre = b.subrange(0, pos);
    let rest = b.subrange(pos + e.len(), b.len() as int);
    assert(b =~= pre + e + rest);
    lemma_value_children_decrease(v);
    let o = v->Object_0@;
    let u = uvarint_bytes(o.len() as u64);
    let en = enc_untyped_entries(o);
    let pre1 = pre.push(TAG_OBJECT);
    lemma_uvarint_roundtrip(pre1, o.len() as u64, en + rest);
    assert(pre1 + u + (en + rest) =~= b);
    let pre2 = pre1 + u;
    assert(pre2 + en + rest =~= b);
    assert(b[pos] == TAG_OBJECT);
    lemma_member_starts(o, pre2, rest);
    let full = untyped_members_from(b, pre2.len() as int, o.len());
    assert(members(b, pos, None) == full);
    let ks = member_kids(b, pos);
    let c = o.map_values(|x: (String, Value)| x.1);
    assert(pre2.len() + en.len() == pos + e.len());
    assert forall|j: int| 0 <= j < c.len() implies decreases_to!(v => #[trigger] c[j]) by {
        assert(c[j] == o[j].1);
    }
    assert forall|j: int| 0 <= j < c.len() implies (#[trigger] ks[j]).1 is None && encoded_at(b, ks[j].0, c[j]) && value_wf(c[j])
        && enc_untyped(c[j]).len() < e.len() by {
        assert(c[j] == o[j].1);
        assert(ks[j] == (full[j].1, full[j].2));
        assert(str_bytes(o[j].0).len() <= u64::MAX && value_wf(o[j].1));
        assert(pre2.len() <= full[j].1);
        assert(encoded_at(b, full[j].1, o[j].1));
    }
    lemma_descend_children(b, v, e.len() as int, ks, c, 0, level);
    lemma_entry_children(o, 0);
}

/// Below an array, a descent visits each element in turn.
#[verifier::spinoff_prover]
proof fn lemma_descend_array(b: Seq<u8>, pos: int, v: Value, level: u8)
    requires
        v is Array,
        value_wf(v),
        encoded_at(b, pos, v),
    ensures
        item_values(b, descend_all(b, enc_untyped(v).len() as int, elements(b, pos, None), 0, level, None))
            == list_subvalues(views_of(v->Array_0@), 0),
        members(b, pos, None).len() == 0,
    decreases v, 0nat, v->Array_0@.len() + 1,
{
    let e = enc_untyped(v);
    let pre = b.subrange(0, pos);
    let rest = b.subrange(pos + e.len(), b.len() as int);
    assert(b =~= pre + e + rest);
    lemma_value_children_decrease(v);
    let a = v->Array_0@;
    let u = uvarint_bytes(a.len() as u64);
    let en = enc_untyped_seq(a);
    let pre1 = pre.push(TAG_ARRAY);
    lemma_uvarint_roundtrip(pre1, a.len() as u64, en + rest);
    assert(pre1 + u + (en + rest) =~= b);
    let pre2 = pre1 + u;
    assert(pre2 + en + rest =~= b);
    assert(b[pos] == TAG_ARRAY);
    lemma_element_starts(a, pre2, rest);
    let es = elements(b, pos, None);
    assert(es == untyped_elements_from(b, pre2.len() as int, a.len()));
    assert(pre2.len() + en.len() == pos + e.len());
    assert forall|j: int| 0 <= j < a.len() implies (#[trigger] es[j]).1 is None && encoded_at(b, es[j].0, a[j]) && value_wf(a[j])
        && enc_untyped(a[j]).len() < e.len() by {
    }
    lemma_descend_children(b, v, e.len() as int, es, a, 0, level);
    lemma_list_children(a, 0);
}

/// `.**` from a well-formed value whose untyped bytes stand at `pos`
/// selects the value and every value inside it, in document order.
#[verifier::spinoff_prover]
pub proof fn lemma_descend_untyped(b: Seq<u8>, pos: int, v: Value, level: u8)
    requires
        value_wf(v),
        encoded_at(b, pos, v),
    ensures
        item_values(b, descend(b, pos, None, level, None)) == subvalues(v@),
    decreases v, 1nat, 0nat,
{
    let e = enc_untyped(v);
    let pre = b.subrange(0, pos);
    let rest = b.subrange(pos + e.len(), b.len() as int);
    assert(b =~= pre + e + rest);
    lemma_untyped_roundtrip(v, pre, rest);
    let head = seq![ItemView::Enc(pos, pos + e.len(), None::<Schema>)];
    assert(item_values(b, head) =~= seq![v@]);
    let n = span(b, pos, None);
    assert(n == e.len());
    let ks = member_kids(b, pos);
    let es = elements(b, pos, None);
    let nl = crate::select_spec::next_level(level);
    let dm = descend_all(b, n, ks, 0, nl, None);
    let de = descend_all(b, n, es, 0, nl, None);
    assert(descend(b, pos, None, level, None) == head + dm + de);
    lemma_item_values_concat(b, head, dm);
    lemma_item_values_concat(b, head + dm, de);
    assert(item_values(b, Seq::<ItemView>::empty()) =~= Seq::<ValueView>::empty());
    assert(b[pos] == e[0]);
    if v is Object {
        lemma_descend_object(b, pos, v, nl);
        assert(de =~= Seq::<ItemView>::empty());
    } else if v is Array {
        lemma_descend_array(b, pos, v, nl);
        assert(ks.len() == 0);
        assert(dm =~= Seq::<ItemView>::empty());
    } else {
        assert(members(b, pos, None).len() == 0);
        assert(elements(b, pos, None).len() == 0);
        assert(ks.len() == 0);
        assert(dm =~= Seq::<ItemView>::empty());
        assert(de =~= Seq::<ItemView>::empty());
    }
}

} // verus!
