//! Facts about object entries kept in key order.

use vstd::prelude::*;
use vstd::utf8::{encode_utf8, encode_utf8_decode_utf8};
use crate::value::ValueView;
use crate::text::{
    lemma_bytes_lt_asymmetric, lemma_bytes_lt_irreflexive, lemma_bytes_lt_total,
    lemma_bytes_lt_transitive,
};
use crate::spec_dec::{key_lt, obj_insert};

verus! {

/// Entries whose keys strictly increase.
pub open spec fn keys_sorted(m: Seq<(Seq<char>, ValueView)>) -> bool {
    forall|i: int, j: int| 0 <= i < j < m.len() ==> key_lt(#[trigger] m[i].0, #[trigger] m[j].0)
}

/// The key order is a strict total order.
pub proof fn lemma_key_order(a: Seq<char>, b: Seq<char>, c: Seq<char>)
    ensures
        !key_lt(a, a),
        key_lt(a, b) ==> !key_lt(b, a),
        key_lt(a, b) && key_lt(b, c) ==> key_lt(a, c),
        a != b ==> key_lt(a, b) || key_lt(b, a),
{
    lemma_bytes_lt_irreflexive(encode_utf8(a));
    lemma_bytes_lt_asymmetric(encode_utf8(a), encode_utf8(b));
    lemma_bytes_lt_transitive(encode_utf8(a), encode_utf8(b), encode_utf8(c));
    lemma_bytes_lt_total(encode_utf8(a), encode_utf8(b));
    encode_utf8_decode_utf8(a);
    encode_utf8_decode_utf8(b);
}

/// Putting an entry into sorted entries keeps them sorted; afterwards they
/// hold the new entry and those old entries with other keys.
pub proof fn lemma_insert_sorted(m: Seq<(Seq<char>, ValueView)>, k: Seq<char>, v: ValueView)
    requires
        keys_sorted(m),
    ensures
        keys_sorted(obj_insert(m, k, v)),
        forall|x: (Seq<char>, ValueView)|
            #[trigger] obj_insert(m, k, v).contains(x) <==> (x == (k, v) || (m.contains(x) && x.0 != k)),
    decreases m.len(),
{
    let r = obj_insert(m, k, v);
    if m.len() == 0 {
        assert forall|x: (Seq<char>, ValueView)| r.contains(x) <==> (x == (k, v) || (m.contains(x) && x.0 != k)) by {
            if r.contains(x) {
                let i = choose|i: int| 0 <= i < r.len() && r[i] == x;
            }
            if x == (k, v) {
                assert(r[0] == x);
            }
        }
    } else {
        let t = m.subrange(1, m.len() as int);
        let m0 = m[0];
        assert forall|i: int| 0 <= i < t.len() implies key_lt(m0.0, #[trigger] t[i].0) by {
            assert(t[i] == m[i + 1]);
        }
        assert forall|i: int, j: int| 0 <= i < j < t.len() implies key_lt(#[trigger] t[i].0, #[trigger] t[j].0) by {
            assert(t[i] == m[i + 1]);
            assert(t[j] == m[j + 1]);
        }
        assert forall|x: (Seq<char>, ValueView)| m.contains(x) <==> (x == m0 || t.contains(x)) by {
            if m.contains(x) {
                let i = choose|i: int| 0 <= i < m.len() && m[i] == x;
                if i > 0 {
                    assert(t[i - 1] == x);
                }
            }
            if t.contains(x) {
                let i = choose|i: int| 0 <= i < t.len() && t[i] == x;
                assert(m[i + 1] == x);
            }
            if x == m0 {
                assert(m[0] == x);
            }
        }
        if m0.0 == k {
            assert forall|x: (Seq<char>, ValueView)| t.contains(x) implies x.0 != k by {
                let i = choose|i: int| 0 <= i < t.len() && t[i] == x;
                lemma_key_order(m0.0, x.0, x.0);
            }
            assert forall|i: int, j: int| 0 <= i < j < r.len() implies key_lt(#[trigger] r[i].0, #[trigger] r[j].0) by {
                if i == 0 {
                    assert(r[j] == t[j - 1]);
                } else {
                    assert(r[i] == t[i - 1]);
                    assert(r[j] == t[j - 1]);
                }
            }
            assert forall|x: (Seq<char>, ValueView)| r.contains(x) <==> (x == (k, v) || (m.contains(x) && x.0 != k)) by {
                if r.contains(x) {
                    let i = choose|i: int| 0 <= i < r.len() && r[i] == x;
                    if i > 0 {
                        assert(t[i - 1] == x);
                    }
                }
                if x == (k, v) {
                    assert(r[0] == x);
                }
                if m.contains(x) && x.0 != k && x != m0 {
                    let i = choose|i: int| 0 <= i < t.len() && t[i] == x;
                    assert(r[i + 1] == x);
                }
            }
        } else if key_lt(k, m0.0) {
            assert forall|x: (Seq<char>, ValueView)| m.contains(x) implies x.0 != k by {
                let i = choose|i: int| 0 <= i < m.len() && m[i] == x;
                if i > 0 {
                    lemma_key_order(k, m0.0, x.0);
                    lemma_key_order(k, x.0, x.0);
                }
                lemma_key_order(k, m0.0, m0.0);
            }
            assert forall|i: int, j: int| 0 <= i < j < r.len() implies key_lt(#[trigger] r[i].0, #[trigger] r[j].0) by {
                if i == 0 {
                    assert(r[j] == m[j - 1]);
                    if j > 1 {
                        lemma_key_order(k, m0.0, m[j - 1].0);
                    }
                } else {
                    assert(r[i] == m[i - 1]);
                    assert(r[j] == m[j - 1]);
                }
            }
            assert forall|x: (Seq<char>, ValueView)| r.contains(x) <==> (x == (k, v) || (m.contains(x) && x.0 != k)) by {
                if r.contains(x) {
                    let i = choose|i: int| 0 <= i < r.len() && r[i] == x;
                    if i > 0 {
                        assert(m[i - 1] == x);
                        assert(m.contains(x));
                    }
                }
                if x == (k, v) {
                    assert(r[0] == x);
                    assert(r.contains(x));
                }
                if m.contains(x) && x.0 != k {
                    let i = choose|i: int| 0 <= i < m.len() && m[i] == x;
                    assert(r[i + 1] == x);
                    assert(r.contains(x));
                }
            }
        } else {
            lemma_key_order(m0.0, k, k);
            assert(key_lt(m0.0, k));
            lemma_insert_sorted(t, k, v);
            let rt = obj_insert(t, k, v);
            assert(r == seq![m0] + rt);
            assert forall|i: int| 0 <= i < rt.len() implies key_lt(m0.0, #[trigger] rt[i].0) by {
                assert(rt.contains(rt[i]));
                if rt[i] != (k, v) {
                    assert(t.contains(rt[i]));
                    let j = choose|j: int| 0 <= j < t.len() && t[j] == rt[i];
                    assert(key_lt(m0.0, t[j].0));
                }
            }
            assert forall|i: int, j: int| 0 <= i < j < r.len() implies key_lt(#[trigger] r[i].0, #[trigger] r[j].0) by {
                if i == 0 {
                    assert(r[j] == rt[j - 1]);
                } else {
                    assert(r[i] == rt[i - 1]);
                    assert(r[j] == rt[j - 1]);
                }
            }
            assert forall|x: (Seq<char>, ValueView)| r.contains(x) <==> (x == (k, v) || (m.contains(x) && x.0 != k)) by {
                if r.contains(x) {
                    let i = choose|i: int| 0 <= i < r.len() && r[i] == x;
                    if i > 0 {
                        assert(rt[i - 1] == x);
                        assert(rt.contains(x));
                    } else {
                        assert(x == m0);
                        assert(m[0] == x);
                        assert(m.contains(x));
                    }
                }
                if rt.contains(x) {
                    let i = choose|i: int| 0 <= i < rt.len() && rt[i] == x;
                    assert(r[i + 1] == x);
                    assert(r.contains(x));
                }
                if x == m0 {
                    assert(r[0] == x);
                    assert(r.contains(x));
                }
                if x == (k, v) {
                    assert(rt.contains(x));
                }
                if m.contains(x) && x.0 != k && x != m0 {
                    assert(t.contains(x));
                    assert(rt.contains(x));
                }
            }
        }
    }
}

/// Two sorted entry sequences that hold the same entries are equal.
pub proof fn lemma_sorted_unique(x: Seq<(Seq<char>, ValueView)>, y: Seq<(Seq<char>, ValueView)>)
    requires
        keys_sorted(x),
        keys_sorted(y),
        forall|e: (Seq<char>, ValueView)| x.contains(e) <==> y.contains(e),
    ensures
        x == y,
    decreases x.len(),
{
    if x.len() == 0 {
        if y.len() > 0 {
            assert(y.contains(y[0]));
        }
        assert(x =~= y);
    } else {
        assert(x.contains(x[0]));
        assert(y.contains(x[0]));
        let j = choose|j: int| 0 <= j < y.len() && y[j] == x[0];
        assert(y.contains(y[0]));
        let i = choose|i: int| 0 <= i < x.len() && x[i] == y[0];
        if i > 0 && j > 0 {
            lemma_key_order(x[0].0, y[0].0, y[0].0);
            assert(false);
        }
        assert(x[0] == y[0]);
        let xt = x.subrange(1, x.len() as int);
        let yt = y.subrange(1, y.len() as int);
        assert forall|e: (Seq<char>, ValueView)| xt.contains(e) <==> yt.contains(e) by {
            if xt.contains(e) {
                let a = choose|a: int| 0 <= a < xt.len() && xt[a] == e;
                assert(x[a + 1] == e);
                assert(x.contains(e));
                let b = choose|b: int| 0 <= b < y.len() && y[b] == e;
                lemma_key_order(x[0].0, e.0, e.0);
                if b == 0 {
                    assert(key_lt(x[0].0, x[a + 1].0));
                    assert(false);
                }
                assert(yt[b - 1] == e);
            }
            if yt.contains(e) {
                let a = choose|a: int| 0 <= a < yt.len() && yt[a] == e;
                assert(y[a + 1] == e);
                assert(y.contains(e));
                let b = choose|b: int| 0 <= b < x.len() && x[b] == e;
                lemma_key_order(y[0].0, e.0, e.0);
                if b == 0 {
                    assert(key_lt(y[0].0, y[a + 1].0));
                    assert(false);
                }
                assert(xt[b - 1] == e);
            }
        }
        assert forall|a: int, b: int| 0 <= a < b < xt.len() implies key_lt(#[trigger] xt[a].0, #[trigger] xt[b].0) by {
            assert(xt[a] == x[a + 1]);
            assert(xt[b] == x[b + 1]);
        }
        assert forall|a: int, b: int| 0 <= a < b < yt.len() implies key_lt(#[trigger] yt[a].0, #[trigger] yt[b].0) by {
            assert(yt[a] == y[a + 1]);
            assert(yt[b] == y[b + 1]);
        }
        lemma_sorted_unique(xt, yt);
        assert(x =~= seq![x[0]] + xt);
        assert(y =~= seq![y[0]] + yt);
    }
}

/// `m` with the entries of `l` put in, one after another.
pub open spec fn insert_all(m: Seq<(Seq<char>, ValueView)>, l: Seq<(Seq<char>, ValueView)>) -> Seq<(Seq<char>, ValueView)>
    decreases l.len(),
{
    if l.len() == 0 {
        m
    } else {
        insert_all(obj_insert(m, l[0].0, l[0].1), l.subrange(1, l.len() as int))
    }
}

/// Entries agree on the value of every key they share.
pub open spec fn consistent(a: Seq<(Seq<char>, ValueView)>) -> bool {
    forall|i: int, j: int| 0 <= i < a.len() && 0 <= j < a.len() && #[trigger] a[i].0 == #[trigger] a[j].0 ==> a[i] == a[j]
}

/// Putting consistent entries into sorted entries keeps them sorted and
/// leaves exactly the entries of both.
pub proof fn lemma_insert_all(m: Seq<(Seq<char>, ValueView)>, l: Seq<(Seq<char>, ValueView)>)
    requires
        keys_sorted(m),
        consistent(m + l),
    ensures
        keys_sorted(insert_all(m, l)),
        forall|x: (Seq<char>, ValueView)| #[trigger] insert_all(m, l).contains(x) <==> (m.contains(x) || l.contains(x)),
    decreases l.len(),
{
    if l.len() > 0 {
        let (k, v) = l[0];
        let m2 = obj_insert(m, k, v);
        let l2 = l.subrange(1, l.len() as int);
        lemma_insert_sorted(m, k, v);
        let c = m + l;
        assert(c[m.len() as int] == l[0]);
        // m2 holds exactly the entries of m and l[0]
        assert forall|x: (Seq<char>, ValueView)| m2.contains(x) <==> (m.contains(x) || x == l[0]) by {
            if m.contains(x) && x.0 == k {
                let i = choose|i: int| 0 <= i < m.len() && m[i] == x;
                assert(c[i] == x);
                assert(c[i].0 == c[m.len() as int].0);
            }
        }
        assert forall|i: int, j: int| 0 <= i < (m2 + l2).len() && 0 <= j < (m2 + l2).len() && #[trigger] (m2 + l2)[i].0 == #[trigger] (m2 + l2)[j].0 implies (m2 + l2)[i] == (m2 + l2)[j] by {
            let a = (m2 + l2)[i];
            let b = (m2 + l2)[j];
            assert(c.contains(a)) by {
                if i < m2.len() {
                    assert(m2.contains(a));
                    if m.contains(a) {
                        let ii = choose|ii: int| 0 <= ii < m.len() && m[ii] == a;
                        assert(c[ii] == a);
                    }
                } else {
                    assert(l[i - m2.len() + 1] == a);
                    assert(c[m.len() + i - m2.len() + 1] == a);
                }
            }
            assert(c.contains(b)) by {
                if j < m2.len() {
                    assert(m2.contains(b));
                    if m.contains(b) {
                        let jj = choose|jj: int| 0 <= jj < m.len() && m[jj] == b;
                        assert(c[jj] == b);
                    }
                } else {
                    assert(l[j - m2.len() + 1] == b);
                    assert(c[m.len() + j - m2.len() + 1] == b);
                }
            }
            let ia = choose|ia: int| 0 <= ia < c.len() && c[ia] == a;
            let ib = choose|ib: int| 0 <= ib < c.len() && c[ib] == b;
        }
        lemma_insert_all(m2, l2);
        assert forall|x: (Seq<char>, ValueView)| insert_all(m, l).contains(x) <==> (m.contains(x) || l.contains(x)) by {
            if l2.contains(x) {
                let i = choose|i: int| 0 <= i < l2.len() && l2[i] == x;
                assert(l[i + 1] == x);
            }
            if l.contains(x) {
                let i = choose|i: int| 0 <= i < l.len() && l[i] == x;
                if i > 0 {
                    assert(l2[i - 1] == x);
                }
            }
        }
    }
}

} // verus!
