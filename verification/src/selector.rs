//! Selecting values from an encoded buffer by a JSON path. With a schema
//! attached, the selector walks the schema-driven encoding directly: it
//! skips over values it does not need and decodes only the ones it returns
//! or compares.

use vstd::prelude::*;
use crate::value::{Number, Value, ValueView, views_of, make_int_number, Error};
use crate::types::Schema;
use crate::jsonpath::{
    ArrayIndex, BinaryOperator, Expr, JsonPath, Path, PathValue, RecursiveLevel, UnaryOperator,
    index_positions, is_predicate_spec,
};
use crate::spec_enc::{TAG_ARRAY, enc_schema, enc_ok, number_ok};
use crate::spec_dec::dec_schema;
use crate::text::{bytes_less};
use crate::traverse::{
    dec_opt, opt_schema, members, elements, members_view, members_end_ok,
    elements_view, elements_end_ok, object_members, array_elements, array_at, skip_value, Member,
    Element,
};
use crate::select_spec::{
    ItemView, Scalar, EvalView, ExprView, Order, scalar_of, schema_scalar_of, path_value_view,
    path_value_value, eval_scalar, int_order, bytes_order, scalar_order, compare_scalars,
    misses_multiple, literal_encodable, compare_eval, compare_row, compare_all, evals_of,
    eval_compare, item_evals, items_evals, eval_number, eval_numbers, operand_numbers,
    operand_number, arith, negate, negate_all, number_items, sel_paths, filter_items,
    filter_paths, eval_filter, expr_val, eval_expr, exec_path, root_item, item_value, item_values, member_items, element_items, field_items, 
    select_listed, descend, descend_all, step, insert_pos, sort_members, visit_members, span,
    step_all,
};

verus! {

/// An item reached by a path: a value encoded in the root buffer, or a
/// value an expression computed.
pub enum Item<'a> {
    Enc { start: usize, end: usize, schema: Option<&'a Schema> },
    Val(Value),
}

/// An item as its start, end and schema, or its value.
pub open spec fn item_view(it: Item<'_>) -> ItemView {
    match it {
        Item::Enc { start, end, schema } => ItemView::Enc(start as int, end as int, opt_schema(schema)),
        Item::Val(v) => ItemView::Val(v@),
    }
}

/// Items as their views.
pub open spec fn items_view(v: Seq<Item<'_>>) -> Seq<ItemView> {
    v.map_values(|i: Item<'_>| item_view(i))
}

/// Every encoded item lies within the buffer.
pub open spec fn items_in(b: Seq<u8>, v: Seq<Item<'_>>) -> bool {
    forall|j: int| 0 <= j < v.len() ==> match #[trigger] v[j] {
        Item::Enc { start, end, .. } => start <= end <= b.len(),
        Item::Val(_) => true,
    }
}

/// A copy of an item.
fn dup_item<'a>(it: &Item<'a>) -> (r: Item<'a>)
    ensures
        item_view(r) == item_view(*it),
        *it matches Item::Enc { start, end, .. } ==> r matches Item::Enc { start: s2, end: e2, .. } && s2 == start && e2 == end,
        *it is Val ==> r is Val,
{
    match it {
        Item::Enc { start, end, schema } => Item::Enc { start: *start, end: *end, schema: *schema },
        Item::Val(v) => Item::Val(v.duplicate()),
    }
}

/// Appends the items of members.
fn push_members<'a>(out: &mut Vec<Item<'a>>, ms: &Vec<Member<'a>>, Ghost(b): Ghost<Seq<u8>>)
    requires
        members_end_ok(b, ms@),
        items_in(b, old(out)@),
    ensures
        items_view(final(out)@) == items_view(old(out)@) + member_items(b, members_view(ms@)),
        items_in(b, final(out)@),
{
    let ghost base = items_view(out@);
    let mut i: usize = 0;
    while i < ms.len()
        invariant
            i <= ms@.len(),
            members_end_ok(b, ms@),
            items_view(out@) == base + member_items(b, members_view(ms@.subrange(0, i as int))),
            items_in(b, out@),
        decreases ms@.len() - i,
    {
        let m = &ms[i];
        let ghost before = out@;
        let it = Item::Enc { start: m.start, end: m.end, schema: m.schema };
        assert(ms@[i as int] == *m);
        out.push(it);
        proof {
            assert(out@ == before.push(it));
            assert(items_view(out@) =~= items_view(before).push(item_view(it)));
            assert(members_view(ms@.subrange(0, i + 1)) =~= members_view(ms@.subrange(0, i as int)).push(crate::traverse::member_view(ms@[i as int])));
            assert(member_items(b, members_view(ms@.subrange(0, i + 1))) =~= member_items(b, members_view(ms@.subrange(0, i as int))).push(item_view(it)));
        }
        i += 1;
    }
    assert(ms@.subrange(0, ms@.len() as int) =~= ms@);
}

/// Appends the items of elements.
fn push_elements<'a>(out: &mut Vec<Item<'a>>, es: &Vec<Element<'a>>, Ghost(b): Ghost<Seq<u8>>)
    requires
        elements_end_ok(b, es@),
        items_in(b, old(out)@),
    ensures
        items_view(final(out)@) == items_view(old(out)@) + element_items(b, elements_view(es@)),
        items_in(b, final(out)@),
{
    let ghost base = items_view(out@);
    let mut i: usize = 0;
    while i < es.len()
        invariant
            i <= es@.len(),
            elements_end_ok(b, es@),
            items_view(out@) == base + element_items(b, elements_view(es@.subrange(0, i as int))),
            items_in(b, out@),
        decreases es@.len() - i,
    {
        let e = &es[i];
        let ghost before = out@;
        let it = Item::Enc { start: e.start, end: e.end, schema: e.schema };
        assert(es@[i as int] == *e);
        out.push(it);
        proof {
            assert(out@ == before.push(it));
            assert(items_view(out@) =~= items_view(before).push(item_view(it)));
            assert(elements_view(es@.subrange(0, i + 1)) =~= elements_view(es@.subrange(0, i as int)).push(crate::traverse::element_view(es@[i as int])));
            assert(element_items(b, elements_view(es@.subrange(0, i + 1))) =~= element_items(b, elements_view(es@.subrange(0, i as int))).push(item_view(it)));
        }
        i += 1;
    }
    assert(es@.subrange(0, es@.len() as int) =~= es@);
}

/// The positions an array index selects lie inside the array.
proof fn lemma_positions_in(a: ArrayIndex, len: int)
    ensures
        forall|j: int| 0 <= j < index_positions(a, len).len() ==> 0 <= #[trigger] index_positions(a, len)[j] < len,
{
}

/// The encoded item of element `k`.
fn element_item<'a>(es: &Vec<Element<'a>>, k: usize, Ghost(b): Ghost<Seq<u8>>) -> (r: Item<'a>)
    requires
        k < es@.len(),
        elements_end_ok(b, es@),
    ensures
        item_view(r) == element_items(b, elements_view(es@))[k as int],
        r matches Item::Enc { start, end, .. } && start <= end <= b.len(),
{
    let e = &es[k];
    assert(es@[k as int] == *e);
    Item::Enc { start: e.start, end: e.end, schema: e.schema }
}

/// Appends the elements each array index selects, index by index.
fn push_listed<'a>(out: &mut Vec<Item<'a>>, es: &Vec<Element<'a>>, idx: &Vec<ArrayIndex>, Ghost(b): Ghost<Seq<u8>>)
    requires
        elements_end_ok(b, es@),
        items_in(b, old(out)@),
    ensures
        items_view(final(out)@) == items_view(old(out)@) + select_listed(element_items(b, elements_view(es@)), idx@, 0),
        items_in(b, final(out)@),
{
    let ghost all = element_items(b, elements_view(es@));
    let ghost base = items_view(out@);
    let n = es.len();
    let mut a: usize = 0;
    while a < idx.len()
        invariant
            a <= idx@.len(),
            n == es@.len(),
            all == element_items(b, elements_view(es@)),
            all.len() == n,
            elements_end_ok(b, es@),
            items_view(out@) + select_listed(all, idx@, a as int) == base + select_listed(all, idx@, 0),
            items_in(b, out@),
        decreases idx@.len() - a,
    {
        let ps = idx[a].to_indices(n);
        let ghost pos_seq = index_positions(idx@[a as int], n as int);
        proof { lemma_positions_in(idx@[a as int], n as int); }
        let ghost mid = items_view(out@);
        let mut j: usize = 0;
        while j < ps.len()
            invariant
                j <= ps@.len(),
                n == es@.len(),
                all == element_items(b, elements_view(es@)),
                all.len() == n,
                elements_end_ok(b, es@),
                ps@.map_values(|k: usize| k as int) == pos_seq,
                forall|t: int| 0 <= t < pos_seq.len() ==> 0 <= #[trigger] pos_seq[t] < n,
                items_view(out@) == mid + pos_seq.subrange(0, j as int).map_values(|k: int| all[k]),
                items_in(b, out@),
            decreases ps@.len() - j,
        {
            let k = ps[j];
            assert(pos_seq[j as int] == k as int);
            let ghost before = out@;
            let it = element_item(es, k, Ghost(b));
            out.push(it);
            proof {
                assert(items_view(out@) =~= items_view(before).push(item_view(it)));
                assert(pos_seq.subrange(0, j + 1).map_values(|k: int| all[k]) =~= pos_seq.subrange(0, j as int).map_values(|k: int| all[k]).push(all[k as int]));
            }
            j += 1;
        }
        proof {
            assert(pos_seq.subrange(0, pos_seq.len() as int) =~= pos_seq);
            assert(select_listed(all, idx@, a as int) == pos_seq.map_values(|k: int| all[k]) + select_listed(all, idx@, a + 1));
            assert(items_view(out@) + select_listed(all, idx@, a + 1) =~= mid + select_listed(all, idx@, a as int));
        }
        a += 1;
    }
}

/// Where a member keyed `k` goes into members `ms` kept in key order.
fn insert_pos_exec<'a>(ms: &Vec<Member<'a>>, k: &String) -> (j: usize)
    ensures
        j as int == insert_pos(members_view(ms@), k@, 0),
        j <= ms@.len(),
{
    let ghost mv = members_view(ms@);
    let mut j: usize = 0;
    while j < ms.len() && bytes_less(ms[j].key.as_str().as_bytes(), k.as_str().as_bytes())
        invariant
            j <= ms@.len(),
            mv == members_view(ms@),
            insert_pos(mv, k@, 0) == insert_pos(mv, k@, j as int),
        decreases ms@.len() - j,
    {
        assert(mv[j as int] == crate::traverse::member_view(ms@[j as int]));
        j += 1;
    }
    if j < ms.len() {
        assert(mv[j as int] == crate::traverse::member_view(ms@[j as int]));
    }
    j
}

/// Members put in key order (see `sort_members`).
fn sort_members_exec<'a>(ms: Vec<Member<'a>>, Ghost(b): Ghost<Seq<u8>>) -> (r: Vec<Member<'a>>)
    requires
        members_end_ok(b, ms@),
    ensures
        members_view(r@) == sort_members(members_view(ms@)),
        members_end_ok(b, r@),
{
    let ghost orig = ms@;
    let ghost n = orig.len();
    let mut ms = ms;
    let mut r: Vec<Member<'a>> = Vec::new();
    assert(members_view(orig.subrange(n as int, n as int)) =~= Seq::<(Seq<char>, int, Option<Schema>)>::empty());
    while ms.len() > 0
        invariant
            ms@.len() <= n,
            n == orig.len(),
            ms@ == orig.subrange(0, ms@.len() as int),
            members_end_ok(b, orig),
            members_view(r@) == sort_members(members_view(orig.subrange(ms@.len() as int, n as int))),
            members_end_ok(b, r@),
        decreases ms@.len(),
    {
        let ghost k: int = ms@.len() - 1;
        let m = ms.pop().unwrap();
        assert(m == orig[k]);
        let ghost rv = members_view(r@);
        let j = insert_pos_exec(&r, &m.key);
        let ghost old_r = r@;
        r.insert(j, m);
        proof {
            let tail = members_view(orig.subrange(k, n as int));
            assert(tail.subrange(1, tail.len() as int) =~= members_view(orig.subrange(k + 1, n as int)));
            assert(tail[0] == crate::traverse::member_view(m));
            assert(members_view(r@) =~= rv.insert(j as int, crate::traverse::member_view(m)));
            assert forall|x: int| 0 <= x < r@.len() implies (#[trigger] r@[x]).end as int == dec_opt(b, r@[x].start as int, opt_schema(r@[x].schema)).1
                && r@[x].start <= r@[x].end <= b.len() by {
                if x < j {
                    assert(r@[x] == old_r[x]);
                } else if x > j {
                    assert(r@[x] == old_r[x - 1]);
                }
            }
        }
    }
    assert(orig.subrange(0, n as int) =~= orig);
    r
}

/// The members that `.*` and `.**` visit (see `visit_members`).
fn visit_members_exec<'a>(buf: &[u8], pos: usize, schema: Option<&'a Schema>) -> (r: Vec<Member<'a>>)
    requires
        pos <= buf@.len(),
    ensures
        members_view(r@) == visit_members(buf@, pos as int, opt_schema(schema)),
        members_end_ok(buf@, r@),
{
    let ms = object_members(buf, pos, schema);
    if schema.is_some() {
        sort_members_exec(ms, Ghost(buf@))
    } else {
        ms
    }
}

/// Appends the values a recursive descent selects from the value at `pos`
/// under the optional schema, of depth `level`.
fn descend_into<'a>(
    buf: &'a [u8],
    pos: usize,
    schema: Option<&'a Schema>,
    level: u8,
    lvl: Option<RecursiveLevel>,
    out: &mut Vec<Item<'a>>,
)
    requires
        pos <= buf@.len(),
        items_in(buf@, old(out)@),
    ensures
        items_view(final(out)@) == items_view(old(out)@) + descend(buf@, pos as int, opt_schema(schema), level, lvl),
        items_in(buf@, final(out)@),
    decreases span(buf@, pos as int, opt_schema(schema)), 1nat,
{
    let ghost s = opt_schema(schema);
    let (m, c) = match lvl {
        Some(r) => r.check_recursive_level(level),
        None => (true, true),
    };
    let ghost base = items_view(out@);
    let mut p = pos;
    skip_value(buf, &mut p, schema);
    if m {
        let ghost before = out@;
        let it = Item::Enc { start: pos, end: p, schema };
        out.push(it);
        assert(items_view(out@) =~= items_view(before).push(item_view(it)));
    }
    let ghost head = items_view(out@).subrange(base.len() as int, items_view(out@).len() as int);
    assert(items_view(out@) =~= base + head);
    if !c {
        return;
    }
    let nl: u8 = if level < 255 { level + 1 } else { 255 };
    let n: usize = p - pos;
    let ms = visit_members_exec(buf, pos, schema);
    let ghost mkids = visit_members(buf@, pos as int, s).map_values(|m: (Seq<char>, int, Option<Schema>)| (m.1, m.2));
    let ghost mid = items_view(out@);
    let mut i: usize = 0;
    while i < ms.len()
        invariant
            i <= ms@.len(),
            pos <= buf@.len(),
            n as int == span(buf@, pos as int, s),
            s == opt_schema(schema),
            members_view(ms@) == visit_members(buf@, pos as int, s),
            members_end_ok(buf@, ms@),
            mkids == visit_members(buf@, pos as int, s).map_values(|m: (Seq<char>, int, Option<Schema>)| (m.1, m.2)),
            items_view(out@) + descend_all(buf@, n as int, mkids, i as int, nl, lvl) == mid + descend_all(buf@, n as int, mkids, 0, nl, lvl),
            items_in(buf@, out@),
        decreases ms@.len() - i,
    {
        let st = ms[i].start;
        let cs = ms[i].schema;
        assert(mkids[i as int] == (st as int, opt_schema(cs)));
        let ghost before = items_view(out@);
        let mut q = st;
        skip_value(buf, &mut q, cs);
        if q - st < n {
            descend_into(buf, st, cs, nl, lvl, out);
        }
        assert(items_view(out@) + descend_all(buf@, n as int, mkids, i + 1, nl, lvl) =~= before + descend_all(buf@, n as int, mkids, i as int, nl, lvl));
        i += 1;
    }
    let es = array_elements(buf, pos, schema);
    let ghost ekids = elements(buf@, pos as int, s);
    let ghost mid2 = items_view(out@);
    let mut i: usize = 0;
    while i < es.len()
        invariant
            i <= es@.len(),
            pos <= buf@.len(),
            n as int == span(buf@, pos as int, s),
            s == opt_schema(schema),
            elements_view(es@) == ekids,
            ekids == elements(buf@, pos as int, s),
            elements_end_ok(buf@, es@),
            items_view(out@) + descend_all(buf@, n as int, ekids, i as int, nl, lvl) == mid2 + descend_all(buf@, n as int, ekids, 0, nl, lvl),
            items_in(buf@, out@),
        decreases es@.len() - i,
    {
        let st = es[i].start;
        let cs = es[i].schema;
        assert(ekids[i as int] == (st as int, opt_schema(cs)));
        let ghost before = items_view(out@);
        let mut q = st;
        skip_value(buf, &mut q, cs);
        if q - st < n {
            descend_into(buf, st, cs, nl, lvl, out);
        }
        assert(items_view(out@) + descend_all(buf@, n as int, ekids, i + 1, nl, lvl) =~= before + descend_all(buf@, n as int, ekids, i as int, nl, lvl));
        i += 1;
    }
    proof {
        assert(descend_all(buf@, n as int, mkids, ms@.len() as int, nl, lvl) =~= Seq::<ItemView>::empty());
        assert(descend_all(buf@, n as int, ekids, es@.len() as int, nl, lvl) =~= Seq::<ItemView>::empty());
        assert(items_view(out@) =~= base + head + descend_all(buf@, n as int, mkids, 0, nl, lvl) + descend_all(buf@, n as int, ekids, 0, nl, lvl));
    }
}

/// Adding an item that lies within the buffer keeps all items within it.
proof fn lemma_push_in(b: Seq<u8>, v: Seq<Item<'_>>, it: Item<'_>)
    requires
        items_in(b, v),
        item_in(b, it),
    ensures
        items_in(b, v.push(it)),
{
    assert forall|j: int| 0 <= j < v.push(it).len() implies match #[trigger] v.push(it)[j] {
        Item::Enc { start, end, .. } => start <= end <= b.len(),
        Item::Val(_) => true,
    } by {
        if j < v.len() {
            assert(v.push(it)[j] == v[j]);
        }
    }
}

/// The encoded item lies within the buffer.
pub open spec fn item_in(b: Seq<u8>, it: Item<'_>) -> bool {
    match it {
        Item::Enc { start, end, .. } => start <= end <= b.len(),
        Item::Val(_) => true,
    }
}

/// Appends the item of the first member keyed `name`.
fn push_field<'a>(out: &mut Vec<Item<'a>>, ms: &Vec<Member<'a>>, name: &String, Ghost(b): Ghost<Seq<u8>>)
    requires
        members_end_ok(b, ms@),
        items_in(b, old(out)@),
    ensures
        items_view(final(out)@) == items_view(old(out)@) + field_items(b, members_view(ms@), name@, 0),
        items_in(b, final(out)@),
{
    let ghost mv = members_view(ms@);
    let mut i: usize = 0;
    while i < ms.len()
        invariant
            i <= ms@.len(),
            mv == members_view(ms@),
            members_end_ok(b, ms@),
            field_items(b, mv, name@, 0) == field_items(b, mv, name@, i as int),
            out@ == old(out)@,
            items_in(b, out@),
        decreases ms@.len() - i,
    {
        let m = &ms[i];
        assert(ms@[i as int] == *m);
        if m.key == *name {
            let ghost before = out@;
            let it = Item::Enc { start: m.start, end: m.end, schema: m.schema };
            proof { lemma_push_in(b, before, it); }
            out.push(it);
            assert(items_view(out@) =~= items_view(before).push(item_view(it)));
            assert(field_items(b, mv, name@, i as int) =~= seq![item_view(it)]);
            return;
        }
        i += 1;
    }
    assert(field_items(b, mv, name@, i as int) =~= Seq::<ItemView>::empty());
    assert(items_view(out@) =~= items_view(old(out)@) + Seq::<ItemView>::empty());
}

/// Appends the items one segment (not a filter) reaches from an item;
/// false when the segment cannot stand there.
fn step_item<'a>(buf: &'a [u8], it: &Item<'a>, p: &Path, out: &mut Vec<Item<'a>>) -> (ok: bool)
    requires
        items_in(buf@, old(out)@),
        item_in(buf@, *it),
    ensures
        ok == step(buf@, item_view(*it), *p) is Some,
        ok ==> items_view(final(out)@) == items_view(old(out)@) + step(buf@, item_view(*it), *p).unwrap(),
        items_in(buf@, final(out)@),
{
    let ghost b = buf@;
    let ghost base = items_view(out@);
    match p {
        Path::Root | Path::Current | Path::FilterExpr(_) | Path::Expr(_) => {
            return false;
        },
        _ => {},
    }
    match it {
        Item::Val(_) => {
            match p {
                Path::BracketWildcard => {
                    let d = dup_item(it);
                    out.push(d);
                    assert(items_view(out@) =~= base.push(item_view(d)));
                },
                Path::RecursiveDotWildcard(lvl) => {
                    let (m, _) = match lvl {
                        Some(r) => r.check_recursive_level(0),
                        None => (true, true),
                    };
                    if m {
                        let d = dup_item(it);
                        out.push(d);
                        assert(items_view(out@) =~= base.push(item_view(d)));
                    } else {
                        assert(items_view(out@) =~= base + Seq::<ItemView>::empty());
                    }
                },
                _ => {
                    assert(items_view(out@) =~= base + Seq::<ItemView>::empty());
                },
            }
        },
        Item::Enc { start, end, schema } => {
            let start = *start;
            let schema = *schema;
            match p {
                Path::DotWildcard => {
                    let ms = visit_members_exec(buf, start, schema);
                    push_members(out, &ms, Ghost(b));
                },
                Path::RecursiveDotWildcard(lvl) => {
                    descend_into(buf, start, schema, 0, *lvl, out);
                },
                Path::BracketWildcard => {
                    if array_at(buf, start, schema) {
                        let es = array_elements(buf, start, schema);
                        push_elements(out, &es, Ghost(b));
                    } else {
                        let d = dup_item(it);
                        out.push(d);
                        assert(items_view(out@) =~= base.push(item_view(d)));
                    }
                },
                Path::ArrayIndices(idx) => {
                    if !array_at(buf, start, schema) {
                        assert(items_view(out@) =~= base + Seq::<ItemView>::empty());
                    } else {
                        let es = array_elements(buf, start, schema);
                        push_listed(out, &es, idx, Ghost(b));
                    }
                },
                Path::ColonField(n) | Path::DotField(n) | Path::ObjectField(n) => {
                    let ms = object_members(buf, start, schema);
                    push_field(out, &ms, n, Ghost(b));
                },
                _ => {
                    assert(items_view(out@) =~= base + Seq::<ItemView>::empty());
                },
            }
        },
    }
    true
}

/// The items one segment reaches from each item, in order; none when it
/// cannot stand at one of them.
fn step_items<'a>(buf: &'a [u8], items: &Vec<Item<'a>>, p: &Path) -> (r: Option<Vec<Item<'a>>>)
    requires
        items_in(buf@, items@),
    ensures
        r matches Some(v) ==> step_all(buf@, items_view(items@), *p, 0) == Some(items_view(v@)) && items_in(buf@, v@),
        r is None ==> step_all(buf@, items_view(items@), *p, 0) is None,
{
    let ghost iv = items_view(items@);
    let mut out: Vec<Item<'a>> = Vec::new();
    let mut i: usize = 0;
    while i < items.len()
        invariant
            i <= items@.len(),
            iv == items_view(items@),
            items_in(buf@, items@),
            items_in(buf@, out@),
            step_all(buf@, iv, *p, 0) == match step_all(buf@, iv, *p, i as int) {
                Some(rest) => Some(items_view(out@) + rest),
                None => None::<Seq<ItemView>>,
            },
        decreases items@.len() - i,
    {
        let ghost before = items_view(out@);
        assert(iv[i as int] == item_view(items@[i as int]));
        assert(item_in(buf@, items@[i as int]));
        if !step_item(buf, &items[i], p, &mut out) {
            return None;
        }
        proof {
            let r = step(buf@, iv[i as int], *p).unwrap();
            match step_all(buf@, iv, *p, i + 1) {
                Some(rest) => {
                    assert(items_view(out@) + rest =~= before + (r + rest));
                },
                None => {},
            }
        }
        i += 1;
    }
    assert(items_view(out@) + Seq::<ItemView>::empty() =~= items_view(out@));
    Some(out)
}

// ------------------------------------------------------------ comparing

/// A value as a filter compares it.
pub enum ScalarValue {
    Null,
    Bool(bool),
    Num(Number),
    Str(String),
    Container,
}

/// A compared value as its view.
pub open spec fn scalar_view(x: ScalarValue) -> Scalar {
    match x {
        ScalarValue::Null => Scalar::Null,
        ScalarValue::Bool(v) => Scalar::Bool(v),
        ScalarValue::Num(n) => Scalar::Num(n),
        ScalarValue::Str(s) => Scalar::Str(s@),
        ScalarValue::Container => Scalar::Container,
    }
}

/// A value to compare: a literal, a value read without a schema, or a
/// value encoded under a schema.
pub enum EvalValue<'a> {
    Lit(&'a PathValue),
    Dec(ScalarValue),
    Encoded(usize, usize, &'a Schema),
}

/// A value to compare as its view.
pub open spec fn eval_view(e: EvalValue<'_>) -> EvalView {
    match e {
        EvalValue::Lit(pv) => EvalView::Lit(*pv),
        EvalValue::Dec(x) => EvalView::Dec(scalar_view(x)),
        EvalValue::Encoded(p, q, s) => EvalView::Encoded(p as int, q as int, *s),
    }
}

/// Values to compare as their views.
pub open spec fn evals_view(v: Seq<EvalValue<'_>>) -> Seq<EvalView> {
    v.map_values(|e: EvalValue<'_>| eval_view(e))
}

/// Every encoded value to compare lies within the buffer.
pub open spec fn evals_in(b: Seq<u8>, v: Seq<EvalValue<'_>>) -> bool {
    forall|j: int| 0 <= j < v.len() ==> match #[trigger] v[j] {
        EvalValue::Encoded(p, q, _) => p <= q <= b.len(),
        _ => true,
    }
}

/// What an operand evaluates to.
pub enum ExprValue<'a> {
    Single(&'a PathValue),
    Many(Vec<EvalValue<'a>>),
}

/// An operand's value as its view.
pub open spec fn expr_view(e: ExprValue<'_>) -> ExprView {
    match e {
        ExprValue::Single(pv) => ExprView::Single(*pv),
        ExprValue::Many(v) => ExprView::Many(evals_view(v@)),
    }
}

/// The operand's encoded values lie within the buffer.
pub open spec fn expr_in(b: Seq<u8>, e: ExprValue<'_>) -> bool {
    match e {
        ExprValue::Single(_) => true,
        ExprValue::Many(v) => evals_in(b, v@),
    }
}

/// A value as compared, arrays and objects being containers.
fn scalar_of_value(v: Value) -> (r: ScalarValue)
    ensures
        scalar_view(r) == scalar_of(v@),
{
    match v {
        Value::Null => ScalarValue::Null,
        Value::Bool(x) => ScalarValue::Bool(x),
        Value::Number(n) => ScalarValue::Num(n),
        Value::String(s) => ScalarValue::Str(s),
        _ => ScalarValue::Container,
    }
}

/// A value decoded under a schema as compared: arrays and objects as null.
fn schema_scalar_of_value(v: Value) -> (r: ScalarValue)
    ensures
        scalar_view(r) == schema_scalar_of(v@),
{
    match v {
        Value::Null => ScalarValue::Null,
        Value::Bool(x) => ScalarValue::Bool(x),
        Value::Number(n) => ScalarValue::Num(n),
        Value::String(s) => ScalarValue::Str(s),
        _ => ScalarValue::Null,
    }
}

/// A literal as a value.
fn literal_value(pv: &PathValue) -> (v: Value)
    ensures
        v@ == path_value_view(*pv),
        v@ == path_value_value(*pv)@,
        !(v is Array) && !(v is Object),
        v matches Value::Number(n) ==> *pv == PathValue::Number(n),
{
    match pv {
        PathValue::Null => Value::Null,
        PathValue::Boolean(x) => Value::Bool(*x),
        PathValue::Number(n) => Value::Number(*n),
        PathValue::String(s) => Value::String(s.clone()),
    }
}

/// Decodes the value at `pos` under the optional schema.
fn decode_at(buf: &[u8], pos: usize, schema: Option<&Schema>) -> (v: Value)
    requires
        pos <= buf@.len(),
    ensures
        v@ == dec_opt(buf@, pos as int, opt_schema(schema)).0,
{
    let mut p = pos;
    match schema {
        Some(s) => crate::decoder::decode_schema(buf, &mut p, s),
        None => crate::decoder::decode_untyped_value(buf, &mut p),
    }
}

/// A value to compare, as compared.
fn eval_scalar_of<'a>(buf: &[u8], e: &EvalValue<'a>) -> (r: ScalarValue)
    requires
        evals_in(buf@, seq![*e]),
    ensures
        scalar_view(r) == eval_scalar(buf@, eval_view(*e)),
{
    match e {
        EvalValue::Lit(pv) => scalar_of_value(literal_value(pv)),
        EvalValue::Dec(x) => match x {
            ScalarValue::Null => ScalarValue::Null,
            ScalarValue::Bool(v) => ScalarValue::Bool(*v),
            ScalarValue::Num(n) => ScalarValue::Num(*n),
            ScalarValue::Str(s) => ScalarValue::Str(s.clone()),
            ScalarValue::Container => ScalarValue::Container,
        },
        EvalValue::Encoded(p, _, s) => {
            assert(seq![*e][0] == *e);
            schema_scalar_of_value(decode_at(buf, *p, Some(*s)))
        },
    }
}

/// Whether two byte strings are equal.
fn bytes_equal(a: &[u8], b: &[u8]) -> (r: bool)
    ensures
        r == (a@ == b@),
{
    if a.len() != b.len() {
        return false;
    }
    let mut i: usize = 0;
    while i < a.len()
        invariant
            i <= a@.len(),
            a@.len() == b@.len(),
            forall|j: int| 0 <= j < i ==> a@[j] == b@[j],
        decreases a@.len() - i,
    {
        if a[i] != b[i] {
            return false;
        }
        i += 1;
    }
    assert(a@ =~= b@);
    true
}

/// The order of two byte strings.
fn bytes_order_of(a: &[u8], b: &[u8]) -> (r: Order)
    ensures
        r == bytes_order(a@, b@),
{
    if bytes_less(a, b) {
        Order::Less
    } else if bytes_equal(a, b) {
        Order::Equal
    } else {
        Order::Greater
    }
}

/// The order of two integers.
fn int_order_of(a: i128, b: i128) -> (r: Order)
    ensures
        r == int_order(a as int, b as int),
{
    if a < b {
        Order::Less
    } else if a == b {
        Order::Equal
    } else {
        Order::Greater
    }
}

/// The order of two compared values of the same kind.
fn scalar_order_of(l: &ScalarValue, r: &ScalarValue) -> (o: Option<Order>)
    ensures
        o == scalar_order(scalar_view(*l), scalar_view(*r)),
{
    match (l, r) {
        (ScalarValue::Null, ScalarValue::Null) => Some(Order::Equal),
        (ScalarValue::Bool(x), ScalarValue::Bool(y)) => Some(int_order_of(if *x { 1 } else { 0 }, if *y { 1 } else { 0 })),
        (ScalarValue::Num(x), ScalarValue::Num(y)) => match (x.as_i128(), y.as_i128()) {
            (Some(i), Some(j)) => Some(int_order_of(i, j)),
            _ => None,
        },
        (ScalarValue::Str(x), ScalarValue::Str(y)) => Some(bytes_order_of(x.as_str().as_bytes(), y.as_str().as_bytes())),
        _ => None,
    }
}

/// Whether `p` is a prefix of `a`.
fn bytes_prefix(p: &[u8], a: &[u8]) -> (r: bool)
    ensures
        r == p@.is_prefix_of(a@),
{
    if p.len() > a.len() {
        return false;
    }
    let mut i: usize = 0;
    while i < p.len()
        invariant
            i <= p@.len(),
            p@.len() <= a@.len(),
            forall|j: int| 0 <= j < i ==> p@[j] == a@[j],
        decreases p@.len() - i,
    {
        if p[i] != a[i] {
            return false;
        }
        i += 1;
    }
    assert(p@ =~= a@.subrange(0, p@.len() as int));
    true
}

/// A comparison of two compared values.
fn compare_scalar_values(op: BinaryOperator, l: &ScalarValue, r: &ScalarValue) -> (res: Option<bool>)
    ensures
        res == compare_scalars(op, scalar_view(*l), scalar_view(*r)),
{
    if matches!(l, ScalarValue::Container) || matches!(r, ScalarValue::Container) {
        return None;
    }
    if op == BinaryOperator::StartsWith {
        return match (l, r) {
            (ScalarValue::Str(x), ScalarValue::Str(y)) => Some(bytes_prefix(y.as_str().as_bytes(), x.as_str().as_bytes())),
            _ => None,
        };
    }
    match scalar_order_of(l, r) {
        Some(o) => match op {
            BinaryOperator::Eq => Some(matches!(o, Order::Equal)),
            BinaryOperator::NotEq => Some(!matches!(o, Order::Equal)),
            BinaryOperator::Lt => Some(matches!(o, Order::Less)),
            BinaryOperator::Lte => Some(matches!(o, Order::Less) || matches!(o, Order::Equal)),
            BinaryOperator::Gt => Some(matches!(o, Order::Greater)),
            BinaryOperator::Gte => Some(matches!(o, Order::Greater) || matches!(o, Order::Equal)),
            _ => None,
        },
        None => if op == BinaryOperator::NotEq {
            Some(true)
        } else {
            None
        },
    }
}

/// `enum_index` finds a value by its view.
proof fn lemma_enum_index_view(e: Seq<Value>, v1: Value, v2: Value)
    requires
        v1@ == v2@,
    ensures
        crate::spec_enc::enum_index(e, v1) == crate::spec_enc::enum_index(e, v2),
    decreases e.len(),
{
    if e.len() > 0 {
        lemma_enum_index_view(e.subrange(1, e.len() as int), v1, v2);
    }
}

/// The encoding of a value that is neither an array nor an object depends
/// only on its view.
proof fn lemma_enc_scalar_view(v1: Value, v2: Value, s: Schema)
    requires
        v1@ == v2@,
        !(v1 is Array) && !(v1 is Object),
    ensures
        enc_schema(v1, s) == enc_schema(v2, s),
{
    if s.enum_values is Some {
        lemma_enum_index_view(s.enum_values.unwrap()@, v1, v2);
    }
    match (v1, v2) {
        (Value::String(a), Value::String(c)) => {
            assert(a@ == c@);
        },
        _ => {},
    }
}

/// A value that is neither an array nor an object can be encoded when its
/// number, if any, can.
proof fn lemma_scalar_enc_ok(v: Value, s: Schema)
    requires
        !(v is Array) && !(v is Object),
        v matches Value::Number(n) ==> number_ok(n, s),
    ensures
        enc_ok(v, s),
{
}

/// Whether a numeric literal misses the schema's `multipleOf`.
fn misses_multiple_of(s: &Schema, pv: &PathValue) -> (r: bool)
    ensures
        r == misses_multiple(*s, *pv),
{
    match (s.multiple_of, pv) {
        (Some(mul), PathValue::Number(n)) => match n.as_i128() {
            Some(i) => {
                if mul == 0 || (i == i128::MIN && mul == -1) {
                    false
                } else {
                    i.checked_rem(mul).unwrap() != 0
                }
            },
            None => false,
        },
        _ => false,
    }
}

/// A comparison of two values to compare; equality of a schema-encoded
/// value with a literal is first decided on the encoding.
fn compare_eval_values<'a>(buf: &[u8], op: BinaryOperator, l: &EvalValue<'a>, r: &EvalValue<'a>) -> (res: Option<bool>)
    requires
        evals_in(buf@, seq![*l]),
        evals_in(buf@, seq![*r]),
    ensures
        res == compare_eval(buf@, op, eval_view(*l), eval_view(*r)),
{
    if let (EvalValue::Encoded(p, q, s), EvalValue::Lit(pv)) = (l, r) {
        assert(seq![*l][0] == *l);
        if op == BinaryOperator::Eq {
            if misses_multiple_of(s, pv) {
                return Some(false);
            }
            let lv = literal_value(pv);
            let encodable = match &lv {
                Value::Number(n) => crate::encoder::number_encodable(n, s),
                _ => true,
            };
            if encodable {
                let mut enc: Vec<u8> = Vec::new();
                proof {
                    lemma_scalar_enc_ok(lv, **s);
                    lemma_enc_scalar_view(lv, path_value_value(**pv), **s);
                }
                crate::encoder::encode(&lv, s, &mut enc);
                assert(enc@ =~= enc_schema(path_value_value(**pv), **s));
                let slice = &buf[*p..*q];
                assert(slice@ =~= buf@.subrange(*p as int, *q as int));
                if bytes_equal(slice, enc.as_slice()) {
                    return Some(true);
                }
            } else {
                assert(!literal_encodable(**pv, **s));
            }
        }
    }
    let ls = eval_scalar_of(buf, l);
    let rs = eval_scalar_of(buf, r);
    compare_scalar_values(op, &ls, &rs)
}

/// Compares `l` with each right value from index `j` on.
fn compare_row_of<'a>(buf: &[u8], op: BinaryOperator, l: &EvalValue<'a>, rs: &Vec<EvalValue<'a>>) -> (res: Option<bool>)
    requires
        evals_in(buf@, seq![*l]),
        evals_in(buf@, rs@),
    ensures
        res == compare_row(buf@, op, eval_view(*l), evals_view(rs@), 0),
{
    let ghost rv = evals_view(rs@);
    let mut j: usize = 0;
    while j < rs.len()
        invariant
            j <= rs@.len(),
            rv == evals_view(rs@),
            evals_in(buf@, seq![*l]),
            evals_in(buf@, rs@),
            compare_row(buf@, op, eval_view(*l), rv, 0) == compare_row(buf@, op, eval_view(*l), rv, j as int),
        decreases rs@.len() - j,
    {
        assert(seq![rs@[j as int]][0] == rs@[j as int]);
        assert(rv[j as int] == eval_view(rs@[j as int]));
        match compare_eval_values(buf, op, l, &rs[j]) {
            Some(true) => {
                return Some(true);
            },
            Some(false) => {},
            None => {
                return None;
            },
        }
        j += 1;
    }
    Some(false)
}

/// Whether some left value compares true with some right value.
fn compare_all_of<'a>(buf: &[u8], op: BinaryOperator, ls: &Vec<EvalValue<'a>>, rs: &Vec<EvalValue<'a>>) -> (res: Option<bool>)
    requires
        evals_in(buf@, ls@),
        evals_in(buf@, rs@),
    ensures
        res == compare_all(buf@, op, evals_view(ls@), evals_view(rs@), 0),
{
    let ghost lv = evals_view(ls@);
    let mut i: usize = 0;
    while i < ls.len()
        invariant
            i <= ls@.len(),
            lv == evals_view(ls@),
            evals_in(buf@, ls@),
            evals_in(buf@, rs@),
            compare_all(buf@, op, lv, evals_view(rs@), 0) == compare_all(buf@, op, lv, evals_view(rs@), i as int),
        decreases ls@.len() - i,
    {
        assert(seq![ls@[i as int]][0] == ls@[i as int]);
        assert(lv[i as int] == eval_view(ls@[i as int]));
        match compare_row_of(buf, op, &ls[i], rs) {
            Some(true) => {
                return Some(true);
            },
            Some(false) => {},
            None => {
                return None;
            },
        }
        i += 1;
    }
    Some(false)
}

/// The values to compare of an operand.
fn evals_of_value<'a>(v: ExprValue<'a>) -> (r: Vec<EvalValue<'a>>)
    ensures
        evals_view(r@) == evals_of(expr_view(v)),
        forall|b: Seq<u8>| expr_in(b, v) ==> evals_in(b, r@),
{
    match v {
        ExprValue::Single(pv) => {
            let r = vec![EvalValue::Lit(pv)];
            assert(evals_view(r@) =~= seq![EvalView::Lit(*pv)]);
            r
        },
        ExprValue::Many(vs) => vs,
    }
}

/// Whether some value of one operand compares true with some value of the
/// other.
fn eval_compare_values<'a>(buf: &[u8], op: BinaryOperator, l: ExprValue<'a>, r: ExprValue<'a>) -> (res: Option<bool>)
    requires
        expr_in(buf@, l),
        expr_in(buf@, r),
    ensures
        res == eval_compare(buf@, op, expr_view(l), expr_view(r)),
{
    let ls = evals_of_value(l);
    let rs = evals_of_value(r);
    compare_all_of(buf, op, &ls, &rs)
}

/// Appends the values to compare of an item.
fn push_item_evals<'a>(buf: &'a [u8], it: &Item<'a>, out: &mut Vec<EvalValue<'a>>)
    requires
        item_in(buf@, *it),
        evals_in(buf@, old(out)@),
    ensures
        evals_view(final(out)@) == evals_view(old(out)@) + item_evals(buf@, item_view(*it)),
        evals_in(buf@, final(out)@),
{
    let ghost base = evals_view(out@);
    match it {
        Item::Enc { start, end, schema: Some(s) } => {
            let ghost before = out@;
            let e = EvalValue::Encoded(*start, *end, *s);
            out.push(e);
            proof {
                assert(evals_view(out@) =~= evals_view(before).push(eval_view(e)));
                assert forall|j: int| 0 <= j < out@.len() implies match #[trigger] out@[j] {
                    EvalValue::Encoded(p, q, _) => p <= q <= buf@.len(),
                    _ => true,
                } by {
                    if j < before.len() {
                        assert(out@[j] == before[j]);
                    }
                }
            }
        },
        Item::Enc { start, end, schema: None } => {
            let start = *start;
            if start < buf.len() && buf[start] == TAG_ARRAY {
                let es = array_elements(buf, start, None);
                let ghost ev = elements(buf@, start as int, None);
                let mut i: usize = 0;
                while i < es.len()
                    invariant
                        i <= es@.len(),
                        elements_view(es@) == ev,
                        elements_end_ok(buf@, es@),
                        evals_in(buf@, out@),
                        evals_view(out@) == base + ev.subrange(0, i as int).map_values(|x: (int, Option<Schema>)| EvalView::Dec(scalar_of(dec_opt(buf@, x.0, None).0))),
                    decreases es@.len() - i,
                {
                    let e = &es[i];
                    assert(es@[i as int] == *e);
                    assert(ev[i as int] == crate::traverse::element_view(*e));
                    let v = decode_at(buf, e.start, None);
                    let ghost before = out@;
                    let x = EvalValue::Dec(scalar_of_value(v));
                    out.push(x);
                    proof {
                        assert(evals_view(out@) =~= evals_view(before).push(eval_view(x)));
                        assert(ev.subrange(0, i + 1) =~= ev.subrange(0, i as int).push(ev[i as int]));
                        assert forall|j: int| 0 <= j < out@.len() implies match #[trigger] out@[j] {
                            EvalValue::Encoded(p, q, _) => p <= q <= buf@.len(),
                            _ => true,
                        } by {
                            if j < before.len() {
                                assert(out@[j] == before[j]);
                            }
                        }
                    }
                    i += 1;
                }
                assert(ev.subrange(0, ev.len() as int) =~= ev);
            } else {
                let v = decode_at(buf, start, None);
                let ghost before = out@;
                let x = EvalValue::Dec(scalar_of_value(v));
                out.push(x);
                proof {
                    assert(evals_view(out@) =~= evals_view(before).push(eval_view(x)));
                    assert forall|j: int| 0 <= j < out@.len() implies match #[trigger] out@[j] {
                        EvalValue::Encoded(p, q, _) => p <= q <= buf@.len(),
                        _ => true,
                    } by {
                        if j < before.len() {
                            assert(out@[j] == before[j]);
                        }
                    }
                }
            }
        },
        Item::Val(v) => {
            let ghost before = out@;
            let x = EvalValue::Dec(scalar_of_value(v.duplicate()));
            out.push(x);
            proof {
                assert(evals_view(out@) =~= evals_view(before).push(eval_view(x)));
                assert forall|j: int| 0 <= j < out@.len() implies match #[trigger] out@[j] {
                    EvalValue::Encoded(p, q, _) => p <= q <= buf@.len(),
                    _ => true,
                } by {
                    if j < before.len() {
                        assert(out@[j] == before[j]);
                    }
                }
            }
        },
    }
}

/// The values to compare of items, in order.
fn items_evals_of<'a>(buf: &'a [u8], items: &Vec<Item<'a>>) -> (r: Vec<EvalValue<'a>>)
    requires
        items_in(buf@, items@),
    ensures
        evals_view(r@) == items_evals(buf@, items_view(items@), 0),
        evals_in(buf@, r@),
{
    let ghost iv = items_view(items@);
    let mut out: Vec<EvalValue<'a>> = Vec::new();
    let mut i: usize = 0;
    while i < items.len()
        invariant
            i <= items@.len(),
            iv == items_view(items@),
            items_in(buf@, items@),
            evals_in(buf@, out@),
            evals_view(out@) + items_evals(buf@, iv, i as int) == items_evals(buf@, iv, 0),
        decreases items@.len() - i,
    {
        assert(iv[i as int] == item_view(items@[i as int]));
        assert(item_in(buf@, items@[i as int]));
        let ghost before = evals_view(out@);
        push_item_evals(buf, &items[i], &mut out);
        assert(evals_view(out@) + items_evals(buf@, iv, i + 1) =~= before + items_evals(buf@, iv, i as int));
        i += 1;
    }
    assert(evals_view(out@) + Seq::<EvalView>::empty() =~= evals_view(out@));
    out
}

// ------------------------------------------------------------ arithmetic

/// The number a value to compare holds, when it is one.
fn eval_number_of<'a>(buf: &[u8], e: &EvalValue<'a>) -> (r: Option<Number>)
    requires
        evals_in(buf@, seq![*e]),
    ensures
        r == eval_number(buf@, eval_view(*e)),
{
    match e {
        EvalValue::Lit(PathValue::Number(n)) => Some(*n),
        EvalValue::Dec(ScalarValue::Num(n)) => Some(*n),
        EvalValue::Encoded(p, _, s) => {
            assert(seq![*e][0] == *e);
            match decode_at(buf, *p, Some(*s)) {
                Value::Number(n) => Some(n),
                _ => None,
            }
        },
        _ => None,
    }
}

/// The numbers an operand holds, when all its values are numbers.
fn operand_numbers_of<'a>(buf: &[u8], v: ExprValue<'a>) -> (r: Option<Vec<Number>>)
    requires
        expr_in(buf@, v),
    ensures
        r matches Some(ns) ==> operand_numbers(buf@, expr_view(v)) == Some(ns@),
        r is None ==> operand_numbers(buf@, expr_view(v)) is None,
{
    let ghost vv = expr_view(v);
    let es = evals_of_value(v);
    let ghost ev = evals_view(es@);
    assert(operand_numbers(buf@, vv) == eval_numbers(buf@, ev, 0));
    let mut out: Vec<Number> = Vec::new();
    let mut i: usize = 0;
    while i < es.len()
        invariant
            i <= es@.len(),
            ev == evals_view(es@),
            vv == expr_view(v),
            operand_numbers(buf@, vv) == eval_numbers(buf@, ev, 0),
            evals_in(buf@, es@),
            eval_numbers(buf@, ev, 0) == match eval_numbers(buf@, ev, i as int) {
                Some(rest) => Some(out@ + rest),
                None => None::<Seq<Number>>,
            },
        decreases es@.len() - i,
    {
        assert(seq![es@[i as int]][0] == es@[i as int]);
        assert(ev[i as int] == eval_view(es@[i as int]));
        match eval_number_of(buf, &es[i]) {
            Some(n) => {
                let ghost before = out@;
                out.push(n);
                proof {
                    match eval_numbers(buf@, ev, i + 1) {
                        Some(rest) => {
                            assert(out@ + rest =~= before + (seq![n] + rest));
                        },
                        None => {},
                    }
                }
            },
            None => {
                assert(eval_numbers(buf@, ev, i as int) is None);
                return None;
            },
        }
        i += 1;
    }
    assert(out@ + Seq::<Number>::empty() =~= out@);
    Some(out)
}

/// The number an operand holds, when it is exactly one number.
fn operand_number_of<'a>(buf: &[u8], v: ExprValue<'a>) -> (r: Option<Number>)
    requires
        expr_in(buf@, v),
    ensures
        r == operand_number(buf@, expr_view(v)),
{
    let es = evals_of_value(v);
    if es.len() == 1 {
        assert(seq![es@[0]][0] == es@[0]);
        eval_number_of(buf, &es[0])
    } else {
        None
    }
}

/// Integer arithmetic on two numbers in `i128`.
fn arith_of(op: BinaryOperator, x: &Number, y: &Number) -> (r: Option<Number>)
    ensures
        r == arith(op, *x, *y),
{
    match (x.as_i128(), y.as_i128()) {
        (Some(a), Some(c)) => {
            let v = match op {
                BinaryOperator::Add => a.checked_add(c),
                BinaryOperator::Subtract => a.checked_sub(c),
                BinaryOperator::Multiply => a.checked_mul(c),
                BinaryOperator::Divide => match a.checked_rem(c) {
                    Some(0) => a.checked_div(c),
                    _ => None,
                },
                BinaryOperator::Modulo => a.checked_rem(c),
                _ => None,
            };
            match v {
                Some(v) => Some(make_int_number(v)),
                None => None,
            }
        },
        _ => None,
    }
}

/// The negations of numbers, none when one is not an integer or overflows.
fn negate_numbers(ns: &Vec<Number>) -> (r: Option<Vec<Number>>)
    ensures
        r matches Some(ms) ==> negate_all(ns@, 0) == Some(ms@),
        r is None ==> negate_all(ns@, 0) is None,
{
    let mut out: Vec<Number> = Vec::new();
    let mut i: usize = 0;
    while i < ns.len()
        invariant
            i <= ns@.len(),
            negate_all(ns@, 0) == match negate_all(ns@, i as int) {
                Some(rest) => Some(out@ + rest),
                None => None::<Seq<Number>>,
            },
        decreases ns@.len() - i,
    {
        let m = match ns[i].as_i128() {
            Some(v) => if v == i128::MIN {
                return None;
            } else {
                make_int_number(0 - v)
            },
            None => {
                return None;
            },
        };
        assert(negate(ns@[i as int]) == Some(m));
        let ghost before = out@;
        out.push(m);
        proof {
            match negate_all(ns@, i + 1) {
                Some(rest) => {
                    assert(out@ + rest =~= before + (seq![m] + rest));
                },
                None => {},
            }
        }
        i += 1;
    }
    assert(out@ + Seq::<Number>::empty() =~= out@);
    Some(out)
}

/// Numbers as computed items.
fn number_items_of<'a>(ns: &Vec<Number>) -> (r: Vec<Item<'a>>)
    ensures
        items_view(r@) == number_items(ns@),
        forall|b: Seq<u8>| items_in(b, r@),
{
    let mut out: Vec<Item<'a>> = Vec::new();
    let mut i: usize = 0;
    while i < ns.len()
        invariant
            i <= ns@.len(),
            items_view(out@) == number_items(ns@.subrange(0, i as int)),
            forall|j: int| 0 <= j < out@.len() ==> (#[trigger] out@[j]) is Val,
        decreases ns@.len() - i,
    {
        let ghost before = out@;
        let it = Item::Val(Value::Number(ns[i]));
        out.push(it);
        proof {
            assert(items_view(out@) =~= items_view(before).push(item_view(it)));
            assert(number_items(ns@.subrange(0, i + 1)) =~= number_items(ns@.subrange(0, i as int)).push(item_view(it)));
            assert forall|j: int| 0 <= j < out@.len() implies (#[trigger] out@[j]) is Val by {
                if j < before.len() {
                    assert(out@[j] == before[j]);
                }
            }
        }
        i += 1;
    }
    assert(ns@.subrange(0, ns@.len() as int) =~= ns@);
    out
}

// ------------------------------------------------------------ selection

/// The items the segments reach from `items`, as `sel_paths` describes.
fn sel_paths_exec<'a>(buf: &'a [u8], root: &Item<'a>, items: Vec<Item<'a>>, paths: &'a Vec<Path>, top: bool) -> (r: Option<Vec<Item<'a>>>)
    requires
        items_in(buf@, items@),
        item_in(buf@, *root),
    ensures
        r matches Some(v) ==> sel_paths(buf@, item_view(*root), items_view(items@), paths@, 0, top) == Some(items_view(v@)) && items_in(buf@, v@),
        r is None ==> sel_paths(buf@, item_view(*root), items_view(items@), paths@, 0, top) is None,
    decreases paths@, 3nat, 0nat,
{
    let ghost rv = item_view(*root);
    let ghost iv0 = items_view(items@);
    let mut cur = items;
    let mut k: usize = 0;
    while k < paths.len()
        invariant
            k <= paths@.len(),
            items_in(buf@, cur@),
            item_in(buf@, *root),
            rv == item_view(*root),
            iv0 == items_view(items@),
            sel_paths(buf@, rv, iv0, paths@, 0, top) == sel_paths(buf@, rv, items_view(cur@), paths@, k as int, top),
        decreases paths@.len() - k,
    {
        let p = &paths[k];
        assert(paths@[k as int] == *p);
        proof { assert(decreases_to!(paths@ => paths@[k as int])); }
        match p {
            Path::Root | Path::Current => {},
            Path::FilterExpr(e) => {
                match filter_items_exec(buf, root, &cur, e) {
                    Some(v) => {
                        cur = v;
                    },
                    None => {
                        assert(filter_items(buf@, rv, items_view(cur@), **e, 0) is None);
                        assert(sel_paths(buf@, rv, items_view(cur@), paths@, k as int, top) is None);
                        return None;
                    },
                }
            },
            Path::Expr(e) => {
                if top {
                    match filter_items_exec(buf, root, &cur, e) {
                        Some(v) => {
                            cur = v;
                        },
                        None => {
                            assert(filter_items(buf@, rv, items_view(cur@), **e, 0) is None);
                            assert(sel_paths(buf@, rv, items_view(cur@), paths@, k as int, top) is None);
                            return None;
                        },
                    }
                } else {
                    match step_items(buf, &cur, p) {
                        Some(v) => {
                            cur = v;
                        },
                        None => {
                            return None;
                        },
                    }
                }
            },
            _ => {
                match step_items(buf, &cur, p) {
                    Some(v) => {
                        cur = v;
                    },
                    None => {
                        return None;
                    },
                }
            },
        }
        k += 1;
    }
    Some(cur)
}

/// The items for which the filter holds, as `filter_items` describes.
fn filter_items_exec<'a>(buf: &'a [u8], root: &Item<'a>, items: &Vec<Item<'a>>, e: &'a Expr) -> (r: Option<Vec<Item<'a>>>)
    requires
        items_in(buf@, items@),
        item_in(buf@, *root),
    ensures
        r matches Some(v) ==> filter_items(buf@, item_view(*root), items_view(items@), *e, 0) == Some(items_view(v@)) && items_in(buf@, v@),
        r is None ==> filter_items(buf@, item_view(*root), items_view(items@), *e, 0) is None,
    decreases *e, 2nat, 0nat,
{
    let ghost rv = item_view(*root);
    let ghost iv = items_view(items@);
    let mut out: Vec<Item<'a>> = Vec::new();
    let mut i: usize = 0;
    while i < items.len()
        invariant
            i <= items@.len(),
            iv == items_view(items@),
            rv == item_view(*root),
            items_in(buf@, items@),
            item_in(buf@, *root),
            items_in(buf@, out@),
            filter_items(buf@, rv, iv, *e, 0) == match filter_items(buf@, rv, iv, *e, i as int) {
                Some(rest) => Some(items_view(out@) + rest),
                None => None::<Seq<ItemView>>,
            },
        decreases items@.len() - i,
    {
        assert(iv[i as int] == item_view(items@[i as int]));
        assert(item_in(buf@, items@[i as int]));
        match eval_filter_exec(buf, root, &items[i], e) {
            Some(res) => {
                let ghost before = out@;
                if res == Some(true) {
                    let d = dup_item(&items[i]);
                    proof { lemma_push_in(buf@, before, d); }
                    out.push(d);
                    assert(items_view(out@) =~= items_view(before).push(item_view(d)));
                }
                proof {
                    match filter_items(buf@, rv, iv, *e, i + 1) {
                        Some(rest) => {
                            if res == Some(true) {
                                assert(items_view(out@) + rest =~= items_view(before) + (seq![iv[i as int]] + rest));
                            }
                        },
                        None => {},
                    }
                }
            },
            None => {
                return None;
            },
        }
        i += 1;
    }
    assert(items_view(out@) + Seq::<ItemView>::empty() =~= items_view(out@));
    Some(out)
}

/// The items a filter path reaches, as `filter_paths` describes.
fn filter_paths_exec<'a>(buf: &'a [u8], root: &Item<'a>, it: &Item<'a>, paths: &'a Vec<Path>) -> (r: Option<Vec<Item<'a>>>)
    requires
        item_in(buf@, *root),
        item_in(buf@, *it),
    ensures
        r matches Some(v) ==> filter_paths(buf@, item_view(*root), item_view(*it), paths@) == Some(items_view(v@)) && items_in(buf@, v@),
        r is None ==> filter_paths(buf@, item_view(*root), item_view(*it), paths@) is None,
    decreases paths@, 4nat, 0nat,
{
    let from_current = paths.len() > 0 && matches!(paths[0], Path::Current);
    let start = if from_current { dup_item(it) } else { dup_item(root) };
    let mut v: Vec<Item<'a>> = Vec::new();
    proof { lemma_push_in(buf@, v@, start); }
    v.push(start);
    assert(items_view(v@) =~= seq![item_view(start)]);
    sel_paths_exec(buf, root, v, paths, false)
}

/// A filter at an item, as `eval_filter` describes.
fn eval_filter_exec<'a>(buf: &'a [u8], root: &Item<'a>, it: &Item<'a>, e: &'a Expr) -> (r: Option<Option<bool>>)
    requires
        item_in(buf@, *root),
        item_in(buf@, *it),
    ensures
        r == eval_filter(buf@, item_view(*root), item_view(*it), *e),
    decreases *e, 1nat, 0nat,
{
    match e {
        Expr::BinaryOp { op, left, right } => {
            let op = *op;
            if op == BinaryOperator::Or || op == BinaryOperator::And {
                let l = match eval_filter_exec(buf, root, it, left) {
                    Some(l) => l,
                    None => {
                        return None;
                    },
                };
                let r = match eval_filter_exec(buf, root, it, right) {
                    Some(r) => r,
                    None => {
                        return None;
                    },
                };
                Some(
                    match (l, r) {
                        (Some(x), Some(y)) => Some(if op == BinaryOperator::Or { x || y } else { x && y }),
                        _ => None,
                    },
                )
            } else if op == BinaryOperator::Add || op == BinaryOperator::Subtract || op == BinaryOperator::Multiply
                || op == BinaryOperator::Divide || op == BinaryOperator::Modulo {
                Some(None)
            } else {
                let l = match expr_val_exec(buf, root, it, left) {
                    Some(l) => l,
                    None => {
                        return None;
                    },
                };
                let r = match expr_val_exec(buf, root, it, right) {
                    Some(r) => r,
                    None => {
                        return None;
                    },
                };
                Some(eval_compare_values(buf, op, l, r))
            }
        },
        Expr::ExistsFunc(paths) => {
            match filter_paths_exec(buf, root, it, paths) {
                Some(found) => Some(Some(found.len() > 0)),
                None => None,
            }
        },
        _ => None,
    }
}

/// An operand at an item, as `expr_val` describes.
fn expr_val_exec<'a>(buf: &'a [u8], root: &Item<'a>, it: &Item<'a>, e: &'a Expr) -> (r: Option<ExprValue<'a>>)
    requires
        item_in(buf@, *root),
        item_in(buf@, *it),
    ensures
        r matches Some(v) ==> expr_val(buf@, item_view(*root), item_view(*it), *e) == Some(expr_view(v)) && expr_in(buf@, v),
        r is None ==> expr_val(buf@, item_view(*root), item_view(*it), *e) is None,
    decreases *e, 0nat, 0nat,
{
    match e {
        Expr::Value(pv) => Some(ExprValue::Single(pv)),
        Expr::Paths(paths) => {
            match filter_paths_exec(buf, root, it, paths) {
                Some(found) => {
                    let evs = items_evals_of(buf, &found);
                    Some(ExprValue::Many(evs))
                },
                None => None,
            }
        },
        _ => None,
    }
}

/// What a path that is one expression yields, as `eval_expr` describes.
fn eval_expr_exec<'a>(buf: &'a [u8], root: &Item<'a>, it: &Item<'a>, e: &'a Expr) -> (r: Option<Vec<Item<'a>>>)
    requires
        item_in(buf@, *root),
        item_in(buf@, *it),
    ensures
        r matches Some(v) ==> eval_expr(buf@, item_view(*root), item_view(*it), *e) == Some(items_view(v@)) && items_in(buf@, v@),
        r is None ==> eval_expr(buf@, item_view(*root), item_view(*it), *e) is None,
{
    match e {
        Expr::UnaryOp { op, operand } => {
            let v = match expr_val_exec(buf, root, it, operand) {
                Some(v) => v,
                None => {
                    return None;
                },
            };
            let ns = match operand_numbers_of(buf, v) {
                Some(ns) => ns,
                None => {
                    return None;
                },
            };
            match op {
                UnaryOperator::Add => Some(number_items_of(&ns)),
                UnaryOperator::Subtract => match negate_numbers(&ns) {
                    Some(ms) => Some(number_items_of(&ms)),
                    None => None,
                },
            }
        },
        Expr::BinaryOp { op, left, right } => {
            let op = *op;
            if op == BinaryOperator::Add || op == BinaryOperator::Subtract || op == BinaryOperator::Multiply
                || op == BinaryOperator::Divide || op == BinaryOperator::Modulo {
                let l = match expr_val_exec(buf, root, it, left) {
                    Some(l) => l,
                    None => {
                        return None;
                    },
                };
                let r = match expr_val_exec(buf, root, it, right) {
                    Some(r) => r,
                    None => {
                        return None;
                    },
                };
                let x = match operand_number_of(buf, l) {
                    Some(x) => x,
                    None => {
                        return None;
                    },
                };
                let y = match operand_number_of(buf, r) {
                    Some(y) => y,
                    None => {
                        return None;
                    },
                };
                match arith_of(op, &x, &y) {
                    Some(z) => {
                        let out = vec![Item::Val(Value::Number(z))];
                        assert(items_view(out@) =~= seq![ItemView::Val(ValueView::Number(z))]);
                        Some(out)
                    },
                    None => None,
                }
            } else {
                predicate_items(buf, root, it, e)
            }
        },
        Expr::ExistsFunc(_) => predicate_items(buf, root, it, e),
        Expr::Value(pv) => {
            let out = vec![Item::Val(literal_value(pv))];
            assert(items_view(out@) =~= seq![ItemView::Val(path_value_view(**pv))]);
            Some(out)
        },
        Expr::Paths(_) => None,
    }
}

/// The outcome of a predicate as an item: a boolean, or null when the
/// predicate does not decide.
fn predicate_items<'a>(buf: &'a [u8], root: &Item<'a>, it: &Item<'a>, e: &'a Expr) -> (r: Option<Vec<Item<'a>>>)
    requires
        item_in(buf@, *root),
        item_in(buf@, *it),
    ensures
        r matches Some(v) ==> eval_filter(buf@, item_view(*root), item_view(*it), *e) matches Some(res)
            && items_view(v@) == seq![ItemView::Val(match res { Some(x) => ValueView::Bool(x), None => ValueView::Null })]
            && items_in(buf@, v@),
        r is None ==> eval_filter(buf@, item_view(*root), item_view(*it), *e) is None,
{
    match eval_filter_exec(buf, root, it, e) {
        Some(res) => {
            let v = match res {
                Some(x) => Value::Bool(x),
                None => Value::Null,
            };
            let out = vec![Item::Val(v)];
            assert(items_view(out@) =~= seq![ItemView::Val(v@)]);
            Some(out)
        },
        None => None,
    }
}

/// The items a whole path reaches from the root item, as `exec_path`
/// describes.
fn execute<'a>(buf: &'a [u8], root_schema: Option<&'a Schema>, json_path: &'a JsonPath) -> (r: Option<Vec<Item<'a>>>)
    ensures
        r matches Some(v) ==> exec_path(buf@, root_item(buf@, opt_schema(root_schema)), *json_path) == Some(items_view(v@)) && items_in(buf@, v@),
        r is None ==> exec_path(buf@, root_item(buf@, opt_schema(root_schema)), *json_path) is None,
{
    let root = Item::Enc { start: 0, end: buf.len(), schema: root_schema };
    assert(item_view(root) == root_item(buf@, opt_schema(root_schema)));
    let paths = &json_path.paths;
    if paths.len() == 1 {
        if let Path::Expr(e) = &paths[0] {
            return eval_expr_exec(buf, &root, &root, e);
        }
    }
    if paths.len() > 0 && matches!(paths[0], Path::Current) {
        return None;
    }
    let start = vec![Item::Enc { start: 0, end: buf.len(), schema: root_schema }];
    assert(items_view(start@) =~= seq![item_view(root)]);
    proof { lemma_push_in(buf@, Seq::empty(), root); assert(start@ =~= Seq::<Item>::empty().push(root)); }
    sel_paths_exec(buf, &root, start, paths, true)
}

/// The values a path selects from a buffer under an optional root schema;
/// none when the path cannot be evaluated.
pub open spec fn selected(b: Seq<u8>, s: Option<Schema>, jp: JsonPath) -> Option<Seq<ValueView>> {
    match exec_path(b, root_item(b, s), jp) {
        Some(items) => Some(item_values(b, items)),
        None => None,
    }
}

/// What a predicate path yields: none when it is not a predicate; else its
/// first outcome when that is a boolean.
pub open spec fn predicate_outcome(b: Seq<u8>, s: Option<Schema>, jp: JsonPath) -> Option<Option<bool>> {
    if !is_predicate_spec(jp) {
        Some(None)
    } else {
        match exec_path(b, root_item(b, s), jp) {
            Some(items) => Some(
                if items.len() > 0 {
                    match items[0] {
                        ItemView::Val(ValueView::Bool(x)) => Some(x),
                        ItemView::Enc(p, _, Some(sch)) => match dec_schema(b, p, sch).0 {
                            ValueView::Bool(x) => Some(x),
                            _ => None,
                        },
                        _ => None,
                    }
                } else {
                    None
                },
            ),
            None => None,
        }
    }
}

/// The value an item stands for.
fn item_to_value<'a>(buf: &[u8], it: &Item<'a>) -> (v: Value)
    requires
        item_in(buf@, *it),
    ensures
        v@ == item_value(buf@, item_view(*it)),
{
    match it {
        Item::Enc { start, schema, .. } => decode_at(buf, *start, *schema),
        Item::Val(v) => v.duplicate(),
    }
}

/// The values items stand for, in order.
fn items_to_values<'a>(buf: &[u8], items: &Vec<Item<'a>>) -> (r: Vec<Value>)
    requires
        items_in(buf@, items@),
    ensures
        views_of(r@) == item_values(buf@, items_view(items@)),
{
    let ghost iv = items_view(items@);
    let mut out: Vec<Value> = Vec::new();
    let mut i: usize = 0;
    while i < items.len()
        invariant
            i <= items@.len(),
            iv == items_view(items@),
            items_in(buf@, items@),
            out@.len() == i,
            forall|j: int| 0 <= j < i ==> (#[trigger] out@[j])@ == item_value(buf@, iv[j]),
        decreases items@.len() - i,
    {
        assert(iv[i as int] == item_view(items@[i as int]));
        assert(item_in(buf@, items@[i as int]));
        let v = item_to_value(buf, &items[i]);
        out.push(v);
        i += 1;
    }
    proof {
        crate::value::lemma_views_of(out@);
        assert(views_of(out@) =~= item_values(buf@, iv));
    }
    out
}

/// Selects values from an encoded buffer by JSON path. Without a schema the
/// buffer holds the untyped encoding; with one, the encoding that schema
/// drives.
pub struct Selector<'a> {
    root: &'a [u8],
    root_schema: Option<&'a Schema>,
}

impl<'a> Selector<'a> {
    /// The encoded buffer selected from.
    pub closed spec fn data(&self) -> Seq<u8> {
        self.root@
    }

    /// The schema the buffer is encoded under, if any.
    pub closed spec fn schema(&self) -> Option<Schema> {
        opt_schema(self.root_schema)
    }

    /// A selector over a buffer in the untyped encoding.
    pub fn new(root: &'a [u8]) -> (s: Selector<'a>)
        ensures
            s.data() == root@,
            s.schema() is None,
    {
        Selector { root, root_schema: None }
    }

    /// The same selector, reading the buffer as encoded under `schema`.
    pub fn with_schema(self, schema: &'a Schema) -> (s: Selector<'a>)
        ensures
            s.data() == self.data(),
            s.schema() == Some(*schema),
    {
        Selector { root: self.root, root_schema: Some(schema) }
    }

    /// All the values the path selects, in order.
    pub fn select_values(&mut self, json_path: &'a JsonPath) -> (r: Result<Vec<Value>, Error>)
        ensures
            *final(self) == *old(self),
            match r {
                Ok(vs) => selected(old(self).data(), old(self).schema(), *json_path) == Some(views_of(vs@)),
                Err(e) => selected(old(self).data(), old(self).schema(), *json_path) is None && e == Error::InvalidJsonPath,
            },
    {
        match execute(self.root, self.root_schema, json_path) {
            Some(items) => Ok(items_to_values(self.root, &items)),
            None => Err(Error::InvalidJsonPath),
        }
    }

    /// The values the path selects, as one array.
    pub fn select_array(&mut self, json_path: &'a JsonPath) -> (r: Result<Value, Error>)
        ensures
            *final(self) == *old(self),
            match r {
                Ok(v) => selected(old(self).data(), old(self).schema(), *json_path) matches Some(vs) && v@ == ValueView::Array(vs),
                Err(e) => selected(old(self).data(), old(self).schema(), *json_path) is None && e == Error::InvalidJsonPath,
            },
    {
        match execute(self.root, self.root_schema, json_path) {
            Some(items) => Ok(Value::Array(items_to_values(self.root, &items))),
            None => Err(Error::InvalidJsonPath),
        }
    }

    /// The first value the path selects, if any.
    pub fn select_first(&mut self, json_path: &'a JsonPath) -> (r: Result<Option<Value>, Error>)
        ensures
            *final(self) == *old(self),
            match r {
                Ok(Some(v)) => selected(old(self).data(), old(self).schema(), *json_path) matches Some(vs) && vs.len() > 0 && v@ == vs[0],
                Ok(None) => selected(old(self).data(), old(self).schema(), *json_path) matches Some(vs) && vs.len() == 0,
                Err(e) => selected(old(self).data(), old(self).schema(), *json_path) is None && e == Error::InvalidJsonPath,
            },
    {
        match execute(self.root, self.root_schema, json_path) {
            Some(items) => {
                if items.len() > 0 {
                    assert(item_values(self.root@, items_view(items@))[0] == item_value(self.root@, item_view(items@[0])));
                    Ok(Some(item_to_value(self.root, &items[0])))
                } else {
                    Ok(None)
                }
            },
            None => Err(Error::InvalidJsonPath),
        }
    }

    /// The one value the path selects, or all of them as an array when it
    /// selects more than one; none when it selects nothing.
    pub fn select_value(&mut self, json_path: &'a JsonPath) -> (r: Result<Option<Value>, Error>)
        ensures
            *final(self) == *old(self),
            match r {
                Ok(Some(v)) => selected(old(self).data(), old(self).schema(), *json_path) matches Some(vs) && (
                    if vs.len() == 1 { v@ == vs[0] } else { vs.len() > 1 && v@ == ValueView::Array(vs) }),
                Ok(None) => selected(old(self).data(), old(self).schema(), *json_path) matches Some(vs) && vs.len() == 0,
                Err(e) => selected(old(self).data(), old(self).schema(), *json_path) is None && e == Error::InvalidJsonPath,
            },
    {
        match execute(self.root, self.root_schema, json_path) {
            Some(items) => {
                if items.len() > 1 {
                    Ok(Some(Value::Array(items_to_values(self.root, &items))))
                } else if items.len() == 1 {
                    assert(item_values(self.root@, items_view(items@))[0] == item_value(self.root@, item_view(items@[0])));
                    Ok(Some(item_to_value(self.root, &items[0])))
                } else {
                    Ok(None)
                }
            },
            None => Err(Error::InvalidJsonPath),
        }
    }

    /// Whether the path selects anything.
    pub fn path_exists(&mut self, json_path: &'a JsonPath) -> (r: Result<bool, Error>)
        ensures
            *final(self) == *old(self),
            match r {
                Ok(x) => selected(old(self).data(), old(self).schema(), *json_path) matches Some(vs) && x == (vs.len() > 0),
                Err(e) => selected(old(self).data(), old(self).schema(), *json_path) is None && e == Error::InvalidJsonPath,
            },
    {
        match execute(self.root, self.root_schema, json_path) {
            Some(items) => Ok(items.len() > 0),
            None => Err(Error::InvalidJsonPath),
        }
    }

    /// The outcome of a predicate path: none when the path is not a
    /// predicate or its outcome is not a boolean.
    pub fn predicate_match(&mut self, json_path: &'a JsonPath) -> (r: Result<Option<bool>, Error>)
        ensures
            *final(self) == *old(self),
            match r {
                Ok(x) => predicate_outcome(old(self).data(), old(self).schema(), *json_path) == Some(x),
                Err(e) => predicate_outcome(old(self).data(), old(self).schema(), *json_path) is None && e == Error::InvalidJsonPath,
            },
    {
        if !json_path.is_predicate() {
            return Ok(None);
        }
        match execute(self.root, self.root_schema, json_path) {
            Some(items) => {
                if items.len() == 0 {
                    return Ok(None);
                }
                assert(items_view(items@)[0] == item_view(items@[0]));
                assert(item_in(self.root@, items@[0]));
                match &items[0] {
                    Item::Val(Value::Bool(x)) => Ok(Some(*x)),
                    Item::Enc { start, schema: Some(s), .. } => {
                        match decode_at(self.root, *start, Some(*s)) {
                            Value::Bool(x) => Ok(Some(x)),
                            _ => Ok(None),
                        }
                    },
                    _ => Ok(None),
                }
            },
            None => Err(Error::InvalidJsonPath),
        }
    }
}

} // verus!
