//! Comparing a value read in place under its schema with a literal: the
//! decisions taken on the encoding agree with comparing the values.

use vstd::prelude::*;
use crate::value::{Number, Value, ValueView, number_as_int};
use crate::types::{InstanceType, Schema, SingleOrVec};
use crate::spec_enc::{trem, tdiv, enc_schema, enc_ok, opt_payload};
use crate::jsonpath::{BinaryOperator, PathValue, Expr, JsonPath, Path};
use crate::select_spec::{EvalView, ItemView, compare_eval, compare_scalars, scalar_of, misses_multiple, is_arith,
    item_evals, items_evals, root_item, sel_paths, filter_paths, compare_row, compare_all, literal_encodable,
    eval_compare, expr_val, eval_filter, eval_expr, exec_path, ExprView,
    path_value_value, path_scalar};
use crate::selector::predicate_outcome;
use crate::spec_enc::{enc_untyped, str_bytes};
use crate::roundtrip::value_wf;
use crate::schema_roundtrip::{conforms, conforms_exact, multiple_fits, canon_view, string_conforms, lemma_schema_roundtrip,
    lemma_schema_roundtrip_in, lemma_tdiv_trem};
use crate::nested::{item_holds, item_open, item_schema_of, enc_opt, schema_open, nested_at, nested_schema, all_fields,
    lemma_walk, lemma_item_decodes};

verus! {

/// A multiple of a nonzero integer leaves no remainder under Rust's `%`.
proof fn lemma_trem_multiple(k: int, d: int)
    requires
        d != 0,
    ensures
        trem(k * d, d) == 0,
{
    let x = k * d;
    if x > 0 && d > 0 {
        assert(k > 0) by (nonlinear_arith)
            requires x == k * d, x > 0, d > 0;
        vstd::arithmetic::div_mod::lemma_mod_multiples_basic(k, d);
    } else if x < 0 && d < 0 {
        assert(x * -1 == k * (d * -1)) by (nonlinear_arith)
            requires x == k * d;
        vstd::arithmetic::div_mod::lemma_mod_multiples_basic(k, d * -1);
    } else if x < 0 {
        assert(x * -1 == (k * -1) * d) by (nonlinear_arith)
            requires x == k * d;
        vstd::arithmetic::div_mod::lemma_mod_multiples_basic(k * -1, d);
    } else if x > 0 {
        assert(x == (k * -1) * (d * -1)) by (nonlinear_arith)
            requires x == k * d;
        vstd::arithmetic::div_mod::lemma_mod_multiples_basic(k * -1, d * -1);
    }
}

/// An integer that is no miss of `multipleOf` is a multiple of it.
proof fn lemma_no_miss(s: Schema, n: Number)
    requires
        s.multiple_of matches Some(mul) ==> mul != 0,
        number_as_int(n) is Some,
        !misses_multiple(s, PathValue::Number(n)),
    ensures
        s.multiple_of matches Some(mul) ==> trem(number_as_int(n).unwrap(), mul as int) == 0,
{
    let i = number_as_int(n).unwrap();
    if let Some(mul) = s.multiple_of {
        if mul == -1 {
            lemma_trem_multiple(i * -1, -1);
            assert((i * -1) * -1 == i) by (nonlinear_arith);
        }
    }
}

/// An integer literal that is no miss of `multipleOf`, and that the schema
/// can encode, is a multiple the optimized payload carries.
proof fn lemma_literal_fits(s: Schema, i: int)
    requires
        s.multiple_of matches Some(mul) ==> trem(i, mul as int) == 0 && mul != 0,
        opt_payload(i, s) is Some,
    ensures
        multiple_fits(i, s),
{
    if let (Some(mul), Some(min)) = (s.multiple_of, s.minimum) {
        if trem(min as int, mul as int) == 0 {
            lemma_tdiv_trem(i, mul as int);
            lemma_tdiv_trem(min as int, mul as int);
            let a = tdiv(i, mul as int);
            let c = tdiv(min as int, mul as int);
            assert(i - min == (a - c) * mul) by (nonlinear_arith)
                requires i == a * mul, min == c * mul;
            lemma_trem_multiple(a - c, mul as int);
        }
    }
}

/// A value and a literal that are scalars of one kind: both null, both
/// booleans, both integers, or both strings.
pub open spec fn same_scalar_kind(w: ValueView, lit: PathValue) -> bool {
    match (w, lit) {
        (ValueView::Null, PathValue::Null) => true,
        (ValueView::Bool(_), PathValue::Boolean(_)) => true,
        (ValueView::Number(n), PathValue::Number(m)) => number_as_int(n) is Some && number_as_int(m) is Some,
        (ValueView::String(_), PathValue::String(_)) => true,
        _ => false,
    }
}

/// A literal that reads back as written under the optional schema `s`: a
/// text of a fitting length that, under a schema of single type string,
/// conforms to it exactly (so a format does not rewrite it).
pub open spec fn literal_reads_back(lit: PathValue, s: Option<Schema>) -> bool {
    match lit {
        PathValue::String(t) => {
            &&& str_bytes(t).len() <= u64::MAX
            &&& s matches Some(ss) ==> (ss.instance_type == Some(SingleOrVec::Single(InstanceType::String))
                ==> string_conforms(t, ss))
        },
        _ => true,
    }
}

/// A value that keeps the `multipleOf` of the optional schema `s`: a number
/// there is an integer multiple of it.
pub open spec fn keeps_multiple(w: Value, s: Option<Schema>) -> bool {
    match (w, s) {
        (Value::Number(n), Some(ss)) => ss.multiple_of matches Some(mul) ==> (number_as_int(n) matches Some(i)
            && trem(i, mul as int) == 0),
        _ => true,
    }
}

/// A scalar compared with a literal of its kind that reads back as written,
/// equal when their encodings under a schema are.
proof fn lemma_same_bytes_equal(w: Value, sub: Schema, lit: PathValue)
    requires
        schema_open(sub),
        enc_ok(w, sub),
        conforms_exact(w, sub),
        same_scalar_kind(w@, lit),
        literal_reads_back(lit, Some(sub)),
        literal_encodable(lit, sub),
        !misses_multiple(sub, lit),
        enc_schema(w, sub) == enc_schema(path_value_value(lit), sub),
    ensures
        compare_scalars(BinaryOperator::Eq, scalar_of(w@), path_scalar(lit)) == Some(true),
{
    let lv = path_value_value(lit);
    let e0 = Seq::<u8>::empty();
    let e = enc_schema(w, sub);
    lemma_schema_roundtrip(w, sub, e0, e0);
    assert(e0 + e + e0 =~= e);
    if let PathValue::Number(m) = lit {
        if !(sub.multiple_of matches Some(mul) && mul == 0) {
            lemma_no_miss(sub, m);
            let i = number_as_int(m).unwrap();
            if opt_payload(i, sub) is Some {
                lemma_literal_fits(sub, i);
            }
        }
    }
    if let PathValue::String(t) = lit {
        vstd::utf8::encode_utf8_valid_utf8(t@);
        vstd::utf8::encode_utf8_decode_utf8(t@);
    }
    assert(conforms(lv, sub));
    lemma_schema_roundtrip_in(lv, sub, false, e0, e0);
    assert(w@ == canon_view(lv, sub));
    match lit {
        PathValue::String(t) => {
            crate::text::lemma_bytes_lt_irreflexive(vstd::utf8::encode_utf8(t@));
        },
        _ => {},
    }
}

/// The one value to compare that an item holding a scalar stands for,
/// compared with a literal of its kind, compares as the scalar itself does:
/// the decisions taken on the encoding under a schema agree with comparing
/// the values.
proof fn lemma_compare_item(b: Seq<u8>, it: ItemView, w: Value, op: BinaryOperator, lit: PathValue)
    requires
        item_holds(b, it, w),
        item_open(it),
        same_scalar_kind(w@, lit),
        literal_reads_back(lit, item_schema_of(it)),
        keeps_multiple(w, item_schema_of(it)),
    ensures
        item_evals(b, it).len() == 1,
        compare_eval(b, op, item_evals(b, it)[0], EvalView::Lit(lit))
            == compare_scalars(op, scalar_of(w@), path_scalar(lit)),
{
    lemma_item_decodes(b, it, w);
    let (p, e, so) = match it {
        ItemView::Enc(p, e, so) => (p, e, so),
        _ => (0, 0, None),
    };
    let enc = enc_opt(w, so);
    let pre = b.subrange(0, p);
    let rest = b.subrange(e, b.len() as int);
    assert(b =~= pre + enc + rest);
    match so {
        Some(sub) => {
            assert(item_evals(b, it) == seq![EvalView::Encoded(p, e, sub)]);
            if op == BinaryOperator::Eq && misses_multiple(sub, lit) {
                assert(number_as_int(w->Number_0) != number_as_int(lit->Number_0));
            } else if op == BinaryOperator::Eq && literal_encodable(lit, sub) && b.subrange(p, e) == enc_schema(path_value_value(lit), sub) {
                lemma_same_bytes_equal(w, sub, lit);
            }
        },
        None => {
            assert(enc == enc_untyped(w));
            assert(b[p] == enc[0]);
        },
    }
}

/// Whether `e` is a predicate comparing the path `paths` (the root `$`, then
/// field names) with the literal `lit` by an operator that compares.
pub open spec fn compares_path_with(e: Expr, paths: Seq<Path>, lit: PathValue) -> bool {
    match e {
        Expr::BinaryOp { op, left, right } => {
            &&& !(op == BinaryOperator::Or || op == BinaryOperator::And || is_arith(op))
            &&& match *left {
                Expr::Paths(ps) => ps@ == paths,
                _ => false,
            }
            &&& paths.len() >= 1
            &&& paths[0] is Root
            &&& all_fields(paths, 1)
            &&& match *right {
                Expr::Value(pv) => *pv == lit,
                _ => false,
            }
        },
        _ => false,
    }
}

/// What such a predicate yields: the comparison of what the path selects
/// with the literal.
#[verifier::spinoff_prover]
proof fn lemma_predicate_outcome(b: Seq<u8>, s: Option<Schema>, jp: JsonPath, paths: Seq<Path>, lit: PathValue)
    requires
        jp.paths@.len() == 1,
        jp.paths@[0] is Expr,
        compares_path_with(*jp.paths@[0]->Expr_0, paths, lit),
        filter_paths(b, root_item(b, s), root_item(b, s), paths) is Some,
    ensures
        predicate_outcome(b, s, jp) == Some(eval_compare(
            b,
            jp.paths@[0]->Expr_0->BinaryOp_op,
            ExprView::Many(items_evals(b, filter_paths(b, root_item(b, s), root_item(b, s), paths).unwrap(), 0)),
            ExprView::Single(lit),
        )),
{
    let e = *jp.paths@[0]->Expr_0;
    let root = root_item(b, s);
    let op = e->BinaryOp_op;
    let left = *e->BinaryOp_left;
    let right = *e->BinaryOp_right;
    let found = filter_paths(b, root, root, paths).unwrap();
    assert(left->Paths_0@ == paths);
    assert(expr_val(b, root, root, left) == Some(ExprView::Many(items_evals(b, found, 0))));
    assert(expr_val(b, root, root, right) == Some(ExprView::Single(lit)));
    assert(eval_filter(b, root, root, e) == Some(eval_compare(b, op, ExprView::Many(items_evals(b, found, 0)), ExprView::Single(lit))));
    assert(exec_path(b, root, jp) == eval_expr(b, root, root, e));
}

/// Comparing one value to compare, or none, with a literal.
proof fn lemma_compare_one(b: Seq<u8>, op: BinaryOperator, evs: Seq<EvalView>, lit: PathValue)
    requires
        evs.len() <= 1,
    ensures
        eval_compare(b, op, ExprView::Many(evs), ExprView::Single(lit)) == if evs.len() == 1 {
            compare_eval(b, op, evs[0], EvalView::Lit(lit))
        } else {
            Some(false)
        },
{
    let rs = seq![EvalView::Lit(lit)];
    if evs.len() == 1 {
        assert(compare_row(b, op, evs[0], rs, 1) == Some(false));
        assert(compare_all(b, op, evs, rs, 1) == Some(false));
    }
}

/// The values to compare of the items a path of field names selects from
/// the root that holds `v`: those of the one item holding the nested value,
/// or none.
proof fn lemma_path_evals(b: Seq<u8>, s: Option<Schema>, v: Value, paths: Seq<Path>)
    requires
        paths.len() >= 1,
        paths[0] is Root,
        all_fields(paths, 1),
        item_holds(b, root_item(b, s), v),
        item_open(root_item(b, s)),
    ensures
        filter_paths(b, root_item(b, s), root_item(b, s), paths) matches Some(found) && match nested_at(v, paths, 1) {
            Some(w) => found.len() == 1 && item_holds(b, found[0], w) && item_open(found[0])
                && item_schema_of(found[0]) == nested_schema(s, paths, 1)
                && items_evals(b, found, 0) == item_evals(b, found[0]),
            None => items_evals(b, found, 0).len() == 0,
        },
{
    let root = root_item(b, s);
    lemma_walk(b, root, root, v, paths, 1, false);
    assert(sel_paths(b, root, seq![root], paths, 0, false) == sel_paths(b, root, seq![root], paths, 1, false));
    let found = sel_paths(b, root, seq![root], paths, 1, false).unwrap();
    assert(filter_paths(b, root, root, paths) == Some(found));
    match nested_at(v, paths, 1) {
        Some(w) => {
            assert(items_evals(b, found, 1) == Seq::<EvalView>::empty());
            assert(items_evals(b, found, 0) =~= item_evals(b, found[0]));
        },
        None => {
            assert(items_evals(b, found, 0) =~= Seq::<EvalView>::empty());
        },
    }
}

/// A predicate `P <op> literal`, where `P` is `$` or a path of field names
/// under it and `<op>` compares (`==`, `!=`, `<`, `<=`, `>`, `>=`, `starts
/// with`), decides the same on a value encoded under a schema it conforms to
/// as on the same value without a schema. Where the path reaches a value, it
/// is a scalar of the literal's kind (null, boolean, integer or string) that
/// keeps its schema's `multipleOf`, and the literal reads back as written
/// there.
pub proof fn lemma_predicate_agrees(v: Value, s: Schema, jp: JsonPath, paths: Seq<Path>, lit: PathValue)
    requires
        enc_ok(v, s),
        conforms_exact(v, s),
        schema_open(s),
        value_wf(v),
        jp.paths@.len() == 1,
        jp.paths@[0] is Expr,
        compares_path_with(*jp.paths@[0]->Expr_0, paths, lit),
        nested_at(v, paths, 1) matches Some(w) ==> same_scalar_kind(w@, lit)
            && literal_reads_back(lit, nested_schema(Some(s), paths, 1))
            && keeps_multiple(w, nested_schema(Some(s), paths, 1)),
    ensures
        predicate_outcome(enc_schema(v, s), Some(s), jp) == predicate_outcome(enc_untyped(v), None, jp),
{
    let bt = enc_schema(v, s);
    let bu = enc_untyped(v);
    let op = jp.paths@[0]->Expr_0->BinaryOp_op;
    let rt = root_item(bt, Some(s));
    let ru = root_item(bu, None);
    assert(bt.subrange(0, bt.len() as int) =~= bt);
    assert(bu.subrange(0, bu.len() as int) =~= bu);
    assert(item_holds(bt, rt, v));
    assert(item_holds(bu, ru, v));
    lemma_path_evals(bt, Some(s), v, paths);
    lemma_path_evals(bu, None, v, paths);
    let ft = filter_paths(bt, rt, rt, paths).unwrap();
    let fu = filter_paths(bu, ru, ru, paths).unwrap();
    lemma_predicate_outcome(bt, Some(s), jp, paths, lit);
    lemma_predicate_outcome(bu, None, jp, paths, lit);
    if let Some(w) = nested_at(v, paths, 1) {
        lemma_nested_schema_none(paths, 1);
        lemma_compare_item(bt, ft[0], w, op, lit);
        lemma_compare_item(bu, fu[0], w, op, lit);
        lemma_compare_one(bt, op, items_evals(bt, ft, 0), lit);
        lemma_compare_one(bu, op, items_evals(bu, fu, 0), lit);
    } else {
        lemma_compare_one(bt, op, items_evals(bt, ft, 0), lit);
        lemma_compare_one(bu, op, items_evals(bu, fu, 0), lit);
    }
}

/// Below a value in the untyped form, every nested value is in the untyped
/// form too.
proof fn lemma_nested_schema_none(paths: Seq<Path>, k: int)
    ensures
        nested_schema(None, paths, k) is None,
    decreases paths.len() - k,
{
    if 0 <= k < paths.len() {
        lemma_nested_schema_none(paths, k + 1);
    }
}

} // verus!
