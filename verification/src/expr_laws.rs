//! What filters, predicates and arithmetic in paths mean: each comparison
//! decides as the order of the compared values does, `&&` and `||` combine
//! outcomes as the boolean connectives, and arithmetic computes the
//! integer sum, difference, product, quotient and remainder of its
//! operands, the left one first.

use vstd::prelude::*;
use vstd::utf8::{encode_utf8, encode_utf8_decode_utf8};
use crate::value::{Number, ValueView, number_as_int};
use crate::types::Schema;
use crate::jsonpath::{BinaryOperator, UnaryOperator, Expr, JsonPath, Path, PathValue, ArrayIndex, Index,
    index_positions, convert_index};
use crate::text::{bytes_lt, lemma_bytes_lt_irreflexive, lemma_bytes_lt_asymmetric, lemma_bytes_lt_total};
use crate::select_spec::{ItemView, Scalar, compare_scalars, path_scalar, eval_filter, eval_expr, arith, negate,
    is_arith, root_item, expr_val, eval_compare, compare_all, compare_row, compare_eval, evals_of, ExprView,
    EvalView, operand_number, operand_numbers, eval_numbers, negate_all, number_items, filter_items, filter_paths,
    sel_paths, step_all};
use crate::selector::{predicate_outcome, selected};

verus! {

// ------------------------------------------------------------ comparing

/// Integers compare by their values: `==`, `!=`, `<`, `<=`, `>` and `>=`
/// decide as those relations do on the integers; `starts with` does not
/// apply to them.
pub proof fn lemma_compare_integers(op: BinaryOperator, x: Number, y: Number)
    requires
        number_as_int(x) is Some,
        number_as_int(y) is Some,
    ensures
        ({
            let i = number_as_int(x).unwrap();
            let j = number_as_int(y).unwrap();
            let r = compare_scalars(op, Scalar::Num(x), Scalar::Num(y));
            &&& op == BinaryOperator::Eq ==> r == Some(i == j)
            &&& op == BinaryOperator::NotEq ==> r == Some(i != j)
            &&& op == BinaryOperator::Lt ==> r == Some(i < j)
            &&& op == BinaryOperator::Lte ==> r == Some(i <= j)
            &&& op == BinaryOperator::Gt ==> r == Some(i > j)
            &&& op == BinaryOperator::Gte ==> r == Some(i >= j)
            &&& op == BinaryOperator::StartsWith ==> r is None
        }),
{
}

/// Strings compare by their UTF-8 bytes: equal when they are the same
/// text, `<` when the left one sorts first, `<=` when it sorts first or is
/// the same, and so on; `starts with` holds when the right one begins the
/// left one.
pub proof fn lemma_compare_strings(op: BinaryOperator, a: Seq<char>, c: Seq<char>)
    ensures
        ({
            let ab = encode_utf8(a);
            let cb = encode_utf8(c);
            let r = compare_scalars(op, Scalar::Str(a), Scalar::Str(c));
            &&& op == BinaryOperator::Eq ==> r == Some(a == c)
            &&& op == BinaryOperator::NotEq ==> r == Some(a != c)
            &&& op == BinaryOperator::Lt ==> r == Some(bytes_lt(ab, cb))
            &&& op == BinaryOperator::Lte ==> r == Some(bytes_lt(ab, cb) || a == c)
            &&& op == BinaryOperator::Gt ==> r == Some(bytes_lt(cb, ab))
            &&& op == BinaryOperator::Gte ==> r == Some(bytes_lt(cb, ab) || a == c)
            &&& op == BinaryOperator::StartsWith ==> r == Some(cb.is_prefix_of(ab))
        }),
{
    let ab = encode_utf8(a);
    let cb = encode_utf8(c);
    encode_utf8_decode_utf8(a);
    encode_utf8_decode_utf8(c);
    assert((ab == cb) == (a == c));
    lemma_bytes_lt_irreflexive(ab);
    lemma_bytes_lt_asymmetric(ab, cb);
    lemma_bytes_lt_total(ab, cb);
}

/// Booleans compare with `false` before `true`.
pub proof fn lemma_compare_booleans(op: BinaryOperator, x: bool, y: bool)
    ensures
        ({
            let r = compare_scalars(op, Scalar::Bool(x), Scalar::Bool(y));
            &&& op == BinaryOperator::Eq ==> r == Some(x == y)
            &&& op == BinaryOperator::NotEq ==> r == Some(x != y)
            &&& op == BinaryOperator::Lt ==> r == Some(!x && y)
            &&& op == BinaryOperator::Lte ==> r == Some(!x || y)
            &&& op == BinaryOperator::Gt ==> r == Some(x && !y)
            &&& op == BinaryOperator::Gte ==> r == Some(x || !y)
        }),
{
}

/// Null equals null, and so is both at most and at least null.
pub proof fn lemma_compare_nulls(op: BinaryOperator)
    ensures
        ({
            let r = compare_scalars(op, Scalar::Null, Scalar::Null);
            &&& op == BinaryOperator::Eq ==> r == Some(true)
            &&& op == BinaryOperator::NotEq ==> r == Some(false)
            &&& op == BinaryOperator::Lt ==> r == Some(false)
            &&& op == BinaryOperator::Lte ==> r == Some(true)
            &&& op == BinaryOperator::Gt ==> r == Some(false)
            &&& op == BinaryOperator::Gte ==> r == Some(true)
        }),
{
}

/// Swapping the operands swaps `<` with `>` and `<=` with `>=`, and keeps
/// `==` and `!=`: for any two values.
pub proof fn lemma_compare_converse(l: Scalar, r: Scalar)
    ensures
        compare_scalars(BinaryOperator::Lt, l, r) == compare_scalars(BinaryOperator::Gt, r, l),
        compare_scalars(BinaryOperator::Lte, l, r) == compare_scalars(BinaryOperator::Gte, r, l),
        compare_scalars(BinaryOperator::Eq, l, r) == compare_scalars(BinaryOperator::Eq, r, l),
        compare_scalars(BinaryOperator::NotEq, l, r) == compare_scalars(BinaryOperator::NotEq, r, l),
{
    if let (Scalar::Str(a), Scalar::Str(c)) = (l, r) {
        lemma_compare_strings(BinaryOperator::Lt, a, c);
        lemma_compare_strings(BinaryOperator::Gt, c, a);
        lemma_compare_strings(BinaryOperator::Lte, a, c);
        lemma_compare_strings(BinaryOperator::Gte, c, a);
        lemma_compare_strings(BinaryOperator::Eq, a, c);
        lemma_compare_strings(BinaryOperator::Eq, c, a);
        lemma_compare_strings(BinaryOperator::NotEq, a, c);
        lemma_compare_strings(BinaryOperator::NotEq, c, a);
    }
}

/// A value compares equal to itself, and at most and at least itself.
pub proof fn lemma_compare_reflexive(l: Scalar)
    requires
        !(l is Container),
        l matches Scalar::Num(n) ==> number_as_int(n) is Some,
    ensures
        compare_scalars(BinaryOperator::Eq, l, l) == Some(true),
        compare_scalars(BinaryOperator::Lte, l, l) == Some(true),
        compare_scalars(BinaryOperator::Gte, l, l) == Some(true),
        compare_scalars(BinaryOperator::Lt, l, l) == Some(false),
        compare_scalars(BinaryOperator::Gt, l, l) == Some(false),
{
    if let Scalar::Str(a) = l {
        lemma_compare_strings(BinaryOperator::Eq, a, a);
        lemma_compare_strings(BinaryOperator::Lte, a, a);
        lemma_compare_strings(BinaryOperator::Gte, a, a);
        lemma_compare_strings(BinaryOperator::Lt, a, a);
        lemma_compare_strings(BinaryOperator::Gt, a, a);
        lemma_bytes_lt_irreflexive(encode_utf8(a));
    }
}

// ------------------------------------------------------------ filters

/// Whether `e` is `p <op> q` for two literals and an operator that
/// compares.
pub open spec fn compares_literals(e: Expr, op: BinaryOperator, p: PathValue, q: PathValue) -> bool {
    match e {
        Expr::BinaryOp { op: o, left, right } => {
            &&& o == op
            &&& !(op == BinaryOperator::Or || op == BinaryOperator::And || is_arith(op))
            &&& (*left matches Expr::Value(a) && *a == p)
            &&& (*right matches Expr::Value(c) && *c == q)
        },
        _ => false,
    }
}

/// A filter comparing two literals decides as comparing them does, the
/// left one first.
pub proof fn lemma_filter_literals(b: Seq<u8>, root: ItemView, it: ItemView, e: Expr, op: BinaryOperator, p: PathValue, q: PathValue)
    requires
        compares_literals(e, op, p, q),
    ensures
        eval_filter(b, root, it, e) == Some(compare_scalars(op, path_scalar(p), path_scalar(q))),
{
    let left = *e->BinaryOp_left;
    let right = *e->BinaryOp_right;
    assert(expr_val(b, root, it, left) == Some(ExprView::Single(p)));
    assert(expr_val(b, root, it, right) == Some(ExprView::Single(q)));
    let rs = seq![EvalView::Lit(q)];
    let ls = seq![EvalView::Lit(p)];
    assert(evals_of(ExprView::Single(q)) == rs);
    assert(evals_of(ExprView::Single(p)) == ls);
    assert(compare_row(b, op, ls[0], rs, 1) == Some(false));
    assert(compare_all(b, op, ls, rs, 1) == Some(false));
    assert(compare_eval(b, op, EvalView::Lit(p), EvalView::Lit(q)) == compare_scalars(op, path_scalar(p), path_scalar(q)));
}

/// `l && r` holds exactly when both hold, and `l || r` when either does,
/// where both decide.
pub proof fn lemma_filter_connectives(b: Seq<u8>, root: ItemView, it: ItemView, e: Expr, x: bool, y: bool)
    requires
        e matches Expr::BinaryOp { op, left, right } && (op == BinaryOperator::And || op == BinaryOperator::Or)
            && eval_filter(b, root, it, *left) == Some(Some(x)) && eval_filter(b, root, it, *right) == Some(Some(y)),
    ensures
        e->BinaryOp_op == BinaryOperator::And ==> eval_filter(b, root, it, e) == Some(Some(x && y)),
        e->BinaryOp_op == BinaryOperator::Or ==> eval_filter(b, root, it, e) == Some(Some(x || y)),
{
}

/// A predicate path whose one expression is a comparison or a connective
/// yields what that filter decides at the root.
pub proof fn lemma_predicate_decides(b: Seq<u8>, s: Option<Schema>, jp: JsonPath, x: bool)
    requires
        jp.paths@.len() == 1,
        jp.paths@[0] matches crate::jsonpath::Path::Expr(e) && (*e matches Expr::BinaryOp { op, .. } && !is_arith(op))
            && eval_filter(b, root_item(b, s), root_item(b, s), *e) == Some(Some(x)),
    ensures
        predicate_outcome(b, s, jp) == Some(Some(x)),
{
}

/// Putting an item in front of items puts it in front of those a filter
/// keeps, when it passes.
proof fn lemma_filter_front(x: ItemView, rest: Seq<ItemView>, pred: spec_fn(ItemView) -> bool)
    ensures
        (seq![x] + rest).filter(pred) == if pred(x) {
            seq![x] + rest.filter(pred)
        } else {
            rest.filter(pred)
        },
    decreases rest.len(),
{
    reveal(Seq::filter);
    let s = seq![x] + rest;
    if rest.len() == 0 {
        assert(s.drop_last() =~= Seq::<ItemView>::empty());
        assert(Seq::<ItemView>::empty().filter(pred) =~= Seq::<ItemView>::empty());
        assert(rest.filter(pred) =~= Seq::<ItemView>::empty());
        assert(s.last() == x);
        assert(seq![x] + Seq::<ItemView>::empty() =~= seq![x]);
        assert(Seq::<ItemView>::empty().push(x) =~= seq![x]);
    } else {
        let rl = rest.drop_last();
        lemma_filter_front(x, rl, pred);
        assert(s.drop_last() =~= seq![x] + rl);
        assert(s.last() == rest.last());
        if pred(x) {
            if pred(rest.last()) {
                assert(seq![x] + rl.filter(pred).push(rest.last()) =~= (seq![x] + rl.filter(pred)).push(rest.last()));
            }
        }
    }
}

/// The items a filter keeps from index `i` on: in order, exactly those for
/// which it holds.
proof fn lemma_filter_keeps_from(b: Seq<u8>, root: ItemView, items: Seq<ItemView>, e: Expr, i: int)
    requires
        0 <= i <= items.len(),
        forall|j: int| 0 <= j < items.len() ==> eval_filter(b, root, #[trigger] items[j], e) is Some,
    ensures
        filter_items(b, root, items, e, i) == Some(
            items.subrange(i, items.len() as int).filter(|it: ItemView| eval_filter(b, root, it, e) == Some(Some(true))),
        ),
    decreases items.len() - i,
{
    let pred = |it: ItemView| eval_filter(b, root, it, e) == Some(Some(true));
    let n = items.len() as int;
    if i < n {
        lemma_filter_keeps_from(b, root, items, e, i + 1);
        assert(items.subrange(i, n) =~= seq![items[i]] + items.subrange(i + 1, n));
        lemma_filter_front(items[i], items.subrange(i + 1, n), pred);
        assert(eval_filter(b, root, items[i], e) is Some);
    } else {
        reveal(Seq::filter);
        assert(items.subrange(i, n) =~= Seq::<ItemView>::empty());
    }
}

/// A filter `? (...)` keeps, in order, exactly the items for which it
/// holds, where it decides at each.
pub proof fn lemma_filter_keeps(b: Seq<u8>, root: ItemView, items: Seq<ItemView>, e: Expr)
    requires
        forall|j: int| 0 <= j < items.len() ==> eval_filter(b, root, #[trigger] items[j], e) is Some,
    ensures
        filter_items(b, root, items, e, 0) == Some(
            items.filter(|it: ItemView| eval_filter(b, root, it, e) == Some(Some(true))),
        ),
{
    lemma_filter_keeps_from(b, root, items, e, 0);
    assert(items.subrange(0, items.len() as int) =~= items);
}

/// Segments with no expression among them select the same whether or not
/// they stand at the top of a path.
proof fn lemma_sel_top(b: Seq<u8>, root: ItemView, items: Seq<ItemView>, paths: Seq<Path>, k: int)
    requires
        0 <= k,
        forall|j: int| k <= j < paths.len() ==> !(#[trigger] paths[j] is Expr),
    ensures
        sel_paths(b, root, items, paths, k, true) == sel_paths(b, root, items, paths, k, false),
    decreases paths.len() - k,
{
    if k < paths.len() {
        assert(!(paths[k] is Expr));
        match paths[k] {
            Path::FilterExpr(e) => {
                if let Some(kept) = filter_items(b, root, items, *e, 0) {
                    lemma_sel_top(b, root, kept, paths, k + 1);
                }
            },
            Path::Root | Path::Current => {
                lemma_sel_top(b, root, items, paths, k + 1);
            },
            _ => {
                if let Some(next) = step_all(b, items, paths[k], 0) {
                    lemma_sel_top(b, root, next, paths, k + 1);
                }
            },
        }
    }
}

/// `exists(P)`, for a path `P` from `$` with no expression segment, holds
/// at any item exactly when `P` selects something.
pub proof fn lemma_exists_selects(b: Seq<u8>, s: Option<Schema>, it: ItemView, e: Expr, jp: JsonPath)
    requires
        e matches Expr::ExistsFunc(ps) && ps@ == jp.paths@,
        jp.paths@.len() >= 1,
        jp.paths@[0] is Root,
        forall|j: int| 0 <= j < jp.paths@.len() ==> !(#[trigger] jp.paths@[j] is Expr),
        selected(b, s, jp) is Some,
    ensures
        eval_filter(b, root_item(b, s), it, e) == Some(Some(selected(b, s, jp).unwrap().len() > 0)),
{
    let root = root_item(b, s);
    let paths = jp.paths@;
    lemma_sel_top(b, root, seq![root], paths, 0);
    assert(!(paths[0] is Expr));
    assert(filter_paths(b, root, it, paths) == sel_paths(b, root, seq![root], paths, 0, false));
}

/// Comparing several values with several others holds when some pair
/// compares true, where every pair decides.
pub proof fn lemma_compare_any(b: Seq<u8>, op: BinaryOperator, ls: Seq<EvalView>, rs: Seq<EvalView>)
    requires
        forall|i: int, j: int| 0 <= i < ls.len() && 0 <= j < rs.len() ==> (#[trigger] compare_eval(b, op, ls[i], rs[j])) is Some,
    ensures
        compare_all(b, op, ls, rs, 0) == Some(
            exists|i: int, j: int| 0 <= i < ls.len() && 0 <= j < rs.len() && #[trigger] compare_eval(b, op, ls[i], rs[j])
                == Some(true),
        ),
{
    lemma_compare_all_from(b, op, ls, rs, 0);
}

proof fn lemma_compare_all_from(b: Seq<u8>, op: BinaryOperator, ls: Seq<EvalView>, rs: Seq<EvalView>, i: int)
    requires
        0 <= i <= ls.len(),
        forall|a: int, c: int| 0 <= a < ls.len() && 0 <= c < rs.len() ==> (#[trigger] compare_eval(b, op, ls[a], rs[c])) is Some,
    ensures
        compare_all(b, op, ls, rs, i) == Some(
            exists|a: int, c: int| i <= a < ls.len() && 0 <= c < rs.len() && #[trigger] compare_eval(b, op, ls[a], rs[c])
                == Some(true),
        ),
    decreases ls.len() - i,
{
    if i < ls.len() {
        lemma_compare_row_from(b, op, ls[i], rs, 0);
        lemma_compare_all_from(b, op, ls, rs, i + 1);
        assert forall|c: int| 0 <= c < rs.len() implies (#[trigger] compare_eval(b, op, ls[i], rs[c])) is Some by {}
        if exists|a: int, c: int| i <= a < ls.len() && 0 <= c < rs.len() && #[trigger] compare_eval(b, op, ls[a], rs[c]) == Some(true) {
            let (a, c) = choose|a: int, c: int| i <= a < ls.len() && 0 <= c < rs.len() && #[trigger] compare_eval(b, op, ls[a], rs[c]) == Some(true);
            if a == i {
                assert(exists|c2: int| 0 <= c2 < rs.len() && #[trigger] compare_eval(b, op, ls[i], rs[c2]) == Some(true));
            } else {
                assert(i + 1 <= a < ls.len() && 0 <= c < rs.len() && compare_eval(b, op, ls[a], rs[c]) == Some(true));
            }
        }
    }
}

proof fn lemma_compare_row_from(b: Seq<u8>, op: BinaryOperator, l: EvalView, rs: Seq<EvalView>, j: int)
    requires
        0 <= j <= rs.len(),
        forall|c: int| 0 <= c < rs.len() ==> (#[trigger] compare_eval(b, op, l, rs[c])) is Some,
    ensures
        compare_row(b, op, l, rs, j) == Some(
            exists|c: int| j <= c < rs.len() && #[trigger] compare_eval(b, op, l, rs[c]) == Some(true),
        ),
    decreases rs.len() - j,
{
    if j < rs.len() {
        lemma_compare_row_from(b, op, l, rs, j + 1);
        assert(compare_eval(b, op, l, rs[j]) is Some);
    }
}

// ------------------------------------------------------------ indices

/// `[i]` names position `i`, and `[last]` (`LastIndex(0)`) the last one,
/// `LastIndex(-k)` the `k`-th before it; a position outside the array
/// names nothing. A slice names the positions from its first to its last
/// end, both included, in increasing order.
pub proof fn lemma_index_positions(a: ArrayIndex, len: int)
    requires
        len >= 0,
    ensures
        a matches ArrayIndex::Index(Index::Index(i)) ==> index_positions(a, len) == if 0 <= i < len {
            seq![i as int]
        } else {
            Seq::<int>::empty()
        },
        a matches ArrayIndex::Index(Index::LastIndex(i)) ==> index_positions(a, len) == if 0 <= len - 1 + i < len {
            seq![len - 1 + i]
        } else {
            Seq::<int>::empty()
        },
        (a is Slice && convert_index(a->Slice_0, len) is Some && convert_index(a->Slice_1, len) is Some) ==> ({
            let s = convert_index(a->Slice_0, len).unwrap();
            let e = convert_index(a->Slice_1, len).unwrap();
            &&& index_positions(a, len).len() == if s <= e { e - s + 1 } else { 0 }
            &&& forall|k: int| 0 <= k < index_positions(a, len).len() ==> #[trigger] index_positions(a, len)[k] == s + k
        }),
{
    if let ArrayIndex::Slice(lo, hi) = a {
        if let (Some(s), Some(e)) = (convert_index(lo, len), convert_index(hi, len)) {
            let ps = index_positions(a, len);
            assert(ps == crate::jsonpath::range_incl(s, e));
            if s <= e {
                assert(ps.len() == e - s + 1);
            }
        }
    }
}

// ------------------------------------------------------------ arithmetic

/// The integer a number stands for, when it is one.
pub open spec fn int_of(n: Number) -> int {
    number_as_int(n).unwrap()
}

/// Arithmetic on integers computes, the left operand first: the sum, the
/// difference and the product where they fit in `i128`, and none where
/// they do not.
pub proof fn lemma_arith_ring(op: BinaryOperator, x: Number, y: Number)
    requires
        number_as_int(x) is Some,
        number_as_int(y) is Some,
        op == BinaryOperator::Add || op == BinaryOperator::Subtract || op == BinaryOperator::Multiply,
    ensures
        ({
            let i = int_of(x);
            let j = int_of(y);
            let v = if op == BinaryOperator::Add { i + j } else if op == BinaryOperator::Subtract { i - j } else { i * j };
            &&& (i128::MIN <= v <= i128::MAX) ==> (arith(op, x, y) matches Some(n) && number_as_int(n) == Some(v))
            &&& !(i128::MIN <= v <= i128::MAX) ==> arith(op, x, y) is None
        }),
{
    let i = int_of(x);
    let j = int_of(y);
    if op == BinaryOperator::Multiply {
        assert((i as i128) as int * (j as i128) as int == i * j);
    }
}

/// A quotient is exact: `x / y` gives the integer that `y` times gives
/// `x`; where `y` divides `x` and the quotient fits, there is one.
pub proof fn lemma_arith_divide(x: Number, y: Number, q: int)
    requires
        number_as_int(x) is Some,
        number_as_int(y) is Some,
    ensures
        arith(BinaryOperator::Divide, x, y) matches Some(n) ==> int_of(n) * int_of(y) == int_of(x),
        (int_of(y) != 0 && q * int_of(y) == int_of(x) && i128::MIN <= q <= i128::MAX) ==> (arith(
            BinaryOperator::Divide,
            x,
            y,
        ) matches Some(n) && number_as_int(n) == Some(q)),
{
    let i = int_of(x);
    let j = int_of(y);
    if let Some(n) = arith(BinaryOperator::Divide, x, y) {
        let a = i as i128;
        let c = j as i128;
        assert(c != 0);
        lemma_rust_div_rem(i, j);
    }
    if j != 0 && q * j == i && i128::MIN <= q <= i128::MAX {
        lemma_rust_div_rem(i, j);
        lemma_div_unique(i, j, q);
    }
}

/// The remainder `x % y` is what is left of `x` after taking away a whole
/// multiple of `y`: smaller than `y` in size, and of the sign of `x`; none
/// when `y` is zero.
pub proof fn lemma_arith_modulo(x: Number, y: Number)
    requires
        number_as_int(x) is Some,
        number_as_int(y) is Some,
    ensures
        ({
            let i = int_of(x);
            let j = int_of(y);
            &&& j == 0 ==> arith(BinaryOperator::Modulo, x, y) is None
            &&& (j != 0 && !(i == i128::MIN && j == -1)) ==> arith(BinaryOperator::Modulo, x, y) is Some
            &&& arith(BinaryOperator::Modulo, x, y) matches Some(n) ==> {
                let r = int_of(n);
                &&& exists|k: int| #[trigger] times(k, j) + r == i
                &&& -abs(j) < r < abs(j)
                &&& (r == 0 || (r > 0) == (i > 0))
            }
        }),
{
    let i = int_of(x);
    let j = int_of(y);
    if j != 0 {
        lemma_rust_div_rem(i, j);
        if let Some(n) = arith(BinaryOperator::Modulo, x, y) {
            let k = crate::spec_enc::tdiv(i, j);
            assert(times(k, j) + int_of(n) == i);
        }
    }
}

/// `k` times `d`.
pub open spec fn times(k: int, d: int) -> int {
    k * d
}

/// The size of an integer.
pub open spec fn abs(v: int) -> int {
    if v < 0 { -v } else { v }
}

/// Rust's `/` and `%` on `i128`: the quotient rounds toward zero, and the
/// remainder takes the sign of the dividend and is smaller than the divisor.
proof fn lemma_rust_div_rem(i: int, j: int)
    requires
        i128::MIN <= i <= i128::MAX,
        i128::MIN <= j <= i128::MAX,
        j != 0,
    ensures
        ({
            let a = i as i128;
            let c = j as i128;
            &&& !(i == i128::MIN && j == -1) ==> (a.checked_rem(c) matches Some(r) && crate::spec_enc::trem(i, j) == r)
            &&& !(i == i128::MIN && j == -1) ==> (a.checked_div(c) matches Some(d) && crate::spec_enc::tdiv(i, j) == d)
            &&& (i == i128::MIN && j == -1) ==> a.checked_rem(c) is None && a.checked_div(c) is None
            &&& crate::spec_enc::tdiv(i, j) * j + crate::spec_enc::trem(i, j) == i
            &&& -abs(j) < crate::spec_enc::trem(i, j) < abs(j)
            &&& (crate::spec_enc::trem(i, j) == 0 || (crate::spec_enc::trem(i, j) > 0) == (i > 0))
        }),
{
    crate::schema_roundtrip::lemma_tdiv_trem(i, j);
    lemma_trem_bounds(i, j);
}

/// Bounds of the truncated remainder.
proof fn lemma_trem_bounds(i: int, j: int)
    requires
        j != 0,
    ensures
        -abs(j) < crate::spec_enc::trem(i, j) < abs(j),
        crate::spec_enc::trem(i, j) == 0 || (crate::spec_enc::trem(i, j) > 0) == (i > 0),
{
    let ai = abs(i);
    let aj = abs(j);
    assert(0 <= ai % aj < aj) by {
        vstd::arithmetic::div_mod::lemma_mod_pos_bound(ai, aj);
    }
}

/// The quotient of an exact division is the one integer that times the
/// divisor gives the dividend.
proof fn lemma_div_unique(i: int, j: int, q: int)
    requires
        j != 0,
        q * j == i,
    ensures
        crate::spec_enc::tdiv(i, j) == q,
        crate::spec_enc::trem(i, j) == 0,
{
    crate::schema_roundtrip::lemma_tdiv_trem(i, j);
    lemma_trem_bounds(i, j);
    let d = crate::spec_enc::tdiv(i, j);
    let r = crate::spec_enc::trem(i, j);
    assert(r == (q - d) * j) by (nonlinear_arith)
        requires d * j + r == i, q * j == i;
    if q != d {
        assert(abs((q - d) * j) >= abs(j)) by (nonlinear_arith)
            requires q - d != 0, j != 0;
    }
}

/// Negating an integer gives its opposite, where that fits in `i128`.
pub proof fn lemma_negate(x: Number)
    requires
        number_as_int(x) is Some,
        int_of(x) != i128::MIN,
    ensures
        negate(x) matches Some(n) && number_as_int(n) == Some(-int_of(x)),
{
}

/// Whether `e` is `p <op> q` for two number literals and an arithmetic
/// operator.
pub open spec fn computes_literals(e: Expr, op: BinaryOperator, x: Number, y: Number) -> bool {
    match e {
        Expr::BinaryOp { op: o, left, right } => {
            &&& o == op
            &&& is_arith(op)
            &&& (*left matches Expr::Value(a) && *a == PathValue::Number(x))
            &&& (*right matches Expr::Value(c) && *c == PathValue::Number(y))
        },
        _ => false,
    }
}

/// An arithmetic expression on two number literals yields the one number
/// that the operator computes from them, the left one first.
pub proof fn lemma_expr_literals(b: Seq<u8>, root: ItemView, it: ItemView, e: Expr, op: BinaryOperator, x: Number, y: Number)
    requires
        computes_literals(e, op, x, y),
    ensures
        eval_expr(b, root, it, e) == match arith(op, x, y) {
            Some(z) => Some(seq![ItemView::Val(ValueView::Number(z))]),
            None => None::<Seq<ItemView>>,
        },
{
    let left = *e->BinaryOp_left;
    let right = *e->BinaryOp_right;
    assert(expr_val(b, root, it, left) == Some(ExprView::Single(PathValue::Number(x))));
    assert(expr_val(b, root, it, right) == Some(ExprView::Single(PathValue::Number(y))));
    assert(evals_of(ExprView::Single(PathValue::Number(x))) == seq![EvalView::Lit(PathValue::Number(x))]);
    assert(evals_of(ExprView::Single(PathValue::Number(y))) == seq![EvalView::Lit(PathValue::Number(y))]);
    assert(operand_number(b, ExprView::Single(PathValue::Number(x))) == Some(x));
    assert(operand_number(b, ExprView::Single(PathValue::Number(y))) == Some(y));
}

/// `+x` on a number literal yields the number itself.
pub proof fn lemma_plus_literal(b: Seq<u8>, root: ItemView, it: ItemView, e: Expr, x: Number)
    requires
        e matches Expr::UnaryOp { op, operand } && op == UnaryOperator::Add
            && (*operand matches Expr::Value(a) && *a == PathValue::Number(x)),
    ensures
        eval_expr(b, root, it, e) == Some(seq![ItemView::Val(ValueView::Number(x))]),
{
    let operand = *e->UnaryOp_operand;
    let ev = ExprView::Single(PathValue::Number(x));
    assert(expr_val(b, root, it, operand) == Some(ev));
    let es = seq![EvalView::Lit(PathValue::Number(x))];
    assert(evals_of(ev) == es);
    assert(eval_numbers(b, es, 1) == Some(Seq::<Number>::empty()));
    assert(eval_numbers(b, es, 0) == Some(seq![x] + Seq::<Number>::empty()));
    assert(seq![x] + Seq::<Number>::empty() =~= seq![x]);
    assert(number_items(seq![x]) =~= seq![ItemView::Val(ValueView::Number(x))]);
}

/// `-x` on a number literal yields its negation.
pub proof fn lemma_negate_literal(b: Seq<u8>, root: ItemView, it: ItemView, e: Expr, x: Number)
    requires
        e matches Expr::UnaryOp { op, operand } && op == UnaryOperator::Subtract
            && (*operand matches Expr::Value(a) && *a == PathValue::Number(x)),
    ensures
        eval_expr(b, root, it, e) == match negate(x) {
            Some(z) => Some(seq![ItemView::Val(ValueView::Number(z))]),
            None => None::<Seq<ItemView>>,
        },
{
    let operand = *e->UnaryOp_operand;
    let ev = ExprView::Single(PathValue::Number(x));
    assert(expr_val(b, root, it, operand) == Some(ev));
    let es = seq![EvalView::Lit(PathValue::Number(x))];
    assert(evals_of(ev) == es);
    assert(eval_numbers(b, es, 1) == Some(Seq::<Number>::empty()));
    assert(eval_numbers(b, es, 0) == Some(seq![x] + Seq::<Number>::empty()));
    assert(seq![x] + Seq::<Number>::empty() =~= seq![x]);
    assert(operand_numbers(b, ev) == Some(seq![x]));
    assert(negate_all(seq![x], 1) == Some(Seq::<Number>::empty()));
    if let Some(z) = negate(x) {
        assert(negate_all(seq![x], 0) == Some(seq![z] + Seq::<Number>::empty()));
        assert(seq![z] + Seq::<Number>::empty() =~= seq![z]);
        assert(number_items(seq![z]) =~= seq![ItemView::Val(ValueView::Number(z))]);
    }
}

} // verus!
