//! What selecting a path from an encoded value yields: the items each path
//! segment reaches, how filters and predicates evaluate, and how compared
//! values are ordered.
//!
//! An item is either a value encoded in the root buffer (where it starts
//! and ends, and the schema it is encoded under) or a value computed by an
//! expression. Every failure is the one error `InvalidJsonPath`, so a failed
//! selection is written `None` here.

use vstd::prelude::*;
use vstd::utf8::encode_utf8;
use crate::value::{Number, Value, ValueView, number_as_int, int_number};
use crate::types::Schema;
use crate::jsonpath::{
    ArrayIndex, BinaryOperator, Expr, JsonPath, Path, PathValue, RecursiveLevel, UnaryOperator,
    index_positions, level_check,
};
use crate::spec_enc::{enc_schema, number_ok, trem, TAG_ARRAY};
use crate::spec_dec::{dec_schema, key_lt};
use crate::traverse::{dec_opt, members, elements, is_array_at};
use crate::text::bytes_lt;

verus! {

/// An item reached by a path: an encoded value (start, end, schema) or a
/// computed one.
pub enum ItemView {
    Enc(int, int, Option<Schema>),
    Val(ValueView),
}

/// The value an item stands for.
pub open spec fn item_value(b: Seq<u8>, it: ItemView) -> ValueView {
    match it {
        ItemView::Enc(p, _, s) => dec_opt(b, p, s).0,
        ItemView::Val(v) => v,
    }
}

/// The values items stand for, in order.
pub open spec fn item_values(b: Seq<u8>, items: Seq<ItemView>) -> Seq<ValueView> {
    items.map_values(|it: ItemView| item_value(b, it))
}

/// The value a path literal stands for.
pub open spec fn path_value_view(pv: PathValue) -> ValueView {
    match pv {
        PathValue::Null => ValueView::Null,
        PathValue::Boolean(x) => ValueView::Bool(x),
        PathValue::Number(n) => ValueView::Number(n),
        PathValue::String(s) => ValueView::String(s@),
    }
}

/// The value a path literal is encoded as.
pub open spec fn path_value_value(pv: PathValue) -> Value {
    match pv {
        PathValue::Null => Value::Null,
        PathValue::Boolean(x) => Value::Bool(x),
        PathValue::Number(n) => Value::Number(n),
        PathValue::String(s) => Value::String(s),
    }
}

// ------------------------------------------------------------ path steps

/// The items of object members.
pub open spec fn member_items(b: Seq<u8>, ms: Seq<(Seq<char>, int, Option<Schema>)>) -> Seq<ItemView> {
    ms.map_values(|m: (Seq<char>, int, Option<Schema>)| ItemView::Enc(m.1, dec_opt(b, m.1, m.2).1, m.2))
}

/// The items of array elements.
pub open spec fn element_items(b: Seq<u8>, es: Seq<(int, Option<Schema>)>) -> Seq<ItemView> {
    es.map_values(|e: (int, Option<Schema>)| ItemView::Enc(e.0, dec_opt(b, e.0, e.1).1, e.1))
}

/// The item of the first member keyed `name`, from index `i` on.
pub open spec fn field_items(b: Seq<u8>, ms: Seq<(Seq<char>, int, Option<Schema>)>, name: Seq<char>, i: int) -> Seq<ItemView>
    decreases ms.len() - i,
{
    if i < 0 || i >= ms.len() {
        Seq::empty()
    } else if ms[i].0 == name {
        seq![ItemView::Enc(ms[i].1, dec_opt(b, ms[i].1, ms[i].2).1, ms[i].2)]
    } else {
        field_items(b, ms, name, i + 1)
    }
}

/// The elements each index selects, index by index, in the order each
/// index lists them.
pub open spec fn select_listed(items: Seq<ItemView>, idx: Seq<ArrayIndex>, a: int) -> Seq<ItemView>
    decreases idx.len() - a,
{
    if a < 0 || a >= idx.len() {
        Seq::empty()
    } else {
        index_positions(idx[a], items.len() as int).map_values(|k: int| items[k]) + select_listed(items, idx, a + 1)
    }
}

/// The depth below `level`, stopping at the largest `u8`.
pub open spec fn next_level(level: u8) -> u8 {
    if level < 255 {
        (level + 1) as u8
    } else {
        255
    }
}

/// Whether a descent selects depth `level` and goes on below it; with no
/// bounds, every depth.
pub open spec fn level_of(lvl: Option<RecursiveLevel>, level: u8) -> (bool, bool) {
    match lvl {
        Some(r) => level_check(r, level),
        None => (true, true),
    }
}

/// The position at which a member keyed `k` goes into members `ms`, from
/// index `i` on: before the first whose key does not sort before `k`.
pub open spec fn insert_pos(ms: Seq<(Seq<char>, int, Option<Schema>)>, k: Seq<char>, i: int) -> int
    decreases ms.len() - i,
{
    if i < 0 || i >= ms.len() {
        ms.len() as int
    } else if key_lt(ms[i].0, k) {
        insert_pos(ms, k, i + 1)
    } else {
        i
    }
}

/// Members put in key order, one by one from the last.
pub open spec fn sort_members(ms: Seq<(Seq<char>, int, Option<Schema>)>) -> Seq<(Seq<char>, int, Option<Schema>)>
    decreases ms.len(),
{
    if ms.len() == 0 {
        Seq::empty()
    } else {
        let t = sort_members(ms.subrange(1, ms.len() as int));
        t.insert(insert_pos(t, ms[0].0, 0), ms[0])
    }
}

/// The members that `.*` and `.**` visit in the object at `pos`: in key
/// order, as the untyped form holds them; under a schema, whose encoding
/// puts required properties first, put back in key order.
pub open spec fn visit_members(b: Seq<u8>, pos: int, s: Option<Schema>) -> Seq<(Seq<char>, int, Option<Schema>)> {
    match s {
        Some(_) => sort_members(members(b, pos, s)),
        None => members(b, pos, None),
    }
}

/// How many bytes the value at `pos` under the optional schema `s` takes.
pub open spec fn span(b: Seq<u8>, pos: int, s: Option<Schema>) -> int {
    dec_opt(b, pos, s).1 - pos
}

/// The values a recursive descent selects from the value at `pos` under
/// the optional schema `s`, of depth `level`: the value itself, then what it
/// selects below each member's value (in key order) and each element, in
/// order.
pub open spec fn descend(b: Seq<u8>, pos: int, s: Option<Schema>, level: u8, lvl: Option<RecursiveLevel>) -> Seq<ItemView>
    decreases span(b, pos, s), 1nat, 0nat,
{
    let (m, c) = level_of(lvl, level);
    let head = if m {
        seq![ItemView::Enc(pos, dec_opt(b, pos, s).1, s)]
    } else {
        Seq::empty()
    };
    if !c || !(0 <= pos <= b.len()) {
        head
    } else {
        let ms = visit_members(b, pos, s).map_values(|m: (Seq<char>, int, Option<Schema>)| (m.1, m.2));
        let es = elements(b, pos, s);
        let n = span(b, pos, s);
        head + descend_all(b, n, ms, 0, next_level(level), lvl) + descend_all(b, n, es, 0, next_level(level), lvl)
    }
}

/// What a recursive descent selects below each child value (start and
/// schema) from child `i` on. A child is visited where it lies within the
/// buffer and takes fewer bytes than its parent, which takes `bound`.
pub open spec fn descend_all(
    b: Seq<u8>,
    bound: int,
    kids: Seq<(int, Option<Schema>)>,
    i: int,
    level: u8,
    lvl: Option<RecursiveLevel>,
) -> Seq<ItemView>
    decreases bound, 0nat, kids.len() - i,
{
    if i < 0 || i >= kids.len() {
        Seq::empty()
    } else {
        let (st, cs) = kids[i];
        let here = if 0 <= st <= b.len() && 0 <= span(b, st, cs) < bound {
            descend(b, st, cs, level, lvl)
        } else {
            Seq::empty()
        };
        here + descend_all(b, bound, kids, i + 1, level, lvl)
    }
}

/// The field name a segment selects by.
pub open spec fn field_name(p: Path) -> Option<Seq<char>> {
    match p {
        Path::ColonField(n) => Some(n@),
        Path::DotField(n) => Some(n@),
        Path::ObjectField(n) => Some(n@),
        _ => None,
    }
}

/// The items one segment (not a filter) reaches from one item; none when
/// the segment cannot stand there.
pub open spec fn step(b: Seq<u8>, it: ItemView, p: Path) -> Option<Seq<ItemView>> {
    match p {
        Path::Root | Path::Current | Path::FilterExpr(_) | Path::Expr(_) => None,
        _ => Some(
            match it {
                ItemView::Val(_) => match p {
                    Path::BracketWildcard => seq![it],
                    Path::RecursiveDotWildcard(lvl) => if level_of(lvl, 0).0 {
                        seq![it]
                    } else {
                        Seq::empty()
                    },
                    _ => Seq::empty(),
                },
                ItemView::Enc(pos, _, s) => match p {
                    Path::DotWildcard => member_items(b, visit_members(b, pos, s)),
                    Path::RecursiveDotWildcard(lvl) => descend(b, pos, s, 0, lvl),
                    Path::BracketWildcard => if is_array_at(b, pos, s) {
                        element_items(b, elements(b, pos, s))
                    } else {
                        seq![it]
                    },
                    Path::ArrayIndices(idx) => if !is_array_at(b, pos, s) {
                        Seq::empty()
                    } else {
                        select_listed(element_items(b, elements(b, pos, s)), idx@, 0)
                    },
                    _ => match field_name(p) {
                        Some(n) => field_items(b, members(b, pos, s), n, 0),
                        None => Seq::empty(),
                    },
                },
            },
        ),
    }
}

/// The items one segment reaches from each item from index `i` on, in
/// order; none when it cannot stand at one of them.
pub open spec fn step_all(b: Seq<u8>, items: Seq<ItemView>, p: Path, i: int) -> Option<Seq<ItemView>>
    decreases items.len() - i,
{
    if i < 0 || i >= items.len() {
        Some(Seq::empty())
    } else {
        match step(b, items[i], p) {
            Some(r) => match step_all(b, items, p, i + 1) {
                Some(rest) => Some(r + rest),
                None => None,
            },
            None => None,
        }
    }
}

// ------------------------------------------------------------ comparing

/// A value as a filter compares it.
pub enum Scalar {
    Null,
    Bool(bool),
    Num(Number),
    Str(Seq<char>),
    Container,
}

/// A value to compare: a literal, a value read without a schema, or a
/// value encoded under a schema (start, end, schema).
pub enum EvalView {
    Lit(PathValue),
    Dec(Scalar),
    Encoded(int, int, Schema),
}

/// What an operand of a comparison evaluates to: one literal, or the values
/// its paths select.
pub enum ExprView {
    Single(PathValue),
    Many(Seq<EvalView>),
}

/// A value as compared, arrays and objects being containers.
pub open spec fn scalar_of(v: ValueView) -> Scalar {
    match v {
        ValueView::Null => Scalar::Null,
        ValueView::Bool(x) => Scalar::Bool(x),
        ValueView::Number(n) => Scalar::Num(n),
        ValueView::String(s) => Scalar::Str(s),
        _ => Scalar::Container,
    }
}

/// A value decoded under a schema as compared: arrays and objects compare
/// as null.
pub open spec fn schema_scalar_of(v: ValueView) -> Scalar {
    match v {
        ValueView::Null => Scalar::Null,
        ValueView::Bool(x) => Scalar::Bool(x),
        ValueView::Number(n) => Scalar::Num(n),
        ValueView::String(s) => Scalar::Str(s),
        _ => Scalar::Null,
    }
}

/// A literal as compared.
pub open spec fn path_scalar(pv: PathValue) -> Scalar {
    scalar_of(path_value_view(pv))
}

/// A value to compare, as compared.
pub open spec fn eval_scalar(b: Seq<u8>, e: EvalView) -> Scalar {
    match e {
        EvalView::Lit(pv) => path_scalar(pv),
        EvalView::Dec(x) => x,
        EvalView::Encoded(p, _, s) => schema_scalar_of(dec_schema(b, p, s).0),
    }
}

/// The order of two compared values.
pub enum Order {
    Less,
    Equal,
    Greater,
}

/// The order of two integers.
pub open spec fn int_order(a: int, c: int) -> Order {
    if a < c {
        Order::Less
    } else if a == c {
        Order::Equal
    } else {
        Order::Greater
    }
}

/// The order of two byte strings, compared byte by byte.
pub open spec fn bytes_order(a: Seq<u8>, c: Seq<u8>) -> Order {
    if bytes_lt(a, c) {
        Order::Less
    } else if a == c {
        Order::Equal
    } else {
        Order::Greater
    }
}

/// The order of two compared values of the same kind: null, booleans
/// (false first), integers, strings by their UTF-8 bytes; none otherwise.
pub open spec fn scalar_order(l: Scalar, r: Scalar) -> Option<Order> {
    match (l, r) {
        (Scalar::Null, Scalar::Null) => Some(Order::Equal),
        (Scalar::Bool(x), Scalar::Bool(y)) => Some(int_order(if x { 1 } else { 0 }, if y { 1 } else { 0 })),
        (Scalar::Num(x), Scalar::Num(y)) => match (number_as_int(x), number_as_int(y)) {
            (Some(i), Some(j)) => Some(int_order(i, j)),
            _ => None,
        },
        (Scalar::Str(x), Scalar::Str(y)) => Some(bytes_order(encode_utf8(x), encode_utf8(y))),
        _ => None,
    }
}

/// A comparison of two values: none when either is a container, or when the
/// operator does not apply to them.
pub open spec fn compare_scalars(op: BinaryOperator, l: Scalar, r: Scalar) -> Option<bool> {
    if l is Container || r is Container {
        None
    } else if op == BinaryOperator::StartsWith {
        match (l, r) {
            (Scalar::Str(x), Scalar::Str(y)) => Some(encode_utf8(y).is_prefix_of(encode_utf8(x))),
            _ => None,
        }
    } else {
        match scalar_order(l, r) {
            Some(o) => match op {
                BinaryOperator::Eq => Some(o is Equal),
                BinaryOperator::NotEq => Some(!(o is Equal)),
                BinaryOperator::Lt => Some(o is Less),
                BinaryOperator::Lte => Some(o is Less || o is Equal),
                BinaryOperator::Gt => Some(o is Greater),
                BinaryOperator::Gte => Some(o is Greater || o is Equal),
                _ => None,
            },
            None => if op == BinaryOperator::NotEq {
                Some(true)
            } else {
                None
            },
        }
    }
}

/// Whether a numeric literal cannot be a value of a schema with
/// `multipleOf`: an integer that leaves a remainder.
pub open spec fn misses_multiple(s: Schema, pv: PathValue) -> bool {
    match (s.multiple_of, pv) {
        (Some(mul), PathValue::Number(n)) => match number_as_int(n) {
            Some(i) => mul != 0 && !(i == i128::MIN && mul == -1) && trem(i, mul as int) != 0,
            None => false,
        },
        _ => false,
    }
}

/// Whether a literal can be encoded under a schema.
pub open spec fn literal_encodable(pv: PathValue, s: Schema) -> bool {
    match pv {
        PathValue::Number(n) => number_ok(n, s),
        _ => true,
    }
}

/// A comparison of two values to compare. Equality of a schema-encoded
/// value with a literal is first decided on the encoding: false when the
/// literal misses `multipleOf`, true when the literal encodes to the same
/// bytes.
pub open spec fn compare_eval(b: Seq<u8>, op: BinaryOperator, l: EvalView, r: EvalView) -> Option<bool> {
    match (l, r) {
        (EvalView::Encoded(p, e, s), EvalView::Lit(pv)) => if op == BinaryOperator::Eq && misses_multiple(s, pv) {
            Some(false)
        } else if op == BinaryOperator::Eq && literal_encodable(pv, s) && b.subrange(p, e) == enc_schema(path_value_value(pv), s) {
            Some(true)
        } else {
            compare_scalars(op, eval_scalar(b, l), eval_scalar(b, r))
        },
        _ => compare_scalars(op, eval_scalar(b, l), eval_scalar(b, r)),
    }
}

/// The values to compare of an operand.
pub open spec fn evals_of(v: ExprView) -> Seq<EvalView> {
    match v {
        ExprView::Single(pv) => seq![EvalView::Lit(pv)],
        ExprView::Many(vs) => vs,
    }
}

/// Compares `l` with the right values from index `j` on: true at the first
/// that compares true, none at the first that does not compare.
pub open spec fn compare_row(b: Seq<u8>, op: BinaryOperator, l: EvalView, rs: Seq<EvalView>, j: int) -> Option<bool>
    decreases rs.len() - j,
{
    if j < 0 || j >= rs.len() {
        Some(false)
    } else {
        match compare_eval(b, op, l, rs[j]) {
            Some(true) => Some(true),
            Some(false) => compare_row(b, op, l, rs, j + 1),
            None => None,
        }
    }
}

/// Compares each left value from index `i` on with each right value.
pub open spec fn compare_all(b: Seq<u8>, op: BinaryOperator, ls: Seq<EvalView>, rs: Seq<EvalView>, i: int) -> Option<bool>
    decreases ls.len() - i,
{
    if i < 0 || i >= ls.len() {
        Some(false)
    } else {
        match compare_row(b, op, ls[i], rs, 0) {
            Some(true) => Some(true),
            Some(false) => compare_all(b, op, ls, rs, i + 1),
            None => None,
        }
    }
}

/// Whether some value of one operand compares true with some value of the
/// other; none when a pair does not compare first.
pub open spec fn eval_compare(b: Seq<u8>, op: BinaryOperator, l: ExprView, r: ExprView) -> Option<bool> {
    compare_all(b, op, evals_of(l), evals_of(r), 0)
}

/// The values to compare of an item: a schema-encoded value as it is; a
/// value read without a schema as its value, or an array's elements as
/// theirs.
pub open spec fn item_evals(b: Seq<u8>, it: ItemView) -> Seq<EvalView> {
    match it {
        ItemView::Enc(p, e, Some(s)) => seq![EvalView::Encoded(p, e, s)],
        ItemView::Enc(p, _, None) => if 0 <= p < b.len() && b[p] == TAG_ARRAY {
            elements(b, p, None).map_values(|x: (int, Option<Schema>)| EvalView::Dec(scalar_of(dec_opt(b, x.0, None).0)))
        } else {
            seq![EvalView::Dec(scalar_of(dec_opt(b, p, None).0))]
        },
        ItemView::Val(v) => seq![EvalView::Dec(scalar_of(v))],
    }
}

/// The values to compare of items from index `i` on, in order.
pub open spec fn items_evals(b: Seq<u8>, items: Seq<ItemView>, i: int) -> Seq<EvalView>
    decreases items.len() - i,
{
    if i < 0 || i >= items.len() {
        Seq::empty()
    } else {
        item_evals(b, items[i]) + items_evals(b, items, i + 1)
    }
}

// ------------------------------------------------------------ arithmetic

/// The number a value to compare holds, when it is one.
pub open spec fn eval_number(b: Seq<u8>, e: EvalView) -> Option<Number> {
    match e {
        EvalView::Lit(PathValue::Number(n)) => Some(n),
        EvalView::Dec(Scalar::Num(n)) => Some(n),
        EvalView::Encoded(p, _, s) => match dec_schema(b, p, s).0 {
            ValueView::Number(n) => Some(n),
            _ => None,
        },
        _ => None,
    }
}

/// The numbers of values to compare from index `i` on, when all are
/// numbers.
pub open spec fn eval_numbers(b: Seq<u8>, es: Seq<EvalView>, i: int) -> Option<Seq<Number>>
    decreases es.len() - i,
{
    if i < 0 || i >= es.len() {
        Some(Seq::empty())
    } else {
        match (eval_number(b, es[i]), eval_numbers(b, es, i + 1)) {
            (Some(n), Some(rest)) => Some(seq![n] + rest),
            _ => None,
        }
    }
}

/// The numbers an operand holds, when all its values are numbers.
pub open spec fn operand_numbers(b: Seq<u8>, v: ExprView) -> Option<Seq<Number>> {
    eval_numbers(b, evals_of(v), 0)
}

/// The number an operand holds, when it is exactly one number.
pub open spec fn operand_number(b: Seq<u8>, v: ExprView) -> Option<Number> {
    let es = evals_of(v);
    if es.len() == 1 {
        eval_number(b, es[0])
    } else {
        None
    }
}

/// Whether an operator is arithmetic.
pub open spec fn is_arith(op: BinaryOperator) -> bool {
    op == BinaryOperator::Add || op == BinaryOperator::Subtract || op == BinaryOperator::Multiply
        || op == BinaryOperator::Divide || op == BinaryOperator::Modulo
}

/// Integer arithmetic on two numbers in `i128`: none when either is not an
/// integer, on overflow, on division by zero, or when a division leaves a
/// remainder.
pub open spec fn arith(op: BinaryOperator, x: Number, y: Number) -> Option<Number> {
    match (number_as_int(x), number_as_int(y)) {
        (Some(i), Some(j)) => {
            let a = i as i128;
            let c = j as i128;
            let r = match op {
                BinaryOperator::Add => a.checked_add(c),
                BinaryOperator::Subtract => a.checked_sub(c),
                BinaryOperator::Multiply => a.checked_mul(c),
                BinaryOperator::Divide => match a.checked_rem(c) {
                    Some(0) => a.checked_div(c),
                    _ => None,
                },
                BinaryOperator::Modulo => a.checked_rem(c),
                _ => None,
            };
            match r {
                Some(v) => Some(int_number(v)),
                None => None,
            }
        },
        _ => None,
    }
}

/// The negation of an integer number, none when it is not one or overflows.
pub open spec fn negate(x: Number) -> Option<Number> {
    match number_as_int(x) {
        Some(i) => if i == i128::MIN {
            None
        } else {
            Some(int_number((0 - i) as i128))
        },
        None => None,
    }
}

/// The negations of numbers from index `i` on.
pub open spec fn negate_all(ns: Seq<Number>, i: int) -> Option<Seq<Number>>
    decreases ns.len() - i,
{
    if i < 0 || i >= ns.len() {
        Some(Seq::empty())
    } else {
        match (negate(ns[i]), negate_all(ns, i + 1)) {
            (Some(n), Some(rest)) => Some(seq![n] + rest),
            _ => None,
        }
    }
}

/// Numbers as computed items.
pub open spec fn number_items(ns: Seq<Number>) -> Seq<ItemView> {
    ns.map_values(|n: Number| ItemView::Val(ValueView::Number(n)))
}

// ------------------------------------------------------------ selection

/// The items the segments from index `k` on reach from `items`. A filter
/// keeps the items it holds for; at the top level an expression segment
/// filters too, while inside a filter it cannot stand.
pub open spec fn sel_paths(b: Seq<u8>, root: ItemView, items: Seq<ItemView>, paths: Seq<Path>, k: int, top: bool) -> Option<Seq<ItemView>>
    decreases paths, 3nat, paths.len() - k,
{
    if k < 0 || k >= paths.len() {
        Some(items)
    } else {
        match paths[k] {
            Path::Root | Path::Current => sel_paths(b, root, items, paths, k + 1, top),
            Path::FilterExpr(e) => match filter_items(b, root, items, *e, 0) {
                Some(kept) => sel_paths(b, root, kept, paths, k + 1, top),
                None => None,
            },
            Path::Expr(e) => if top {
                match filter_items(b, root, items, *e, 0) {
                    Some(kept) => sel_paths(b, root, kept, paths, k + 1, top),
                    None => None,
                }
            } else {
                match step_all(b, items, paths[k], 0) {
                    Some(next) => sel_paths(b, root, next, paths, k + 1, top),
                    None => None,
                }
            },
            _ => match step_all(b, items, paths[k], 0) {
                Some(next) => sel_paths(b, root, next, paths, k + 1, top),
                None => None,
            },
        }
    }
}

/// The items from index `i` on for which the filter holds.
pub open spec fn filter_items(b: Seq<u8>, root: ItemView, items: Seq<ItemView>, e: Expr, i: int) -> Option<Seq<ItemView>>
    decreases e, 2nat, items.len() - i,
{
    if i < 0 || i >= items.len() {
        Some(Seq::empty())
    } else {
        match eval_filter(b, root, items[i], e) {
            Some(r) => match filter_items(b, root, items, e, i + 1) {
                Some(rest) => Some(if r == Some(true) { seq![items[i]] + rest } else { rest }),
                None => None,
            },
            None => None,
        }
    }
}

/// The items the segments of a filter path reach, from the current item
/// when the path starts with `@`, else from the root.
pub open spec fn filter_paths(b: Seq<u8>, root: ItemView, it: ItemView, paths: Seq<Path>) -> Option<Seq<ItemView>>
    decreases paths, 4nat, 0nat,
{
    let start = if paths.len() > 0 && paths[0] is Current { seq![it] } else { seq![root] };
    sel_paths(b, root, start, paths, 0, false)
}

/// A filter at an item: whether it holds, none when it does not decide;
/// the outer none is an error.
pub open spec fn eval_filter(b: Seq<u8>, root: ItemView, it: ItemView, e: Expr) -> Option<Option<bool>>
    decreases e, 1nat, 0nat,
{
    match e {
        Expr::BinaryOp { op, left, right } => if op == BinaryOperator::Or || op == BinaryOperator::And {
            match eval_filter(b, root, it, *left) {
                Some(l) => match eval_filter(b, root, it, *right) {
                    Some(r) => Some(
                        match (l, r) {
                            (Some(x), Some(y)) => Some(if op == BinaryOperator::Or { x || y } else { x && y }),
                            _ => None,
                        },
                    ),
                    None => None,
                },
                None => None,
            }
        } else if is_arith(op) {
            Some(None)
        } else {
            match expr_val(b, root, it, *left) {
                Some(l) => match expr_val(b, root, it, *right) {
                    Some(r) => Some(eval_compare(b, op, l, r)),
                    None => None,
                },
                None => None,
            }
        },
        Expr::ExistsFunc(paths) => match filter_paths(b, root, it, paths@) {
            Some(found) => Some(Some(found.len() > 0)),
            None => None,
        },
        _ => None,
    }
}

/// An operand at an item: a literal, or the values its paths select.
pub open spec fn expr_val(b: Seq<u8>, root: ItemView, it: ItemView, e: Expr) -> Option<ExprView>
    decreases e, 0nat, 0nat,
{
    match e {
        Expr::Value(pv) => Some(ExprView::Single(*pv)),
        Expr::Paths(paths) => match filter_paths(b, root, it, paths@) {
            Some(found) => Some(ExprView::Many(items_evals(b, found, 0))),
            None => None,
        },
        _ => None,
    }
}

/// What a path that is one expression yields at an item: the numbers an
/// arithmetic expression computes, or the outcome of a predicate (null when
/// it does not decide).
pub open spec fn eval_expr(b: Seq<u8>, root: ItemView, it: ItemView, e: Expr) -> Option<Seq<ItemView>> {
    match e {
        Expr::UnaryOp { op, operand } => match expr_val(b, root, it, *operand) {
            Some(v) => match operand_numbers(b, v) {
                Some(ns) => match op {
                    UnaryOperator::Add => Some(number_items(ns)),
                    UnaryOperator::Subtract => match negate_all(ns, 0) {
                        Some(ms) => Some(number_items(ms)),
                        None => None,
                    },
                },
                None => None,
            },
            None => None,
        },
        Expr::BinaryOp { op, left, right } => if is_arith(op) {
            match (expr_val(b, root, it, *left), expr_val(b, root, it, *right)) {
                (Some(l), Some(r)) => match (operand_number(b, l), operand_number(b, r)) {
                    (Some(x), Some(y)) => match arith(op, x, y) {
                        Some(z) => Some(seq![ItemView::Val(ValueView::Number(z))]),
                        None => None,
                    },
                    _ => None,
                },
                _ => None,
            }
        } else {
            match eval_filter(b, root, it, e) {
                Some(r) => Some(seq![ItemView::Val(match r { Some(x) => ValueView::Bool(x), None => ValueView::Null })]),
                None => None,
            }
        },
        Expr::ExistsFunc(_) => match eval_filter(b, root, it, e) {
            Some(r) => Some(seq![ItemView::Val(match r { Some(x) => ValueView::Bool(x), None => ValueView::Null })]),
            None => None,
        },
        Expr::Value(pv) => Some(seq![ItemView::Val(path_value_view(*pv))]),
        Expr::Paths(_) => None,
    }
}

/// The items a whole path reaches from the root item: what a sole
/// expression yields, else what its segments reach; none on an error,
/// including a path that starts with `@`.
pub open spec fn exec_path(b: Seq<u8>, root: ItemView, jp: JsonPath) -> Option<Seq<ItemView>> {
    let paths = jp.paths@;
    if paths.len() == 1 && paths[0] is Expr {
        eval_expr(b, root, root, *paths[0]->Expr_0)
    } else if paths.len() > 0 && paths[0] is Current {
        None
    } else {
        sel_paths(b, root, seq![root], paths, 0, true)
    }
}

/// The root item of a buffer: all of it, under the root schema.
pub open spec fn root_item(b: Seq<u8>, s: Option<Schema>) -> ItemView {
    ItemView::Enc(0, b.len() as int, s)
}

} // verus!
